//! Decoding inverts encoding for whole response messages: a response that a
//! conforming responder lays out — uncompressed names, one record after
//! another — decodes to exactly the records it intended, the recognised
//! kinds in order and the other kinds skipped.

use vstd::prelude::*;
use vstd::utf8::{decode_utf8, valid_utf8};

use crate::dns::{
    be16, join_labels, lemma_name_round_trip, lemma_wire_name_len, opt_record_seq, spec_decode,
    spec_header_bytes, spec_parse_record, spec_parse_records, spec_parse_txt, wf_labels, wire_name,
    DnsSdHeader, RecordModel,
};
use crate::dnssd_error::DnsSdError;

verus! {

/// The payload of one record as a responder lays it out.
pub enum WireRecordData {
    A { octets: Seq<u8> },
    Aaaa { groups: Seq<u16> },
    Srv { port: u16, target: Seq<Seq<u8>> },
    Ptr { target: Seq<Seq<u8>> },
    Txt { chunks: Seq<Seq<u8>> },
    Other { type_num: u16, data: Seq<u8> },
}

/// One record as a responder lays it out: a name as its dot-free labels,
/// and the payload.
pub struct WireRecord {
    pub name: Seq<Seq<u8>>,
    pub data: WireRecordData,
}

/// The type number a payload is written under.
pub open spec fn type_num_of(d: WireRecordData) -> u16 {
    match d {
        WireRecordData::A { .. } => 1,
        WireRecordData::Aaaa { .. } => 28,
        WireRecordData::Srv { .. } => 33,
        WireRecordData::Ptr { .. } => 12,
        WireRecordData::Txt { .. } => 16,
        WireRecordData::Other { type_num, .. } => type_num,
    }
}

/// A 16-bit value as its two big-endian octets.
pub open spec fn be16_bytes(v: u16) -> Seq<u8> {
    seq![(v / 0x100) as u8, (v % 0x100) as u8]
}

/// Length-prefixed TXT strings, one after another.
pub open spec fn txt_bytes(chunks: Seq<Seq<u8>>) -> Seq<u8>
    decreases chunks.len(),
{
    if chunks.len() == 0 {
        Seq::empty()
    } else {
        seq![chunks[0].len() as u8] + chunks[0] + txt_bytes(chunks.drop_first())
    }
}

/// The TXT strings as the decoder returns them.
pub open spec fn decoded_chunks(chunks: Seq<Seq<u8>>) -> Seq<Seq<char>> {
    Seq::new(chunks.len(), |i: int| decode_utf8(chunks[i]))
}

/// The rdata octets of one payload: addresses in wire order, SRV with its
/// ignored priority and weight zeroed, names uncompressed.
pub open spec fn rdata_of(d: WireRecordData) -> Seq<u8> {
    match d {
        WireRecordData::A { octets } => octets,
        WireRecordData::Aaaa { groups } => Seq::new(
            16,
            |i: int|
                if i % 2 == 0 {
                    (groups[i / 2] / 0x100) as u8
                } else {
                    (groups[i / 2] % 0x100) as u8
                },
        ),
        WireRecordData::Srv { port, target } => seq![0u8, 0u8, 0u8, 0u8] + be16_bytes(port)
            + wire_name(target),
        WireRecordData::Ptr { target } => wire_name(target),
        WireRecordData::Txt { chunks } => txt_bytes(chunks),
        WireRecordData::Other { data, .. } => data,
    }
}

/// A record a conforming responder can emit and the decoder reads back:
/// well-formed names, payloads of the right sizes, rdata that fits its
/// 16-bit length field, and `Other` only for the recognised types the
/// decoder skips.
pub open spec fn wf_wire_record(r: WireRecord) -> bool {
    &&& wf_labels(r.name)
    &&& rdata_of(r.data).len() <= 0xffff
    &&& match r.data {
        WireRecordData::A { octets } => octets.len() == 4,
        WireRecordData::Aaaa { groups } => groups.len() == 8,
        WireRecordData::Srv { target, .. } => wf_labels(target),
        WireRecordData::Ptr { target } => wf_labels(target),
        WireRecordData::Txt { chunks } => forall|k: int|
            0 <= k < chunks.len() ==> (#[trigger] chunks[k]).len() <= 0xff && valid_utf8(
                chunks[k],
            ),
        WireRecordData::Other { type_num, .. } => type_num == 2 || type_num == 5 || type_num == 6
            || type_num == 15 || type_num == 41 || type_num == 47 || type_num == 255,
    }
}

/// The octets of one encoded record: name, type, class IN, zero TTL, rdata
/// length, rdata.
pub open spec fn encode_record(r: WireRecord) -> Seq<u8> {
    wire_name(r.name) + be16_bytes(type_num_of(r.data)) + be16_bytes(1) + seq![0u8, 0u8, 0u8, 0u8]
        + be16_bytes(rdata_of(r.data).len() as u16) + rdata_of(r.data)
}

/// The decoded record an encoded one stands for: None for the skipped
/// kinds.
pub open spec fn induced_model(r: WireRecord) -> Option<RecordModel> {
    let label = join_labels(r.name);
    match r.data {
        WireRecordData::A { octets } => Some(RecordModel::A { label, octets }),
        WireRecordData::Aaaa { groups } => Some(RecordModel::Aaaa { label, groups }),
        WireRecordData::Srv { port, target } => Some(
            RecordModel::Srv { label, service: join_labels(target), port },
        ),
        WireRecordData::Ptr { target } => Some(
            RecordModel::Ptr { label, service: join_labels(target) },
        ),
        WireRecordData::Txt { chunks } => Some(
            RecordModel::Txt { label, records: decoded_chunks(chunks) },
        ),
        WireRecordData::Other { .. } => None,
    }
}

/// The octets of a record list, one record after another.
pub open spec fn encode_records(rs: Seq<WireRecord>) -> Seq<u8>
    decreases rs.len(),
{
    if rs.len() == 0 {
        Seq::empty()
    } else {
        encode_record(rs[0]) + encode_records(rs.drop_first())
    }
}

/// The decoded records a record list stands for, the skipped kinds absent.
pub open spec fn induced_models(rs: Seq<WireRecord>) -> Seq<RecordModel>
    decreases rs.len(),
{
    if rs.len() == 0 {
        Seq::empty()
    } else {
        opt_record_seq(induced_model(rs[0])) + induced_models(rs.drop_first())
    }
}

/// A whole response as a conforming responder lays it out: zero id, the
/// response bit, no questions, every record in the answer section.
pub open spec fn encode_response(rs: Seq<WireRecord>) -> Seq<u8> {
    spec_header_bytes(
        DnsSdHeader {
            id: 0,
            flags: 0x8400,
            queries_len: 0,
            answers_len: rs.len() as u16,
            authorities_len: 0,
            additional_len: 0,
        },
    ) + encode_records(rs)
}

/// The TXT walk reads back exactly the strings the responder wrote.
proof fn lemma_txt_round_trip(buf: Seq<u8>, off: int, end: int, chunks: Seq<Seq<u8>>, acc: Seq<
    Seq<char>,
>)
    requires
        forall|k: int|
            0 <= k < chunks.len() ==> (#[trigger] chunks[k]).len() <= 0xff && valid_utf8(
                chunks[k],
            ),
        0 <= off,
        end == off + txt_bytes(chunks).len(),
        end <= buf.len(),
        buf.subrange(off, end) == txt_bytes(chunks),
    ensures
        spec_parse_txt(buf, off, end, acc) == Ok::<Seq<Seq<char>>, DnsSdError>(
            acc + decoded_chunks(chunks),
        ),
    decreases chunks.len(),
{
    let tb = txt_bytes(chunks);
    assert forall|k: int| 0 <= k < tb.len() implies buf[off + k] == tb[k] by {
        assert(buf.subrange(off, end)[k] == buf[off + k]);
    }
    if chunks.len() == 0 {
        assert(acc + decoded_chunks(chunks) =~= acc);
    } else {
        let c0 = chunks[0];
        let rest = chunks.drop_first();
        let len0 = c0.len() as int;
        assert(tb == seq![c0.len() as u8] + c0 + txt_bytes(rest));
        assert(buf[off + 0] == tb[0]);
        assert(buf[off] == c0.len() as u8);
        assert(off < end);
        assert(buf.subrange(off + 1, off + 1 + len0) =~= c0) by {
            assert forall|k: int| 0 <= k < len0 implies buf.subrange(off + 1, off + 1 + len0)[k]
                == c0[k] by {
                assert(buf[off + 1 + k] == tb[1 + k]);
                assert(tb[1 + k] == c0[k]);
            }
        }
        assert(valid_utf8(buf.subrange(off + 1, off + 1 + len0)));
        let off2 = off + 1 + len0;
        assert forall|k: int|
            0 <= k < rest.len() implies (#[trigger] rest[k]).len() <= 0xff && valid_utf8(
            rest[k],
        ) by {
            assert(rest[k] == chunks[k + 1]);
        }
        assert(buf.subrange(off2, end) =~= txt_bytes(rest)) by {
            assert forall|k: int| 0 <= k < txt_bytes(rest).len() implies buf.subrange(off2, end)[k]
                == txt_bytes(rest)[k] by {
                assert(buf[off2 + k] == tb[1 + len0 + k]);
                assert(tb[1 + len0 + k] == txt_bytes(rest)[k]);
            }
        }
        lemma_txt_round_trip(buf, off2, end, rest, acc.push(decode_utf8(c0)));
        assert(decoded_chunks(chunks)[0] == decode_utf8(c0));
        assert(acc.push(decode_utf8(c0)) + decoded_chunks(rest) =~= acc + decoded_chunks(chunks))
            by {
            assert forall|k: int|
                0 <= k < decoded_chunks(rest).len() implies decoded_chunks(rest)[k]
                == decoded_chunks(chunks)[k + 1] by {
                assert(rest[k] == chunks[k + 1]);
            }
        }
    }
}

/// One encoded record parses to the record it stands for, and the parser
/// advances exactly past it.
proof fn lemma_record_round_trip(buf: Seq<u8>, o: int, r: WireRecord)
    requires
        wf_wire_record(r),
        0 <= o,
        o + encode_record(r).len() <= buf.len(),
        buf.subrange(o, o + encode_record(r).len() as int) == encode_record(r),
    ensures
        spec_parse_record(buf, o) == Ok::<(Option<RecordModel>, int), DnsSdError>(
            (induced_model(r), o + encode_record(r).len()),
        ),
{
    let enc = encode_record(r);
    let wn = wire_name(r.name);
    let rdata = rdata_of(r.data);
    let tail = be16_bytes(type_num_of(r.data)) + be16_bytes(1) + seq![0u8, 0u8, 0u8, 0u8]
        + be16_bytes(rdata.len() as u16) + rdata;
    assert(enc =~= wn + tail);
    assert forall|k: int| 0 <= k < enc.len() implies buf[o + k] == enc[k] by {
        assert(buf.subrange(o, o + enc.len() as int)[k] == buf[o + k]);
    }
    lemma_wire_name_len(r.name);
    assert(buf.subrange(o, o + wn.len() as int) =~= wn) by {
        assert forall|k: int| 0 <= k < wn.len() implies buf.subrange(o, o + wn.len() as int)[k]
            == wn[k] by {
            assert(buf[o + k] == enc[k]);
            assert(enc[k] == wn[k]);
        }
    }
    lemma_name_round_trip(
        buf,
        o,
        r.name,
        crate::dns::MAX_COMPRESSION_POINTERS as int,
        false,
        o,
        Seq::empty(),
    );
    let e = o + wn.len();
    assert(Seq::<char>::empty() + join_labels(r.name) =~= join_labels(r.name));

    let tn = type_num_of(r.data);
    assert forall|k: int| 0 <= k < tail.len() implies buf[e + k] == tail[k] by {
        assert(buf[o + (wn.len() + k)] == enc[wn.len() + k]);
        assert(enc[wn.len() + k] == tail[k]);
    }
    assert(tail =~= seq![
        (tn / 0x100) as u8,
        (tn % 0x100) as u8,
        0u8,
        1u8,
        0u8,
        0u8,
        0u8,
        0u8,
        (rdata.len() as u16 / 0x100) as u8,
        (rdata.len() as u16 % 0x100) as u8,
    ] + rdata);
    assert(buf[e + 0] == tail[0]);
    assert(buf[e + 1] == tail[1]);
    assert(buf[e + 8] == tail[8]);
    assert(buf[e + 9] == tail[9]);
    assert(be16(buf, e) == tn);
    assert(be16(buf, e + 8) == rdata.len() as u16);
    let o2 = e + 10;
    assert forall|k: int| 0 <= k < rdata.len() implies buf[o2 + k] == rdata[k] by {
        assert(buf[e + (10 + k)] == tail[10 + k]);
        assert(tail[10 + k] == rdata[k]);
    }
    assert(o2 + rdata.len() == o + enc.len());

    match r.data {
        WireRecordData::A { octets } => {
            assert(buf.subrange(o2, o2 + 4) =~= octets);
        },
        WireRecordData::Aaaa { groups } => {
            assert(Seq::new(8, |i: int| be16(buf, o2 + 2 * i)) =~= groups) by {
                assert forall|i: int|
                    0 <= i < 8 implies be16(buf, o2 + 2 * i) == groups[i] by {
                    assert(buf[o2 + (2 * i)] == rdata[2 * i]);
                    assert(buf[o2 + (2 * i + 1)] == rdata[2 * i + 1]);
                    assert(rdata[2 * i] == (groups[i] / 0x100) as u8);
                    assert(rdata[2 * i + 1] == (groups[i] % 0x100) as u8);
                }
            }
        },
        WireRecordData::Srv { port, target } => {
            let wt = wire_name(target);
            lemma_wire_name_len(target);
            assert(rdata.len() >= 6);
            assert(buf[o2 + 4] == rdata[4]);
            assert(buf[o2 + 5] == rdata[5]);
            assert(rdata[4] == (port / 0x100) as u8);
            assert(rdata[5] == (port % 0x100) as u8);
            assert(be16(buf, o2 + 4) == port);
            assert(buf.subrange(o2 + 6, o2 + 6 + wt.len() as int) =~= wt) by {
                assert forall|k: int|
                    0 <= k < wt.len() implies buf.subrange(o2 + 6, o2 + 6 + wt.len() as int)[k]
                    == wt[k] by {
                    assert(buf[o2 + (6 + k)] == rdata[6 + k]);
                    assert(rdata[6 + k] == wt[k]);
                }
            }
            lemma_name_round_trip(
                buf,
                o2 + 6,
                target,
                crate::dns::MAX_COMPRESSION_POINTERS as int,
                false,
                o2 + 6,
                Seq::empty(),
            );
            assert(Seq::<char>::empty() + join_labels(target) =~= join_labels(target));
        },
        WireRecordData::Ptr { target } => {
            let wt = wire_name(target);
            lemma_wire_name_len(target);
            assert(buf.subrange(o2, o2 + wt.len() as int) =~= wt) by {
                assert forall|k: int|
                    0 <= k < wt.len() implies buf.subrange(o2, o2 + wt.len() as int)[k]
                    == wt[k] by {
                    assert(buf[o2 + k] == rdata[k]);
                }
            }
            lemma_name_round_trip(
                buf,
                o2,
                target,
                crate::dns::MAX_COMPRESSION_POINTERS as int,
                false,
                o2,
                Seq::empty(),
            );
            assert(Seq::<char>::empty() + join_labels(target) =~= join_labels(target));
        },
        WireRecordData::Txt { chunks } => {
            assert(buf.subrange(o2, o2 + rdata.len() as int) =~= txt_bytes(chunks)) by {
                assert forall|k: int|
                    0 <= k < rdata.len() implies buf.subrange(o2, o2 + rdata.len() as int)[k]
                    == txt_bytes(chunks)[k] by {
                    assert(buf[o2 + k] == rdata[k]);
                }
            }
            lemma_txt_round_trip(buf, o2, o2 + rdata.len() as int, chunks, Seq::empty());
            assert(Seq::<Seq<char>>::empty() + decoded_chunks(chunks) =~= decoded_chunks(chunks));
        },
        WireRecordData::Other { .. } => {
        },
    }
}

/// A list of encoded records parses to the records it stands for, in order.
proof fn lemma_records_round_trip(buf: Seq<u8>, o: int, rs: Seq<WireRecord>, acc: Seq<RecordModel>)
    requires
        forall|k: int| 0 <= k < rs.len() ==> wf_wire_record(#[trigger] rs[k]),
        0 <= o,
        o + encode_records(rs).len() <= buf.len(),
        buf.subrange(o, o + encode_records(rs).len() as int) == encode_records(rs),
    ensures
        spec_parse_records(buf, o, rs.len() as int, acc) == Ok::<(Seq<RecordModel>, int), DnsSdError>(
            (acc + induced_models(rs), o + encode_records(rs).len()),
        ),
    decreases rs.len(),
{
    let eb = encode_records(rs);
    assert forall|k: int| 0 <= k < eb.len() implies buf[o + k] == eb[k] by {
        assert(buf.subrange(o, o + eb.len() as int)[k] == buf[o + k]);
    }
    if rs.len() == 0 {
        assert(acc + induced_models(rs) =~= acc);
    } else {
        let r0 = rs[0];
        let rest = rs.drop_first();
        let e0 = encode_record(r0);
        assert(eb == e0 + encode_records(rest));
        assert(buf.subrange(o, o + e0.len() as int) =~= e0) by {
            assert forall|k: int| 0 <= k < e0.len() implies buf.subrange(o, o + e0.len() as int)[k]
                == e0[k] by {
                assert(buf[o + k] == eb[k]);
                assert(eb[k] == e0[k]);
            }
        }
        lemma_record_round_trip(buf, o, r0);
        let o2 = o + e0.len();
        assert forall|k: int| 0 <= k < rest.len() implies wf_wire_record(#[trigger] rest[k]) by {
            assert(rest[k] == rs[k + 1]);
        }
        assert(buf.subrange(o2, o2 + encode_records(rest).len() as int) =~= encode_records(rest))
            by {
            assert forall|k: int|
                0 <= k < encode_records(rest).len() implies buf.subrange(
                o2,
                o2 + encode_records(rest).len() as int,
            )[k] == encode_records(rest)[k] by {
                assert(buf[o + (e0.len() + k)] == eb[e0.len() + k]);
                assert(eb[e0.len() + k] == encode_records(rest)[k]);
            }
        }
        lemma_records_round_trip(buf, o2, rest, acc + opt_record_seq(induced_model(r0)));
        assert(acc + opt_record_seq(induced_model(r0)) + induced_models(rest) =~= acc
            + induced_models(rs));
    }
}

/// The whole-message round trip: a response laid out by a conforming
/// responder — zero id, the response bit, no questions, its records one
/// after another with uncompressed well-formed names — decodes to exactly
/// the records it intended, the recognised kinds in wire order and the
/// other kinds skipped.
pub proof fn lemma_response_round_trip(rs: Seq<WireRecord>)
    requires
        forall|k: int| 0 <= k < rs.len() ==> wf_wire_record(#[trigger] rs[k]),
        1 <= rs.len() <= 0xffff,
    ensures
        spec_decode(encode_response(rs)) == Ok::<Seq<RecordModel>, DnsSdError>(
            induced_models(rs),
        ),
{
    let buf = encode_response(rs);
    let hdr = DnsSdHeader {
        id: 0,
        flags: 0x8400,
        queries_len: 0,
        answers_len: rs.len() as u16,
        authorities_len: 0,
        additional_len: 0,
    };
    let hb = spec_header_bytes(hdr);
    assert(hb.len() == 12);
    assert(buf.len() >= 12);
    assert forall|k: int| 0 <= k < 12 implies buf[k] == hb[k] by {
        assert(buf[k] == (hb + encode_records(rs))[k]);
    }
    assert(be16(buf, 0) == 0);
    assert(be16(buf, 2) == 0x8400);
    assert(be16(buf, 4) == 0);
    assert(be16(buf, 6) == rs.len() as u16);
    assert(be16(buf, 8) == 0);
    assert(be16(buf, 10) == 0);
    assert(0x8400u16 & 0x8000u16 == 0x8000u16) by (bit_vector);
    assert(buf.subrange(12, 12 + encode_records(rs).len() as int) =~= encode_records(rs)) by {
        assert forall|k: int|
            0 <= k < encode_records(rs).len() implies buf.subrange(
            12,
            12 + encode_records(rs).len() as int,
        )[k] == encode_records(rs)[k] by {
            assert(buf[12 + k] == (hb + encode_records(rs))[12 + k]);
        }
    }
    lemma_records_round_trip(buf, 12, rs, Seq::empty());
    assert(Seq::<RecordModel>::empty() + induced_models(rs) =~= induced_models(rs));
    assert(spec_parse_records(buf, 12 + encode_records(rs).len() as int, 0, induced_models(rs))
        == Ok::<(Seq<RecordModel>, int), DnsSdError>(
        (induced_models(rs), 12 + encode_records(rs).len() as int),
    ));
}

} // verus!
