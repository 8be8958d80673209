//! Wire-format codec for DNS-SD messages: the 12-octet header, name decoding
//! with compression pointers, record decoding, and query encoding.

use vstd::prelude::*;
use vstd::slice::slice_subrange;
use vstd::string::StringExecFns;
use vstd::utf8::{
    char_u32_cast, codepoint_width_1, decode_first_scalar, decode_utf8, decode_utf8_split,
    encode_utf8, encode_utf8_decode_utf8, encode_utf8_valid_utf8,
    is_char_boundary_iff_not_is_continuation_byte,
    is_continuation_byte, is_leading_byte_width_1, length_of_first_scalar, pop_first_scalar,
    valid_first_scalar, valid_utf8, valid_utf8_split,
};

use crate::dnssd_error::DnsSdError;
use crate::text::bytes_to_string;

verus! {

/// At most this many compression pointers may be followed while decoding
/// one name; more count as a compression loop.
pub const MAX_COMPRESSION_POINTERS: u8 = 126;

/// A single label may occupy at most this many octets.
pub const MAX_LABEL_OCTETS: u8 = 255;

/// One decoded resource record of a kind the library cares about.
#[derive(Debug)]
pub enum DnsSdResponse {
    PtrAnswer(PtrAnswer),
    SrvAnswer(SrvAnswer),
    TxtAnswer(TxtAnswer),
    AAnswer(AAnswer),
    AaaaAnswer(AaaaAnswer),
}

/// A PTR record: `label` is the service type, `service` the instance name it
/// points to.
#[derive(Debug)]
pub struct PtrAnswer {
    pub label: String,
    pub service: String,
}

/// An SRV record: `label` is the instance, `service` the hostname, `port`
/// the instance's port.
#[derive(Debug)]
pub struct SrvAnswer {
    pub label: String,
    pub service: String,
    pub port: u16,
}

/// A TXT record: `records` is the ordered list of key=value strings.
#[derive(Debug)]
pub struct TxtAnswer {
    pub label: String,
    pub records: Vec<String>,
}

/// An A record: the IPv4 host address of hostname `label`, as four octets in
/// wire order.
#[derive(Debug)]
pub struct AAnswer {
    pub label: String,
    pub address: [u8; 4],
}

/// An AAAA record: the IPv6 host address of hostname `label`, as eight
/// 16-bit groups in wire order.
#[derive(Debug)]
pub struct AaaaAnswer {
    pub label: String,
    pub address: [u16; 8],
}

/// The specification-level shape of a decoded record: labels as character
/// sequences, addresses as their wire groups.
#[verifier::ext_equal]
pub enum RecordModel {
    Ptr { label: Seq<char>, service: Seq<char> },
    Srv { label: Seq<char>, service: Seq<char>, port: u16 },
    Txt { label: Seq<char>, records: Seq<Seq<char>> },
    A { label: Seq<char>, octets: Seq<u8> },
    Aaaa { label: Seq<char>, groups: Seq<u16> },
}

/// The label a record is filed under, whatever its kind.
pub open spec fn record_label(r: RecordModel) -> Seq<char> {
    match r {
        RecordModel::Ptr { label, .. } => label,
        RecordModel::Srv { label, .. } => label,
        RecordModel::Txt { label, .. } => label,
        RecordModel::A { label, .. } => label,
        RecordModel::Aaaa { label, .. } => label,
    }
}

impl View for DnsSdResponse {
    type V = RecordModel;

    open spec fn view(&self) -> RecordModel {
        match self {
            DnsSdResponse::PtrAnswer(a) => RecordModel::Ptr { label: a.label@, service: a.service@ },
            DnsSdResponse::SrvAnswer(a) => RecordModel::Srv {
                label: a.label@,
                service: a.service@,
                port: a.port,
            },
            DnsSdResponse::TxtAnswer(a) => RecordModel::Txt {
                label: a.label@,
                records: Seq::new(a.records@.len(), |i: int| a.records@[i]@),
            },
            DnsSdResponse::AAnswer(a) => RecordModel::A { label: a.label@, octets: a.address@ },
            DnsSdResponse::AaaaAnswer(a) => RecordModel::Aaaa {
                label: a.label@,
                groups: a.address@,
            },
        }
    }
}

/// The fixed 12-octet message header, fields in wire order, big-endian.
pub struct DnsSdHeader {
    pub id: u16,
    pub flags: u16,
    pub queries_len: u16,
    pub answers_len: u16,
    pub authorities_len: u16,
    pub additional_len: u16,
}

/// Big-endian 16-bit value read from `buf[i]` and `buf[i + 1]`.
pub open spec fn be16(buf: Seq<u8>, i: int) -> u16
    recommends
        0 <= i,
        i + 2 <= buf.len(),
{
    (buf[i] * 0x100 + buf[i + 1]) as u16
}

/// What decoding the header of the packet `buf` yields: the packet must
/// hold at least the 12 header octets, and the id must be zero (only
/// unsolicited mDNS traffic is accepted).
pub open spec fn spec_header_from(buf: Seq<u8>) -> Result<DnsSdHeader, DnsSdError> {
    if buf.len() < 12 {
        Err(DnsSdError::InvalidDnsSdHeader)
    } else if be16(buf, 0) != 0 {
        Err(DnsSdError::InvalidDnsSdHeader)
    } else {
        Ok(
            DnsSdHeader {
                id: be16(buf, 0),
                flags: be16(buf, 2),
                queries_len: be16(buf, 4),
                answers_len: be16(buf, 6),
                authorities_len: be16(buf, 8),
                additional_len: be16(buf, 10),
            },
        )
    }
}

/// The 12 octets that `to_bytes` emits for a header, big-endian field order.
pub open spec fn spec_header_bytes(h: DnsSdHeader) -> Seq<u8> {
    seq![
        (h.id / 0x100) as u8,
        (h.id % 0x100) as u8,
        (h.flags / 0x100) as u8,
        (h.flags % 0x100) as u8,
        (h.queries_len / 0x100) as u8,
        (h.queries_len % 0x100) as u8,
        (h.answers_len / 0x100) as u8,
        (h.answers_len % 0x100) as u8,
        (h.authorities_len / 0x100) as u8,
        (h.authorities_len % 0x100) as u8,
        (h.additional_len / 0x100) as u8,
        (h.additional_len % 0x100) as u8,
    ]
}

impl DnsSdHeader {
    /// Decode the header of the packet held in the first `count` octets of
    /// `buffer`; the rest of the buffer plays no part.
    pub fn from(buffer: &[u8], count: usize) -> (r: Result<DnsSdHeader, DnsSdError>)
        requires
            count <= buffer@.len(),
        ensures
            r == spec_header_from(buffer@.subrange(0, count as int)),
    {
        proof {
            assert forall|k: int|
                0 <= k < count implies buffer@.subrange(0, count as int)[k] == buffer@[k] by {}
        }
        if count < 12 {
            return Err(DnsSdError::InvalidDnsSdHeader);
        }
        let id: u16 = buffer[0] as u16 * 0x100 + buffer[1] as u16;
        if id != 0 {
            return Err(DnsSdError::InvalidDnsSdHeader);
        }
        let flags: u16 = buffer[2] as u16 * 0x100 + buffer[3] as u16;
        let queries_len: u16 = buffer[4] as u16 * 0x100 + buffer[5] as u16;
        let answers_len: u16 = buffer[6] as u16 * 0x100 + buffer[7] as u16;
        let authorities_len: u16 = buffer[8] as u16 * 0x100 + buffer[9] as u16;
        let additional_len: u16 = buffer[10] as u16 * 0x100 + buffer[11] as u16;
        Ok(DnsSdHeader { id, flags, queries_len, answers_len, authorities_len, additional_len })
    }

    /// Emit the 12 wire octets of this header.
    pub fn to_bytes(&self) -> (r: Vec<u8>)
        ensures
            r@ == spec_header_bytes(*self),
    {
        let mut buffer: Vec<u8> = Vec::new();
        buffer.push((self.id / 0x100) as u8);
        buffer.push((self.id % 0x100) as u8);
        buffer.push((self.flags / 0x100) as u8);
        buffer.push((self.flags % 0x100) as u8);
        buffer.push((self.queries_len / 0x100) as u8);
        buffer.push((self.queries_len % 0x100) as u8);
        buffer.push((self.answers_len / 0x100) as u8);
        buffer.push((self.answers_len % 0x100) as u8);
        buffer.push((self.authorities_len / 0x100) as u8);
        buffer.push((self.authorities_len % 0x100) as u8);
        buffer.push((self.additional_len / 0x100) as u8);
        buffer.push((self.additional_len % 0x100) as u8);
        proof {
            assert(buffer@ =~= spec_header_bytes(*self));
        }
        buffer
    }
}

/// The 14-bit target of the compression pointer whose two octets sit at
/// `buf[o]` and `buf[o + 1]` (the two high bits of `buf[o]` are `11`).
pub open spec fn ptr_target(buf: Seq<u8>, o: int) -> int
    recommends
        0 <= o,
        o + 2 <= buf.len(),
        buf[o] >= 0xc0,
{
    (buf[o] - 0xc0) * 0x100 + buf[o + 1]
}

/// One traversal state of name decoding: `o` is the octet to look at,
/// `budget` the pointer dereferences still allowed, `taken` whether a pointer
/// has been followed yet, `end` the top-level resume offset once one has, and
/// `acc` the name decoded so far. Literal labels are appended as decoded
/// UTF-8 with a `.` separator unless the following length octet is zero; a
/// pointer must aim strictly below its own offset and may be followed at most
/// `budget` times; a zero octet ends the name. The returned offset is the one
/// just past the first terminator or first pointer of the outermost
/// traversal.
pub open spec fn parse_name_at(
    buf: Seq<u8>,
    o: int,
    budget: int,
    taken: bool,
    end: int,
    acc: Seq<char>,
) -> Result<(Seq<char>, int), DnsSdError>
    decreases budget, buf.len() - o,
{
    if o < 0 || o >= buf.len() || budget < 0 {
        Err(DnsSdError::LabelInvalid)
    } else if buf[o] == 0 {
        Ok((acc, if taken { end } else { o + 1 }))
    } else if buf[o] < 0x40 {
        let label_len = buf[o] as int;
        if o + 1 + label_len >= buf.len() {
            Err(DnsSdError::LabelToLong)
        } else if label_len + 1 > MAX_LABEL_OCTETS {
            Err(DnsSdError::LabelToLong)
        } else {
            let chunk = buf.subrange(o + 1, o + 1 + label_len);
            if !valid_utf8(chunk) {
                Err(DnsSdError::InvalidUtf8)
            } else {
                let sep: Seq<char> = if buf[o + 1 + label_len] != 0 {
                    seq!['.']
                } else {
                    Seq::empty()
                };
                parse_name_at(buf, o + 1 + label_len, budget, taken, end, acc + decode_utf8(chunk) + sep)
            }
        }
    } else if buf[o] >= 0xc0 {
        if budget == 0 {
            Err(DnsSdError::LabelCompressionLoop)
        } else if o + 1 >= buf.len() {
            Err(DnsSdError::LabelInvalid)
        } else {
            let t = ptr_target(buf, o);
            if t >= o {
                Err(DnsSdError::LabelPtrForward)
            } else {
                parse_name_at(buf, t, budget - 1, true, if taken { end } else { o + 2 }, acc)
            }
        }
    } else {
        Err(DnsSdError::LabelInvalid)
    }
}

/// What decoding the name that starts at `start` yields: the dotted name and
/// the number of octets the record parsers advance past at top level.
pub open spec fn spec_label_to_string(buf: Seq<u8>, start: int) -> Result<
    (Seq<char>, int),
    DnsSdError,
> {
    parse_name_at(buf, start, MAX_COMPRESSION_POINTERS as int, false, start, Seq::empty())
}

/// Relates an executable name-decoding result to the specification-level one.
pub open spec fn name_result_matches(
    r: Result<(String, usize), DnsSdError>,
    s: Result<(Seq<char>, int), DnsSdError>,
) -> bool {
    match (r, s) {
        (Ok((name, end)), Ok((sname, send))) => name@ == sname && end as int == send,
        (Err(e1), Err(e2)) => e1 == e2,
        _ => false,
    }
}

/// The record types the decoder recognises. Types other than A, AAAA, SRV,
/// PTR and TXT are skipped by their data length; a type number outside this
/// list fails the whole packet.
#[derive(Debug)]
pub enum Type {
    A,
    NS,
    CNAME,
    SOA,
    PTR,
    MX,
    TXT,
    AAAA,
    SRV,
    OPT,
    NSEC,
    ANY,
}

/// The record type a wire type number stands for.
pub open spec fn spec_type_from(value: u16) -> Result<Type, DnsSdError> {
    if value == 1 {
        Ok(Type::A)
    } else if value == 2 {
        Ok(Type::NS)
    } else if value == 5 {
        Ok(Type::CNAME)
    } else if value == 6 {
        Ok(Type::SOA)
    } else if value == 12 {
        Ok(Type::PTR)
    } else if value == 15 {
        Ok(Type::MX)
    } else if value == 16 {
        Ok(Type::TXT)
    } else if value == 28 {
        Ok(Type::AAAA)
    } else if value == 33 {
        Ok(Type::SRV)
    } else if value == 41 {
        Ok(Type::OPT)
    } else if value == 47 {
        Ok(Type::NSEC)
    } else if value == 255 {
        Ok(Type::ANY)
    } else {
        Err(DnsSdError::InvalidMdnsType)
    }
}

impl Type {
    /// Map a wire type number to the record type it stands for.
    pub fn from(value: u16) -> (r: Result<Type, DnsSdError>)
        ensures
            r == spec_type_from(value),
    {
        match value {
            1 => Ok(Type::A),
            2 => Ok(Type::NS),
            5 => Ok(Type::CNAME),
            6 => Ok(Type::SOA),
            12 => Ok(Type::PTR),
            15 => Ok(Type::MX),
            16 => Ok(Type::TXT),
            28 => Ok(Type::AAAA),
            33 => Ok(Type::SRV),
            41 => Ok(Type::OPT),
            47 => Ok(Type::NSEC),
            255 => Ok(Type::ANY),
            _ => Err(DnsSdError::InvalidMdnsType),
        }
    }
}

/// The key=value strings of one TXT record: a walk over length-prefixed
/// chunks from `off` up to exactly `end`, each chunk required to be valid
/// UTF-8.
pub open spec fn spec_parse_txt(buf: Seq<u8>, off: int, end: int, acc: Seq<Seq<char>>) -> Result<
    Seq<Seq<char>>,
    DnsSdError,
>
    decreases end - off,
{
    if off >= end {
        Ok(acc)
    } else if off >= buf.len() {
        Err(DnsSdError::InvalidDnsSdResponse)
    } else {
        let txt_len = buf[off] as int;
        if off + 1 + txt_len > end {
            Err(DnsSdError::InvalidDnsSdResponse)
        } else if off + 1 + txt_len > buf.len() {
            Err(DnsSdError::InvalidDnsSdResponse)
        } else {
            let chunk = buf.subrange(off + 1, off + 1 + txt_len);
            if !valid_utf8(chunk) {
                Err(DnsSdError::InvalidUtf8)
            } else {
                spec_parse_txt(buf, off + 1 + txt_len, end, acc.push(decode_utf8(chunk)))
            }
        }
    }
}

/// What parsing one record at `o` yields: possibly a record (None for the
/// skipped types), and the offset of the next record.
pub open spec fn spec_parse_record(buf: Seq<u8>, o: int) -> Result<
    (Option<RecordModel>, int),
    DnsSdError,
> {
    match spec_label_to_string(buf, o) {
        Err(e) => Err(e),
        Ok((label, label_end)) => {
            if label_end + 2 > buf.len() {
                Err(DnsSdError::InvalidDnsSdResponse)
            } else {
                match spec_type_from(be16(buf, label_end)) {
                    Err(e) => Err(e),
                    Ok(answer_type) => {
                        if label_end + 10 > buf.len() {
                            Err(DnsSdError::InvalidDnsSdResponse)
                        } else {
                            let adl = be16(buf, label_end + 8) as int;
                            let o2 = label_end + 10;
                            spec_parse_record_data(buf, o2, answer_type, adl, label)
                        }
                    },
                }
            }
        },
    }
}

/// The data section of one record, after its name and 10-octet fixed header.
pub open spec fn spec_parse_record_data(
    buf: Seq<u8>,
    o2: int,
    answer_type: Type,
    adl: int,
    label: Seq<char>,
) -> Result<(Option<RecordModel>, int), DnsSdError> {
    match answer_type {
        Type::A => {
            if adl != 4 {
                Err(DnsSdError::InvalidDnsSdResponse)
            } else if o2 + 4 > buf.len() {
                Err(DnsSdError::InvalidDnsSdResponse)
            } else {
                Ok((Some(RecordModel::A { label, octets: buf.subrange(o2, o2 + 4) }), o2 + 4))
            }
        },
        Type::AAAA => {
            if adl != 16 {
                Err(DnsSdError::InvalidDnsSdResponse)
            } else if o2 + 16 > buf.len() {
                Err(DnsSdError::InvalidDnsSdResponse)
            } else {
                let groups = Seq::new(8, |i: int| be16(buf, o2 + 2 * i));
                Ok((Some(RecordModel::Aaaa { label, groups }), o2 + 16))
            }
        },
        Type::SRV => {
            if adl < 6 {
                Err(DnsSdError::InvalidDnsSdResponse)
            } else if o2 + 6 > buf.len() {
                Err(DnsSdError::InvalidDnsSdResponse)
            } else {
                let port = be16(buf, o2 + 4);
                match spec_label_to_string(buf, o2 + 6) {
                    Err(e) => Err(e),
                    Ok((service, service_end)) => Ok(
                        (Some(RecordModel::Srv { label, service, port }), service_end),
                    ),
                }
            }
        },
        Type::PTR => {
            match spec_label_to_string(buf, o2) {
                Err(e) => Err(e),
                Ok((service, service_end)) => Ok(
                    (Some(RecordModel::Ptr { label, service }), service_end),
                ),
            }
        },
        Type::TXT => {
            match spec_parse_txt(buf, o2, o2 + adl, Seq::empty()) {
                Err(e) => Err(e),
                Ok(records) => Ok((Some(RecordModel::Txt { label, records }), o2 + adl)),
            }
        },
        _ => Ok((None, o2 + adl)),
    }
}

/// Parse `n` records starting at `o`, keeping the recognised ones in order.
pub open spec fn spec_parse_records(buf: Seq<u8>, o: int, n: int, acc: Seq<RecordModel>) -> Result<
    (Seq<RecordModel>, int),
    DnsSdError,
>
    decreases n,
{
    if n <= 0 {
        Ok((acc, o))
    } else {
        match spec_parse_record(buf, o) {
            Err(e) => Err(e),
            Ok((rec, o2)) => spec_parse_records(buf, o2, n - 1, acc + opt_record_seq(rec)),
        }
    }
}

/// Skip the question section: `n` names, each followed by four octets of
/// QTYPE and QCLASS.
pub open spec fn spec_skip_questions(buf: Seq<u8>, o: int, n: int) -> Result<int, DnsSdError>
    decreases n,
{
    if n <= 0 {
        Ok(o)
    } else {
        match spec_label_to_string(buf, o) {
            Err(e) => Err(e),
            Ok((_name, label_end)) => spec_skip_questions(buf, label_end + 4, n - 1),
        }
    }
}

/// What decoding the whole packet `buf` yields: the header must carry the
/// response bit and announce at least one answer or additional record; the
/// question section is skipped; then every answer and additional record is
/// parsed, in order. Nothing outside `buf` exists: a name or record that
/// runs past the packet's end is a parse fault, never a read beyond it.
pub open spec fn spec_decode(buf: Seq<u8>) -> Result<Seq<RecordModel>, DnsSdError> {
    match spec_header_from(buf) {
        Err(e) => Err(e),
        Ok(header) => {
            if header.flags & 0x8000 != 0x8000 {
                Err(DnsSdError::NotDnsSdResponse)
            } else if header.answers_len == 0 && header.additional_len == 0 {
                Err(DnsSdError::NoAnswers)
            } else {
                match spec_skip_questions(buf, 12, header.queries_len as int) {
                    Err(e) => Err(e),
                    Ok(o) => {
                        match spec_parse_records(buf, o, header.answers_len as int, Seq::empty()) {
                            Err(e) => Err(e),
                            Ok((answers, o2)) => {
                                match spec_parse_records(
                                    buf,
                                    o2,
                                    header.additional_len as int,
                                    answers,
                                ) {
                                    Err(e) => Err(e),
                                    Ok((all, _)) => Ok(all),
                                }
                            },
                        }
                    },
                }
            }
        },
    }
}

/// The views of a decoded record list.
pub open spec fn records_view(s: Seq<DnsSdResponse>) -> Seq<RecordModel> {
    Seq::new(s.len(), |i: int| s[i]@)
}

/// The views of a list of strings.
pub open spec fn strings_view(s: Seq<String>) -> Seq<Seq<char>> {
    Seq::new(s.len(), |i: int| s[i]@)
}

impl DnsSdResponse {
    /// Decode the name that starts at `start_offset`, returning the dotted
    /// name and the offset just past the first terminator or first pointer
    /// of the outermost traversal.
    pub fn label_to_string(buffer: &[u8], start_offset: usize) -> (r: Result<
        (String, usize),
        DnsSdError,
    >)
        requires
            buffer@.len() + 0x200 <= usize::MAX,
        ensures
            name_result_matches(r, spec_label_to_string(buffer@, start_offset as int)),
            r matches Ok(p) ==> p.1 <= buffer@.len(),
    {
        if start_offset >= buffer.len() {
            return Err(DnsSdError::LabelInvalid);
        }
        let mut name = String::new();
        let mut offset: usize = start_offset;
        let mut ptr_budget: u8 = MAX_COMPRESSION_POINTERS;
        let mut ptr_taken: bool = false;
        let mut end_offset: usize = start_offset;

        loop
            invariant
                buffer@.len() + 0x200 <= usize::MAX,
                offset <= buffer@.len(),
                ptr_taken ==> end_offset <= buffer@.len(),
                spec_label_to_string(buffer@, start_offset as int) == parse_name_at(
                    buffer@,
                    offset as int,
                    ptr_budget as int,
                    ptr_taken,
                    end_offset as int,
                    name@,
                ),
            decreases ptr_budget, buffer@.len() - offset,
        {
            if offset >= buffer.len() {
                return Err(DnsSdError::LabelInvalid);
            }
            let b = buffer[offset];
            if b == 0 {
                let end = if ptr_taken {
                    end_offset
                } else {
                    offset + 1
                };
                return Ok((name, end));
            } else if b < 0x40 {
                let label_len = b as usize;
                if offset + 1 + label_len >= buffer.len() {
                    return Err(DnsSdError::LabelToLong);
                }
                if label_len + 1 > MAX_LABEL_OCTETS as usize {
                    return Err(DnsSdError::LabelToLong);
                }
                let chunk = slice_subrange(buffer, offset + 1, offset + 1 + label_len);
                match bytes_to_string(chunk) {
                    None => {
                        return Err(DnsSdError::InvalidUtf8);
                    },
                    Some(s) => {
                        proof {
                            encode_utf8_decode_utf8(s@);
                        }
                        name.append(s.as_str());
                    },
                }
                offset = offset + 1 + label_len;
                if buffer[offset] != 0 {
                    proof {
                        reveal_strlit(".");
                        assert("."@ =~= seq!['.']);
                    }
                    name.append(".");
                } else {
                    proof {
                        assert(name@ =~= name@ + Seq::<char>::empty());
                    }
                }
            } else if b >= 0xc0 {
                if ptr_budget == 0 {
                    return Err(DnsSdError::LabelCompressionLoop);
                }
                if offset + 1 >= buffer.len() {
                    return Err(DnsSdError::LabelInvalid);
                }
                let ptr: usize = (b - 0xc0) as usize * 0x100 + buffer[offset + 1] as usize;
                if ptr >= offset {
                    return Err(DnsSdError::LabelPtrForward);
                }
                ptr_budget = ptr_budget - 1;
                if !ptr_taken {
                    end_offset = offset + 2;
                    ptr_taken = true;
                }
                offset = ptr;
            } else {
                return Err(DnsSdError::LabelInvalid);
            }
        }
    }

    /// Parse one record at `offset`, pushing it onto `responses` if it is of
    /// a recognised kind, and return the offset of the next record.
    #[verifier::loop_isolation(false)]
    #[verifier::rlimit(60)]
    pub fn parse_record(buffer: &[u8], offset: usize, responses: &mut Vec<DnsSdResponse>) -> (r:
        Result<usize, DnsSdError>)
        requires
            buffer@.len() + 0x20000 <= usize::MAX,
        ensures
            match (r, spec_parse_record(buffer@, offset as int)) {
                (Ok(off), Ok((rec, o2))) => off as int == o2 && records_view(final(responses)@)
                    == records_view(old(responses)@) + opt_record_seq(rec),
                (Err(e1), Err(e2)) => e1 == e2 && final(responses)@ == old(responses)@,
                _ => false,
            },
    {
        let (label, label_end) = match Self::label_to_string(buffer, offset) {
            Ok(p) => p,
            Err(e) => {
                return Err(e);
            },
        };
        if label_end + 2 > buffer.len() {
            return Err(DnsSdError::InvalidDnsSdResponse);
        }
        let answer_type = match Type::from(
            buffer[label_end] as u16 * 0x100 + buffer[label_end + 1] as u16,
        ) {
            Ok(t) => t,
            Err(e) => {
                return Err(e);
            },
        };
        if label_end + 10 > buffer.len() {
            return Err(DnsSdError::InvalidDnsSdResponse);
        }
        let answer_data_len: u16 = buffer[label_end + 8] as u16 * 0x100 + buffer[label_end
            + 9] as u16;
        let mut offset = label_end + 10;

        match answer_type {
            Type::A => {
                if answer_data_len != 4 {
                    return Err(DnsSdError::InvalidDnsSdResponse);
                }
                if offset + 4 > buffer.len() {
                    return Err(DnsSdError::InvalidDnsSdResponse);
                }
                let address: [u8; 4] = [
                    buffer[offset],
                    buffer[offset + 1],
                    buffer[offset + 2],
                    buffer[offset + 3],
                ];
                offset = offset + 4;
                let rec = DnsSdResponse::AAnswer(AAnswer { label, address });
                proof {
                    assert(address@ =~= buffer@.subrange(offset - 4, offset as int));
                }
                responses.push(rec);
                proof {
                    assert(records_view(responses@) =~~= records_view(old(responses)@)
                        + opt_record_seq(Some(rec@)));
                }
                Ok(offset)
            },
            Type::AAAA => {
                if answer_data_len != 16 {
                    return Err(DnsSdError::InvalidDnsSdResponse);
                }
                if offset + 16 > buffer.len() {
                    return Err(DnsSdError::InvalidDnsSdResponse);
                }
                let address: [u16; 8] = [
                    buffer[offset] as u16 * 0x100 + buffer[offset + 1] as u16,
                    buffer[offset + 2] as u16 * 0x100 + buffer[offset + 3] as u16,
                    buffer[offset + 4] as u16 * 0x100 + buffer[offset + 5] as u16,
                    buffer[offset + 6] as u16 * 0x100 + buffer[offset + 7] as u16,
                    buffer[offset + 8] as u16 * 0x100 + buffer[offset + 9] as u16,
                    buffer[offset + 10] as u16 * 0x100 + buffer[offset + 11] as u16,
                    buffer[offset + 12] as u16 * 0x100 + buffer[offset + 13] as u16,
                    buffer[offset + 14] as u16 * 0x100 + buffer[offset + 15] as u16,
                ];
                offset = offset + 16;
                let rec = DnsSdResponse::AaaaAnswer(AaaaAnswer { label, address });
                proof {
                    assert(address@ =~= Seq::new(8, |i: int| be16(buffer@, offset - 16 + 2 * i)));
                }
                responses.push(rec);
                proof {
                    assert(records_view(responses@) =~~= records_view(old(responses)@)
                        + opt_record_seq(Some(rec@)));
                }
                Ok(offset)
            },
            Type::SRV => {
                if answer_data_len < 6 {
                    return Err(DnsSdError::InvalidDnsSdResponse);
                }
                if offset + 6 > buffer.len() {
                    return Err(DnsSdError::InvalidDnsSdResponse);
                }
                let port: u16 = buffer[offset + 4] as u16 * 0x100 + buffer[offset + 5] as u16;
                offset = offset + 6;
                let (service, service_end) = match Self::label_to_string(buffer, offset) {
                    Ok(p) => p,
                    Err(e) => {
                        return Err(e);
                    },
                };
                let rec = DnsSdResponse::SrvAnswer(SrvAnswer { label, service, port });
                responses.push(rec);
                proof {
                    assert(records_view(responses@) =~~= records_view(old(responses)@)
                        + opt_record_seq(Some(rec@)));
                }
                Ok(service_end)
            },
            Type::PTR => {
                let (service, service_end) = match Self::label_to_string(buffer, offset) {
                    Ok(p) => p,
                    Err(e) => {
                        return Err(e);
                    },
                };
                let rec = DnsSdResponse::PtrAnswer(PtrAnswer { label, service });
                responses.push(rec);
                proof {
                    assert(records_view(responses@) =~~= records_view(old(responses)@)
                        + opt_record_seq(Some(rec@)));
                }
                Ok(service_end)
            },
            Type::TXT => {
                let mut records: Vec<String> = Vec::new();
                let end = offset + answer_data_len as usize;
                let ghost txt_start = offset as int;
                proof {
                    assert(strings_view(records@) =~= Seq::<Seq<char>>::empty());
                }
                while offset < end
                    invariant
                        buffer@.len() + 0x20000 <= usize::MAX,
                        offset <= end,
                        end <= buffer@.len() + 0x10010,
                        spec_parse_txt(buffer@, offset as int, end as int, strings_view(records@))
                            == spec_parse_txt(
                            buffer@,
                            txt_start,
                            end as int,
                            Seq::<Seq<char>>::empty(),
                        ),
                    decreases end - offset,
                {
                    if offset >= buffer.len() {
                        return Err(DnsSdError::InvalidDnsSdResponse);
                    }
                    let txt_len = buffer[offset] as usize;
                    offset = offset + 1;
                    if offset + txt_len > end {
                        return Err(DnsSdError::InvalidDnsSdResponse);
                    }
                    if offset + txt_len > buffer.len() {
                        return Err(DnsSdError::InvalidDnsSdResponse);
                    }
                    let chunk = slice_subrange(buffer, offset, offset + txt_len);
                    match bytes_to_string(chunk) {
                        None => {
                            return Err(DnsSdError::InvalidUtf8);
                        },
                        Some(s) => {
                            proof {
                                encode_utf8_decode_utf8(s@);
                                assert(strings_view(records@.push(s)) =~= strings_view(
                                    records@,
                                ).push(decode_utf8(chunk@)));
                            }
                            records.push(s);
                        },
                    }
                    offset = offset + txt_len;
                }
                let rec = DnsSdResponse::TxtAnswer(TxtAnswer { label, records });
                responses.push(rec);
                proof {
                    assert(records_view(responses@) =~= records_view(old(responses)@).push(rec@));
                }
                Ok(offset)
            },
            _ => {
                // A record of a recognised but uninteresting type: skip its
                // data.
                offset = offset + answer_data_len as usize;
                Ok(offset)
            },
        }
    }
}

/// The empty or singleton record list one parse step contributes.
pub open spec fn opt_record_seq(rec: Option<RecordModel>) -> Seq<RecordModel> {
    match rec {
        Some(r) => seq![r],
        None => Seq::empty(),
    }
}

/// Labels as they may appear in a name the encoder emits and the decoder
/// reads back: each between one and 63 octets of valid UTF-8.
pub open spec fn wf_labels(labels: Seq<Seq<u8>>) -> bool {
    forall|k: int|
        0 <= k < labels.len() ==> 1 <= (#[trigger] labels[k]).len() <= 63 && valid_utf8(labels[k])
}

/// The wire form of an uncompressed name: each label length-prefixed, then a
/// zero octet.
pub open spec fn wire_name(labels: Seq<Seq<u8>>) -> Seq<u8>
    decreases labels.len(),
{
    if labels.len() == 0 {
        seq![0u8]
    } else {
        seq![labels[0].len() as u8] + labels[0] + wire_name(labels.drop_first())
    }
}

/// The dotted name the labels decode to.
pub open spec fn join_labels(labels: Seq<Seq<u8>>) -> Seq<char>
    decreases labels.len(),
{
    if labels.len() == 0 {
        Seq::empty()
    } else if labels.len() == 1 {
        decode_utf8(labels[0])
    } else {
        decode_utf8(labels[0]) + seq!['.'] + join_labels(labels.drop_first())
    }
}

/// A wire name is never empty.
pub proof fn lemma_wire_name_len(labels: Seq<Seq<u8>>)
    ensures
        wire_name(labels).len() >= 1,
    decreases labels.len(),
{
    if labels.len() > 0 {
        lemma_wire_name_len(labels.drop_first());
    }
}

impl DnsSdResponse {
    /// Decode the packet held in the first `count` octets of `buffer` into
    /// its recognised records, in wire order, folding the additional section
    /// into the answer stream. The octets past `count` play no part: the
    /// parsers see only the datagram itself.
    #[verifier::loop_isolation(false)]
    #[verifier::rlimit(60)]
    pub fn from(buffer: &[u8], count: usize) -> (r: Result<Vec<DnsSdResponse>, DnsSdError>)
        requires
            count <= buffer@.len(),
            count + 0x20000 <= usize::MAX,
        ensures
            match (r, spec_decode(buffer@.subrange(0, count as int))) {
                (Ok(v), Ok(s)) => records_view(v@) == s,
                (Err(e1), Err(e2)) => e1 == e2,
                _ => false,
            },
    {
        let packet = slice_subrange(buffer, 0, count);
        let mut responses: Vec<DnsSdResponse> = Vec::new();

        let header = match DnsSdHeader::from(packet, count) {
            Ok(h) => h,
            Err(e) => {
                proof {
                    assert(packet@.subrange(0, count as int) =~= packet@);
                }
                return Err(e);
            },
        };
        proof {
            assert(packet@.subrange(0, count as int) =~= packet@);
        }
        if header.flags & 0x8000 != 0x8000 {
            return Err(DnsSdError::NotDnsSdResponse);
        }
        if header.answers_len == 0 && header.additional_len == 0 {
            return Err(DnsSdError::NoAnswers);
        }

        let mut offset: usize = 12;

        // Walk the question section to find where the records start.
        let mut i: u16 = 0;
        while i < header.queries_len
            invariant
                i <= header.queries_len,
                offset <= packet@.len() + 4,
                spec_skip_questions(packet@, offset as int, header.queries_len - i)
                    == spec_skip_questions(packet@, 12, header.queries_len as int),
            decreases header.queries_len - i,
        {
            let (_label, label_end) = match Self::label_to_string(packet, offset) {
                Ok(p) => p,
                Err(e) => {
                    return Err(e);
                },
            };
            offset = label_end + 4;
            i = i + 1;
        }

        let ghost records_start = offset as int;
        proof {
            assert(records_view(responses@) =~= Seq::<RecordModel>::empty());
        }

        let mut j: u16 = 0;
        while j < header.answers_len
            invariant
                j <= header.answers_len,
                spec_parse_records(
                    packet@,
                    offset as int,
                    header.answers_len - j,
                    records_view(responses@),
                ) == spec_parse_records(
                    packet@,
                    records_start,
                    header.answers_len as int,
                    Seq::<RecordModel>::empty(),
                ),
            decreases header.answers_len - j,
        {
            offset = match Self::parse_record(packet, offset, &mut responses) {
                Ok(o) => o,
                Err(e) => {
                    return Err(e);
                },
            };
            j = j + 1;
        }

        let ghost additional_start = offset as int;
        let ghost answer_records = records_view(responses@);

        let mut k: u16 = 0;
        while k < header.additional_len
            invariant
                k <= header.additional_len,
                spec_parse_records(
                    packet@,
                    offset as int,
                    header.additional_len - k,
                    records_view(responses@),
                ) == spec_parse_records(
                    packet@,
                    additional_start,
                    header.additional_len as int,
                    answer_records,
                ),
            decreases header.additional_len - k,
        {
            offset = match Self::parse_record(packet, offset, &mut responses) {
                Ok(o) => o,
                Err(e) => {
                    return Err(e);
                },
            };
            k = k + 1;
        }

        Ok(responses)
    }
}

/// In any state of the name traversal, a compression pointer whose 14-bit
/// target is at or past the pointer's own offset is rejected as
/// `LabelPtrForward`. The traversal states range over every offset the
/// decoder can reach, so no buffer holding such a pointer on the decoding
/// path ever yields a name.
pub proof fn lemma_forward_pointer_rejected(
    buf: Seq<u8>,
    o: int,
    budget: int,
    taken: bool,
    end: int,
    acc: Seq<char>,
)
    requires
        0 <= o,
        o + 1 < buf.len(),
        buf[o] >= 0xc0,
        budget > 0,
        ptr_target(buf, o) >= o,
    ensures
        parse_name_at(buf, o, budget, taken, end, acc) == Err::<(Seq<char>, int), DnsSdError>(
            DnsSdError::LabelPtrForward,
        ),
{
}

/// The top-level form: a name that begins with a forward (or self-referring)
/// compression pointer does not decode.
pub proof fn lemma_label_forward_pointer(buf: Seq<u8>, start: int)
    requires
        0 <= start,
        start + 1 < buf.len(),
        buf[start] >= 0xc0,
        ptr_target(buf, start) >= start,
    ensures
        spec_label_to_string(buf, start) == Err::<(Seq<char>, int), DnsSdError>(
            DnsSdError::LabelPtrForward,
        ),
{
}

/// `k` consecutive compression pointers from `o`, each aiming strictly below
/// its own offset.
pub open spec fn pointer_chain(buf: Seq<u8>, o: int, k: int) -> bool
    decreases k,
{
    k <= 0 || (0 <= o && o + 1 < buf.len() && buf[o] >= 0xc0 && ptr_target(buf, o) < o
        && pointer_chain(buf, ptr_target(buf, o), k - 1))
}

/// A traversal granted `budget` pointer dereferences rejects any name that
/// starts with a chain of `budget + 1` pointers as `LabelCompressionLoop`.
pub proof fn lemma_pointer_budget_exhausted(
    buf: Seq<u8>,
    o: int,
    budget: int,
    taken: bool,
    end: int,
    acc: Seq<char>,
)
    requires
        budget >= 0,
        pointer_chain(buf, o, budget + 1),
    ensures
        parse_name_at(buf, o, budget, taken, end, acc) == Err::<(Seq<char>, int), DnsSdError>(
            DnsSdError::LabelCompressionLoop,
        ),
    decreases budget,
{
    if budget > 0 {
        lemma_pointer_budget_exhausted(
            buf,
            ptr_target(buf, o),
            budget - 1,
            true,
            if taken {
                end
            } else {
                o + 2
            },
            acc,
        );
    }
}

/// Decoding a name dereferences at most 126 compression pointers: a buffer
/// whose name is a chain of 127 backward pointers is rejected as
/// `LabelCompressionLoop`, whatever lies at the end of the chain.
pub proof fn lemma_compression_loop_rejected(buf: Seq<u8>, start: int)
    requires
        pointer_chain(buf, start, MAX_COMPRESSION_POINTERS + 1),
    ensures
        spec_label_to_string(buf, start) == Err::<(Seq<char>, int), DnsSdError>(
            DnsSdError::LabelCompressionLoop,
        ),
{
    lemma_pointer_budget_exhausted(
        buf,
        start,
        MAX_COMPRESSION_POINTERS as int,
        false,
        start,
        Seq::empty(),
    );
}

/// A TXT string that is not valid UTF-8 fails the record walk with
/// `InvalidUtf8`, in whatever walk state it is reached; the decoder then
/// fails the whole packet with that error, and a receiver drops it with the
/// registry untouched.
pub proof fn lemma_invalid_txt_rejected(buf: Seq<u8>, off: int, end: int, acc: Seq<Seq<char>>)
    requires
        0 <= off < buf.len(),
        off < end,
        off + 1 + buf[off] <= end,
        off + 1 + buf[off] <= buf.len(),
        !valid_utf8(buf.subrange(off + 1, off + 1 + buf[off])),
    ensures
        spec_parse_txt(buf, off, end, acc) == Err::<Seq<Seq<char>>, DnsSdError>(
            DnsSdError::InvalidUtf8,
        ),
{
}

/// The header every query carries: a single question, nothing else.
pub open spec fn spec_query_header() -> DnsSdHeader {
    DnsSdHeader {
        id: 0,
        flags: 0,
        queries_len: 1,
        answers_len: 0,
        authorities_len: 0,
        additional_len: 0,
    }
}

/// The pieces of `b` between occurrences of `.` (0x2e), scanning from `i`
/// with the current piece starting at `start`.
pub open spec fn split_from(b: Seq<u8>, start: int, i: int) -> Seq<Seq<u8>>
    decreases b.len() - i,
{
    if start < 0 || i < start || i > b.len() {
        Seq::empty()
    } else if i == b.len() {
        seq![b.subrange(start, i)]
    } else if b[i] == 0x2e {
        seq![b.subrange(start, i)] + split_from(b, i + 1, i + 1)
    } else {
        split_from(b, start, i + 1)
    }
}

/// The pieces of `b` between occurrences of `.` (0x2e).
pub open spec fn split_on_dot(b: Seq<u8>) -> Seq<Seq<u8>> {
    split_from(b, 0, 0)
}

/// The wire encoding of a label list: each label length-prefixed, a label
/// longer than the cap refused.
pub open spec fn spec_wire_labels(labels: Seq<Seq<u8>>) -> Result<Seq<u8>, DnsSdError>
    decreases labels.len(),
{
    if labels.len() == 0 {
        Ok(Seq::empty())
    } else if labels[0].len() > MAX_LABEL_OCTETS {
        Err(DnsSdError::LabelToLong)
    } else {
        match spec_wire_labels(labels.drop_first()) {
            Err(e) => Err(e),
            Ok(rest) => Ok(seq![labels[0].len() as u8] + labels[0] + rest),
        }
    }
}

/// What encoding a query for `service` yields: the query header, the
/// dot-separated labels of the name length-prefixed and zero-terminated,
/// then QTYPE `ANY` and QCLASS `IN` with the unicast-response bit. An empty
/// name is refused.
pub open spec fn spec_new_query(service: Seq<char>) -> Result<Seq<u8>, DnsSdError> {
    let bytes = encode_utf8(service);
    if bytes.len() == 0 {
        Err(DnsSdError::LabelInvalid)
    } else {
        match spec_wire_labels(split_on_dot(bytes)) {
            Err(e) => Err(e),
            Ok(ls) => Ok(
                spec_header_bytes(spec_query_header()) + ls + seq![
                    0u8,
                    0x00u8,
                    0xffu8,
                    0x80u8,
                    0x01u8,
                ],
            ),
        }
    }
}

/// Encode a query asking for every record type of `service`, as
/// `spec_new_query` lays it out.
#[verifier::loop_isolation(false)]
pub fn new_query(service: &str) -> (r: Result<Vec<u8>, DnsSdError>)
    ensures
        match (r, spec_new_query(service@)) {
            (Ok(v), Ok(s)) => v@ == s,
            (Err(e1), Err(e2)) => e1 == e2,
            _ => false,
        },
{
    let bytes = service.as_bytes();
    if bytes.len() == 0 {
        return Err(DnsSdError::LabelInvalid);
    }

    let header = DnsSdHeader {
        id: 0,
        flags: 0x0000,
        queries_len: 1,
        answers_len: 0,
        authorities_len: 0,
        additional_len: 0,
    };
    let mut buffer: Vec<u8> = header.to_bytes();

    let ghost hdr = spec_header_bytes(spec_query_header());
    let mut start: usize = 0;
    let mut i: usize = 0;
    while i < bytes.len()
        invariant
            start <= i <= bytes@.len(),
            spec_new_query(service@) == (match spec_wire_labels(split_from(bytes@, start as int, i as int)) {
                Err(e) => Err::<Seq<u8>, DnsSdError>(e),
                Ok(rest) => Ok(
                    buffer@ + rest + seq![0u8, 0x00u8, 0xffu8, 0x80u8, 0x01u8],
                ),
            }),
        decreases bytes@.len() - i,
    {
        if bytes[i] == 0x2e {
            if i - start > MAX_LABEL_OCTETS as usize {
                return Err(DnsSdError::LabelToLong);
            }
            let ghost buf0 = buffer@;
            buffer.push((i - start) as u8);
            let piece = slice_subrange(bytes, start, i);
            buffer.extend_from_slice(piece);
            proof {
                let p = bytes@.subrange(start as int, i as int);
                let rest = split_from(bytes@, i + 1, i + 1);
                assert((seq![p] + rest)[0] == p);
                assert((seq![p] + rest).drop_first() =~= rest);
                match spec_wire_labels(rest) {
                    Err(_) => {},
                    Ok(r2) => {
                        assert(buffer@ + r2 + seq![0u8, 0x00u8, 0xffu8, 0x80u8, 0x01u8] =~= buf0
                            + (seq![p.len() as u8] + p + r2) + seq![
                            0u8,
                            0x00u8,
                            0xffu8,
                            0x80u8,
                            0x01u8,
                        ]);
                    },
                }
            }
            start = i + 1;
        }
        i = i + 1;
    }
    if i - start > MAX_LABEL_OCTETS as usize {
        return Err(DnsSdError::LabelToLong);
    }
    buffer.push((i - start) as u8);
    let piece = slice_subrange(bytes, start, i);
    buffer.extend_from_slice(piece);
    proof {
        let p = bytes@.subrange(start as int, i as int);
        assert(p.len() <= MAX_LABEL_OCTETS);
        assert(seq![p][0] == p);
        assert(seq![p].drop_first() =~= Seq::<Seq<u8>>::empty());
        assert(spec_wire_labels(Seq::<Seq<u8>>::empty()) == Ok::<Seq<u8>, DnsSdError>(
            Seq::<u8>::empty(),
        ));
        assert(spec_wire_labels(seq![p]) == Ok::<Seq<u8>, DnsSdError>(
            seq![p.len() as u8] + p + Seq::<u8>::empty(),
        ));
    }

    buffer.push(0x00);
    buffer.push(0x00);
    buffer.push(0xff);
    buffer.push(0x80);
    buffer.push(0x01);

    proof {
        assert(buffer@ =~= spec_new_query(service@)->Ok_0);
    }
    Ok(buffer)
}

/// Decoding inverts name encoding: wherever a buffer carries the wire form
/// of well-formed labels, the traversal from there succeeds, yields the
/// dotted name of exactly those labels appended to what was read so far, and
/// consumes exactly the wire name — whatever pointer budget remains and
/// whether or not a pointer led here.
pub proof fn lemma_name_round_trip(
    buf: Seq<u8>,
    o: int,
    labels: Seq<Seq<u8>>,
    budget: int,
    taken: bool,
    end: int,
    acc: Seq<char>,
)
    requires
        wf_labels(labels),
        0 <= o,
        budget >= 0,
        o + wire_name(labels).len() <= buf.len(),
        buf.subrange(o, o + wire_name(labels).len() as int) == wire_name(labels),
    ensures
        parse_name_at(buf, o, budget, taken, end, acc) == Ok::<(Seq<char>, int), DnsSdError>(
            (
                acc + join_labels(labels),
                if taken {
                    end
                } else {
                    o + wire_name(labels).len()
                },
            ),
        ),
    decreases labels.len(),
{
    let wn = wire_name(labels);
    assert forall|k: int| 0 <= k < wn.len() implies buf[o + k] == wn[k] by {
        assert(buf.subrange(o, o + wn.len() as int)[k] == buf[o + k]);
    }
    if labels.len() == 0 {
        assert(buf[o + 0] == wn[0]);
        assert(buf[o] == 0);
        assert(acc + join_labels(labels) =~= acc);
    } else {
        let l0 = labels[0];
        let rest = labels.drop_first();
        let len0 = l0.len() as int;
        lemma_wire_name_len(rest);
        assert(wn == seq![l0.len() as u8] + l0 + wire_name(rest));
        assert(wn.len() == 1 + len0 + wire_name(rest).len());
        assert(1 <= len0 <= 63);
        assert(wn[0] == l0.len() as u8);
        assert(buf[o + 0] == wn[0]);
        assert(buf[o] == l0.len() as u8);
        assert(buf[o] != 0 && buf[o] < 0x40);
        assert(o + 1 + len0 < buf.len());
        assert(buf.subrange(o + 1, o + 1 + len0) =~= l0) by {
            assert forall|k: int| 0 <= k < len0 implies buf.subrange(o + 1, o + 1 + len0)[k]
                == l0[k] by {
                assert(buf[o + 1 + k] == wn[1 + k]);
                assert(wn[1 + k] == l0[k]);
            }
        }
        assert(valid_utf8(buf.subrange(o + 1, o + 1 + len0)));
        assert(wf_labels(rest)) by {
            assert forall|k: int|
                0 <= k < rest.len() implies 1 <= (#[trigger] rest[k]).len() <= 63 && valid_utf8(
                rest[k],
            ) by {
                assert(rest[k] == labels[k + 1]);
            }
        }
        let o2 = o + 1 + len0;
        assert(buf.subrange(o2, o2 + wire_name(rest).len() as int) =~= wire_name(rest)) by {
            assert forall|k: int|
                0 <= k < wire_name(rest).len() implies buf.subrange(
                o2,
                o2 + wire_name(rest).len() as int,
            )[k] == wire_name(rest)[k] by {
                assert(buf[o2 + k] == wn[1 + len0 + k]);
                assert(wn[1 + len0 + k] == wire_name(rest)[k]);
            }
        }
        let sep: Seq<char> = if buf[o2] != 0 {
            seq!['.']
        } else {
            Seq::empty()
        };
        lemma_name_round_trip(
            buf,
            o2,
            rest,
            budget,
            taken,
            end,
            acc + decode_utf8(buf.subrange(o + 1, o + 1 + len0)) + sep,
        );
        if rest.len() == 0 {
            assert(wire_name(rest) == seq![0u8]);
            assert(buf[o + (1 + len0)] == wn[1 + len0]);
            assert(wn[1 + len0] == wire_name(rest)[0]);
            assert(buf[o2] == 0);
            assert(sep =~= Seq::<char>::empty());
            assert(join_labels(labels) == decode_utf8(l0));
            assert(acc + decode_utf8(l0) + sep + join_labels(rest) =~= acc + join_labels(labels));
        } else {
            assert(wire_name(rest)[0] == rest[0].len() as u8);
            assert(1 <= rest[0].len() <= 63);
            assert(buf[o + (1 + len0)] == wn[1 + len0]);
            assert(wn[1 + len0] == wire_name(rest)[0]);
            assert(buf[o2] == rest[0].len() as u8);
            assert(buf[o2] != 0);
            assert(sep =~= seq!['.']);
            assert(join_labels(labels) == decode_utf8(l0) + seq!['.'] + join_labels(rest));
            assert(acc + decode_utf8(l0) + sep + join_labels(rest) =~= acc + join_labels(labels));
        }
    }
}

/// Splitting always yields at least one piece.
pub proof fn lemma_split_from_len(b: Seq<u8>, start: int, i: int)
    requires
        0 <= start <= i <= b.len(),
    ensures
        split_from(b, start, i).len() >= 1,
    decreases b.len() - i,
{
    if i < b.len() && b[i] != 0x2e {
        lemma_split_from_len(b, start, i + 1);
    }
}

/// Splitting valid UTF-8 on the dots and decoding each piece, dots between,
/// reads back the decoding of the whole: the dot octet only ever encodes the
/// dot character, so the pieces are valid and joining them loses nothing.
pub proof fn lemma_split_decode(b: Seq<u8>, start: int, i: int)
    requires
        0 <= start <= i <= b.len(),
        valid_utf8(b.subrange(start, b.len() as int)),
    ensures
        join_labels(split_from(b, start, i)) == decode_utf8(b.subrange(start, b.len() as int)),
        forall|k: int|
            0 <= k < split_from(b, start, i).len() ==> valid_utf8(
                #[trigger] split_from(b, start, i)[k],
            ),
    decreases b.len() - i,
{
    let s = b.subrange(start, b.len() as int);
    if i == b.len() {
        assert(split_from(b, start, i) == seq![b.subrange(start, i)]);
        assert(b.subrange(start, i) =~= s);
        if split_from(b, start, i).len() == 1 {
            assert(join_labels(split_from(b, start, i)) == decode_utf8(s));
        }
        assert forall|k: int|
            0 <= k < split_from(b, start, i).len() implies valid_utf8(
            #[trigger] split_from(b, start, i)[k],
        ) by {
            assert(split_from(b, start, i)[k] == s);
        }
    } else if b[i] == 0x2e {
        let q = i - start;
        let p = b.subrange(start, i);
        assert(s[q] == b[i]);
        assert(!is_continuation_byte(s[q]));
        is_char_boundary_iff_not_is_continuation_byte(s, q);
        valid_utf8_split(s, q);
        decode_utf8_split(s, q);
        assert(s.subrange(0, q) =~= p);
        let s2 = s.subrange(q, s.len() as int);
        assert(s2 =~= b.subrange(i, b.len() as int));
        assert(s2.len() > 0);
        assert(s2[0] == 0x2e);
        assert(is_leading_byte_width_1(s2[0]));
        assert(valid_first_scalar(s2));
        assert(length_of_first_scalar(s2) == 1);
        assert(pop_first_scalar(s2) =~= b.subrange(i + 1, b.len() as int));
        assert(decode_first_scalar(s2) == codepoint_width_1(s2[0]));
        assert(codepoint_width_1(0x2eu8) == 0x2eu32) by (bit_vector);
        assert('.' as u32 == 0x2e);
        char_u32_cast('.', 0x2e);
        assert(decode_first_scalar(s2) as char == '.');
        assert(decode_utf8(s2) == seq!['.'] + decode_utf8(b.subrange(i + 1, b.len() as int)));
        lemma_split_decode(b, i + 1, i + 1);
        lemma_split_from_len(b, i + 1, i + 1);
        let restsplit = split_from(b, i + 1, i + 1);
        assert(split_from(b, start, i) == seq![p] + restsplit);
        assert((seq![p] + restsplit)[0] == p);
        assert((seq![p] + restsplit).drop_first() =~= restsplit);
        assert((seq![p] + restsplit).len() >= 2);
        assert(join_labels(seq![p] + restsplit) == decode_utf8(p) + seq!['.'] + join_labels(
            restsplit,
        ));
        assert(decode_utf8(s) =~= decode_utf8(p) + (seq!['.'] + decode_utf8(
            b.subrange(i + 1, b.len() as int),
        )));
        assert(decode_utf8(p) + seq!['.'] + join_labels(restsplit) =~= decode_utf8(p) + (
        seq!['.'] + decode_utf8(b.subrange(i + 1, b.len() as int))));
        assert forall|k: int|
            0 <= k < split_from(b, start, i).len() implies valid_utf8(
            #[trigger] split_from(b, start, i)[k],
        ) by {
            if k == 0 {
                assert(split_from(b, start, i)[k] == p);
            } else {
                assert(split_from(b, start, i)[k] == restsplit[k - 1]);
            }
        }
    } else {
        lemma_split_decode(b, start, i + 1);
    }
}

/// When every label fits the cap, the wire label encoding succeeds, and
/// together with the terminating zero octet it is exactly the wire name.
pub proof fn lemma_wire_labels_ok(labels: Seq<Seq<u8>>)
    requires
        forall|k: int| 0 <= k < labels.len() ==> (#[trigger] labels[k]).len() <= 255,
    ensures
        spec_wire_labels(labels) is Ok,
        wire_name(labels) == spec_wire_labels(labels)->Ok_0 + seq![0u8],
    decreases labels.len(),
{
    if labels.len() == 0 {
        assert(wire_name(labels) =~= spec_wire_labels(labels)->Ok_0 + seq![0u8]);
    } else {
        assert forall|k: int|
            0 <= k < labels.drop_first().len() implies (#[trigger] labels.drop_first()[k]).len()
            <= 255 by {
            assert(labels.drop_first()[k] == labels[k + 1]);
        }
        lemma_wire_labels_ok(labels.drop_first());
        assert(wire_name(labels) =~= spec_wire_labels(labels)->Ok_0 + seq![0u8]);
    }
}

/// The encoder–decoder round trip: decoding the name section of any query
/// the encoder emits yields back exactly the service name asked about, and
/// consumes the whole name. The caveats are those of the wire format itself:
/// each dot-separated piece of the name must be one to 63 octets long, since
/// longer or empty pieces have no faithful uncompressed wire form. The
/// header and the trailing QTYPE and QCLASS octets of the query are fixed
/// and stated byte for byte by `spec_new_query`.
pub proof fn lemma_query_round_trip(service: Seq<char>)
    requires
        encode_utf8(service).len() > 0,
        forall|k: int|
            0 <= k < split_on_dot(encode_utf8(service)).len() ==> 1 <= (#[trigger] split_on_dot(
                encode_utf8(service),
            )[k]).len() <= 63,
    ensures
        spec_new_query(service) is Ok,
        spec_label_to_string(spec_new_query(service)->Ok_0, 12) == Ok::<
            (Seq<char>, int),
            DnsSdError,
        >((service, 12 + wire_name(split_on_dot(encode_utf8(service))).len() as int)),
{
    let bytes = encode_utf8(service);
    let labels = split_on_dot(bytes);
    encode_utf8_valid_utf8(service);
    assert(bytes.subrange(0, bytes.len() as int) =~= bytes);
    lemma_split_decode(bytes, 0, 0);
    assert(join_labels(labels) == decode_utf8(bytes));
    encode_utf8_decode_utf8(service);
    assert(join_labels(labels) == service);
    assert(wf_labels(labels));
    lemma_wire_labels_ok(labels);
    let ls = spec_wire_labels(labels)->Ok_0;
    let q = spec_new_query(service)->Ok_0;
    assert(q == spec_header_bytes(spec_query_header()) + ls + seq![
        0u8,
        0x00u8,
        0xffu8,
        0x80u8,
        0x01u8,
    ]);
    let wn = wire_name(labels);
    assert(wn.len() == ls.len() + 1);
    assert(q.len() == 12 + ls.len() + 5);
    assert(q.subrange(12, 12 + wn.len() as int) =~= wn) by {
        assert forall|k: int| 0 <= k < wn.len() implies q.subrange(12, 12 + wn.len() as int)[k]
            == wn[k] by {
            assert(spec_header_bytes(spec_query_header()).len() == 12);
            if k < ls.len() {
                assert(q[12 + k] == ls[k]);
                assert(wn[k] == (ls + seq![0u8])[k]);
            } else {
                assert(q[12 + k] == 0u8);
                assert(wn[k] == (ls + seq![0u8])[k]);
            }
        }
    }
    lemma_name_round_trip(q, 12, labels, MAX_COMPRESSION_POINTERS as int, false, 12, Seq::empty());
    assert(Seq::<char>::empty() + join_labels(labels) =~= service);
}

} // verus!
