//! The per-packet half of the receiver: decode a datagram and file its
//! records in the registry under every wanted name they concern. The
//! blocking socket loop around this sits outside the library and hands each
//! received packet here unchanged.

use vstd::prelude::*;

use crate::discovery_handler::DiscoveryHandler;
use crate::dns::{
    record_label, records_view, spec_decode, strings_view, AAnswer, AaaaAnswer, DnsSdResponse,
    PtrAnswer, RecordModel, SrvAnswer, TxtAnswer,
};

verus! {

/// True when `records[k]` is a PTR or SRV record whose label is the wanted
/// name `n` and whose service field names something other than `n`.
pub open spec fn link_at(records: Seq<RecordModel>, n: Seq<char>, k: int) -> bool {
    match records[k] {
        RecordModel::Ptr { label, service } => label == n && service != n,
        RecordModel::Srv { label, service, .. } => label == n && service != n,
        _ => false,
    }
}

/// The service field of a PTR or SRV record; empty for the other kinds.
pub open spec fn service_of(r: RecordModel) -> Seq<char> {
    match r {
        RecordModel::Ptr { service, .. } => service,
        RecordModel::Srv { service, .. } => service,
        _ => Seq::empty(),
    }
}

/// True when some PTR or SRV record of the packet ties the wanted name `n`
/// to `lbl`: its label is `n`, its service field is `lbl`, and the two
/// differ.
pub open spec fn record_links(records: Seq<RecordModel>, n: Seq<char>, lbl: Seq<char>) -> bool {
    exists|j: int| 0 <= j < records.len() && #[trigger] link_at(records, n, j) && service_of(records[j]) == lbl
}

/// True when some record of the packet carries `s` as its label.
pub open spec fn has_target(records: Seq<RecordModel>, s: Seq<char>) -> bool {
    exists|t: int| 0 <= t < records.len() && #[trigger] record_label(records[t]) == s
}

/// True when the packet concerns the name `n`: some record is filed directly
/// under `n`, or under a hostname or instance name that a PTR or SRV record
/// of the same packet ties to `n`.
pub open spec fn name_matches(records: Seq<RecordModel>, n: Seq<char>) -> bool {
    exists|i: int|
        0 <= i < records.len() && (#[trigger] record_label(records[i]) == n || record_links(
            records,
            n,
            record_label(records[i]),
        ))
}

/// True when processing a packet with these records files them under `n`.
pub open spec fn appended_under(h: DiscoveryHandler, records: Seq<RecordModel>, n: Seq<char>) -> bool {
    h.wanted().contains(n) && name_matches(records, n)
}

/// The label a record is filed under.
fn answer_label(r: &DnsSdResponse) -> (l: &String)
    ensures
        l@ == record_label(r@),
{
    match r {
        DnsSdResponse::PtrAnswer(a) => &a.label,
        DnsSdResponse::SrvAnswer(a) => &a.label,
        DnsSdResponse::TxtAnswer(a) => &a.label,
        DnsSdResponse::AAnswer(a) => &a.label,
        DnsSdResponse::AaaaAnswer(a) => &a.label,
    }
}

/// A value copy of a string list.
#[verifier::loop_isolation(false)]
fn copy_strings(v: &Vec<String>) -> (r: Vec<String>)
    ensures
        strings_view(r@) == strings_view(v@),
{
    let mut out: Vec<String> = Vec::new();
    let mut i: usize = 0;
    while i < v.len()
        invariant
            i <= v@.len(),
            strings_view(out@) =~= strings_view(v@).take(i as int),
        decreases v@.len() - i,
    {
        out.push(v[i].clone());
        proof {
            assert(strings_view(out@) =~= strings_view(v@).take(i + 1));
        }
        i = i + 1;
    }
    proof {
        assert(strings_view(out@) =~= strings_view(v@));
    }
    out
}

/// A value copy of one record.
fn copy_record(r: &DnsSdResponse) -> (c: DnsSdResponse)
    ensures
        c@ == r@,
{
    let c = match r {
        DnsSdResponse::PtrAnswer(a) => DnsSdResponse::PtrAnswer(
            PtrAnswer { label: a.label.clone(), service: a.service.clone() },
        ),
        DnsSdResponse::SrvAnswer(a) => DnsSdResponse::SrvAnswer(
            SrvAnswer { label: a.label.clone(), service: a.service.clone(), port: a.port },
        ),
        DnsSdResponse::TxtAnswer(a) => DnsSdResponse::TxtAnswer(
            TxtAnswer { label: a.label.clone(), records: copy_strings(&a.records) },
        ),
        DnsSdResponse::AAnswer(a) => DnsSdResponse::AAnswer(
            AAnswer { label: a.label.clone(), address: a.address },
        ),
        DnsSdResponse::AaaaAnswer(a) => DnsSdResponse::AaaaAnswer(
            AaaaAnswer { label: a.label.clone(), address: a.address },
        ),
    };
    proof {
        assert(c@ =~~= r@);
    }
    c
}

/// A value copy of a record list.
#[verifier::loop_isolation(false)]
fn copy_records(v: &Vec<DnsSdResponse>) -> (r: Vec<DnsSdResponse>)
    ensures
        records_view(r@) == records_view(v@),
{
    let mut out: Vec<DnsSdResponse> = Vec::new();
    let mut i: usize = 0;
    while i < v.len()
        invariant
            i <= v@.len(),
            records_view(out@) =~= records_view(v@).take(i as int),
        decreases v@.len() - i,
    {
        out.push(copy_record(&v[i]));
        proof {
            assert(records_view(out@) =~= records_view(v@).take(i + 1));
        }
        i = i + 1;
    }
    proof {
        assert(records_view(out@) =~= records_view(v@));
    }
    out
}

/// Whether the packet's records concern `name`, by the direct or the
/// PTR/SRV-indirect path.
#[verifier::loop_isolation(false)]
fn matches_name(records: &Vec<DnsSdResponse>, name: &String) -> (r: bool)
    ensures
        r == name_matches(records_view(records@), name@),
{
    let ghost m = records_view(records@);

    let mut i: usize = 0;
    while i < records.len()
        invariant
            i <= m.len(),
            forall|k: int| 0 <= k < i ==> #[trigger] record_label(m[k]) != name@,
        decreases m.len() - i,
    {
        proof {
            assert(m[i as int] == records@[i as int]@);
        }
        if *answer_label(&records[i]) == *name {
            proof {
                assert(record_label(m[i as int]) == name@);
            }
            return true;
        }
        i = i + 1;
    }

    let mut j: usize = 0;
    while j < records.len()
        invariant
            j <= m.len(),
            forall|k: int|
                0 <= k < j && #[trigger] link_at(m, name@, k) ==> !has_target(
                    m,
                    service_of(m[k]),
                ),
        decreases m.len() - j,
    {
        proof {
            assert(m[j as int] == records@[j as int]@);
        }
        let service: &String = match &records[j] {
            DnsSdResponse::PtrAnswer(p) => {
                if p.label == *name && !(p.service == *name) {
                    &p.service
                } else {
                    proof {
                        assert(!link_at(m, name@, j as int));
                    }
                    j = j + 1;
                    continue ;
                }
            },
            DnsSdResponse::SrvAnswer(s) => {
                if s.label == *name && !(s.service == *name) {
                    &s.service
                } else {
                    proof {
                        assert(!link_at(m, name@, j as int));
                    }
                    j = j + 1;
                    continue ;
                }
            },
            _ => {
                proof {
                    assert(!link_at(m, name@, j as int));
                }
                j = j + 1;
                continue ;
            },
        };
        if any_label_equals(records, service) {
            proof {
                assert(link_at(m, name@, j as int));
                let t = choose|t: int| 0 <= t < m.len() && #[trigger] record_label(m[t])
                    == service@;
                assert(record_links(m, name@, record_label(m[t])));
                assert(name_matches(m, name@));
            }
            return true;
        }
        j = j + 1;
    }

    proof {
        assert forall|i2: int| 0 <= i2 < m.len() implies !(record_label(m[i2]) == name@
            || record_links(m, name@, record_label(m[i2]))) by {
            if record_links(m, name@, record_label(m[i2])) {
                let jw = choose|jw: int|
                    0 <= jw < m.len() && #[trigger] link_at(m, name@, jw) && service_of(m[jw])
                        == record_label(m[i2]);
                assert(!has_target(m, service_of(m[jw])));
                assert(record_label(m[i2]) == service_of(m[jw]));
            }
        }
    }
    false
}

/// True when some record of the packet carries `target` as its label.
#[verifier::loop_isolation(false)]
fn any_label_equals(records: &Vec<DnsSdResponse>, target: &String) -> (r: bool)
    ensures
        r == has_target(records_view(records@), target@),
{
    let ghost m = records_view(records@);
    let mut t: usize = 0;
    while t < records.len()
        invariant
            t <= m.len(),
            forall|k: int| 0 <= k < t ==> #[trigger] record_label(m[k]) != target@,
        decreases m.len() - t,
    {
        proof {
            assert(m[t as int] == records@[t as int]@);
        }
        if *answer_label(&records[t]) == *target {
            proof {
                assert(record_label(m[t as int]) == target@);
            }
            return true;
        }
        t = t + 1;
    }
    false
}

/// Decode the packet held in the first `count` octets of `buffer` and file
/// the whole record list, stamped with `now`, under every wanted name it
/// concerns. Only the datagram itself is read: octets past `count` play no
/// part. A packet is discarded untouched when nothing is wanted or when it
/// does not decode; a malformed packet therefore never changes the
/// registry.
#[verifier::loop_isolation(false)]
pub fn process_packet(handler: &mut DiscoveryHandler, buffer: &[u8], count: usize, now: u64)
    requires
        count <= buffer@.len(),
        count + 0x20000 <= usize::MAX,
    ensures
        old(handler).wanted().len() == 0 ==> *final(handler) == *old(handler),
        old(handler).wanted().len() > 0 ==> match spec_decode(
            buffer@.subrange(0, count as int),
        ) {
            Err(_) => *final(handler) == *old(handler),
            Ok(rs) => {
                &&& final(handler).wanted() == old(handler).wanted()
                &&& forall|n: Seq<char>|
                    appended_under(*old(handler), rs, n) ==> #[trigger] final(handler).found(n)
                        == Some(old(handler).found_or_empty(n).push((now, rs)))
                &&& forall|n: Seq<char>|
                    !appended_under(*old(handler), rs, n) ==> #[trigger] final(handler).found(n)
                        == old(handler).found(n)
            },
        },
{
    if handler.get_services().len() == 0 {
        return ;
    }

    let records = match DnsSdResponse::from(buffer, count) {
        Ok(r) => r,
        Err(_) => {
            return ;
        },
    };
    let ghost rs = records_view(records@);

    let names: Vec<String> = copy_strings(handler.get_services());
    let ghost w = strings_view(names@);
    proof {
        assert(w == old(handler).wanted());
        assert(w.take(0) =~= Seq::<Seq<char>>::empty());
    }

    let mut idx: usize = 0;
    while idx < names.len()
        invariant
            idx <= w.len(),
            handler.wanted() == old(handler).wanted(),
            forall|n: Seq<char>|
                (w.take(idx as int).contains(n) && name_matches(rs, n)) ==> #[trigger] handler.found(
                    n,
                ) == Some(old(handler).found_or_empty(n).push((now, rs))),
            forall|n: Seq<char>|
                !(w.take(idx as int).contains(n) && name_matches(rs, n))
                    ==> #[trigger] handler.found(n) == old(handler).found(n),
        decreases w.len() - idx,
    {
        let name = &names[idx];

        let mut dup = false;
        let mut k: usize = 0;
        while k < idx
            invariant
                k <= idx,
                idx < w.len(),
                dup ==> w.take(idx as int).contains(name@),
                !dup ==> forall|t: int| 0 <= t < k ==> w[t] != name@,
            decreases idx - k,
        {
            if names[k] == *name {
                proof {
                    assert(w.take(idx as int)[k as int] == name@);
                }
                dup = true;
            }
            k = k + 1;
        }

        if !dup {
            proof {
                if w.take(idx as int).contains(name@) {
                    let t = choose|t: int|
                        0 <= t < idx && #[trigger] w.take(idx as int)[t] == name@;
                    assert(w[t] == name@);
                }
            }
            if matches_name(&records, name) {
                let copy = copy_records(&records);
                handler.add_found_service(name.clone(), copy, now);
            }
        }

        proof {
            assert(w.take(idx + 1) =~= w.take(idx as int).push(name@));
            assert forall|n: Seq<char>| #[trigger] w.take(idx + 1).contains(n) implies (w.take(
                idx as int,
            ).contains(n) || n == name@) by {
                let t = choose|t: int|
                    0 <= t < w.take(idx + 1).len() && #[trigger] w.take(idx + 1)[t] == n;
                if t < idx {
                    assert(w.take(idx as int)[t] == n);
                }
            }
            assert forall|n: Seq<char>| w.take(idx as int).contains(n) implies #[trigger] w.take(
                idx + 1,
            ).contains(n) by {
                let t = choose|t: int|
                    0 <= t < w.take(idx as int).len() && #[trigger] w.take(idx as int)[t] == n;
                assert(w.take(idx + 1)[t] == n);
            }
            assert(w.take(idx + 1).contains(name@)) by {
                assert(w.take(idx + 1)[idx as int] == name@);
            }
        }
        idx = idx + 1;
    }

    proof {
        assert(w.take(idx as int) =~= w);
    }
}

} // verus!
