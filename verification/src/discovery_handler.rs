//! The registry: the wanted service names and, per name, the time-stamped
//! response sets received so far, newest at the tail.

use vstd::prelude::*;

use crate::dns::{records_view, strings_view, DnsSdResponse, RecordModel};
use crate::{IpAddress, IpAddressModel, IpType};

verus! {

/// The first address record of the configured family in `records`, if any.
pub open spec fn spec_first_address(records: Seq<RecordModel>, ip_type: IpType) -> Option<
    IpAddressModel,
>
    decreases records.len(),
{
    if records.len() == 0 {
        None
    } else {
        match records[0] {
            RecordModel::A { octets, .. } => if ip_type is V4 {
                Some(IpAddressModel::V4(octets))
            } else {
                spec_first_address(records.drop_first(), ip_type)
            },
            RecordModel::Aaaa { groups, .. } => if ip_type is V6 {
                Some(IpAddressModel::V6(groups))
            } else {
                spec_first_address(records.drop_first(), ip_type)
            },
            _ => spec_first_address(records.drop_first(), ip_type),
        }
    }
}

/// The port of the first SRV record in `records`, if any.
pub open spec fn spec_first_port(records: Seq<RecordModel>) -> Option<u16>
    decreases records.len(),
{
    if records.len() == 0 {
        None
    } else {
        match records[0] {
            RecordModel::Srv { port, .. } => Some(port),
            _ => spec_first_port(records.drop_first()),
        }
    }
}

/// The strings of the first TXT record in `records`, if any.
pub open spec fn spec_first_txt(records: Seq<RecordModel>) -> Option<Seq<Seq<char>>>
    decreases records.len(),
{
    if records.len() == 0 {
        None
    } else {
        match records[0] {
            RecordModel::Txt { records: txts, .. } => Some(txts),
            _ => spec_first_txt(records.drop_first()),
        }
    }
}

/// One packet's worth of decoded records together with its arrival time.
pub struct TimeStampedResponse {
    pub timestamp: u64,
    pub responses: Vec<DnsSdResponse>,
}

/// The specification-level shape of a response set: the arrival time and the
/// record views.
pub open spec fn set_view(t: TimeStampedResponse) -> (u64, Seq<RecordModel>) {
    (t.timestamp, records_view(t.responses@))
}

/// The views of a list of response sets.
pub open spec fn sets_view(s: Seq<TimeStampedResponse>) -> Seq<(u64, Seq<RecordModel>)> {
    Seq::new(s.len(), |i: int| set_view(s[i]))
}

impl TimeStampedResponse {
    /// Stamp a record list with its arrival time.
    pub fn new(timestamp: u64, responses: Vec<DnsSdResponse>) -> (r: TimeStampedResponse)
        ensures
            r.timestamp == timestamp,
            r.responses == responses,
    {
        TimeStampedResponse { timestamp, responses }
    }
}

/// The store behind discovery: the list of wanted service names, in
/// insertion order with duplicates allowed, and the response sets filed
/// under each name. A previously appended response set is never mutated.
pub struct DiscoveryHandler {
    services: Vec<String>,
    found_services: Vec<(String, Vec<TimeStampedResponse>)>,
}

/// True when `i` is the first position of `x` in `w`.
pub open spec fn first_occurrence(w: Seq<Seq<char>>, x: Seq<char>, i: int) -> bool {
    &&& 0 <= i < w.len()
    &&& w[i] == x
    &&& forall|k: int| 0 <= k < i ==> w[k] != x
}

/// Look a name up in the association list, first match winning.
pub closed spec fn assoc_found(
    s: Seq<(String, Vec<TimeStampedResponse>)>,
    name: Seq<char>,
) -> Option<Seq<(u64, Seq<RecordModel>)>>
    decreases s.len(),
{
    if s.len() == 0 {
        None
    } else if s[0].0@ == name {
        Some(sets_view(s[0].1@))
    } else {
        assoc_found(s.drop_first(), name)
    }
}

impl DiscoveryHandler {
    /// The wanted service names, in order.
    pub closed spec fn wanted(self) -> Seq<Seq<char>> {
        strings_view(self.services@)
    }

    /// The response sets filed under `name`, oldest first, or None if the
    /// name never received one.
    pub closed spec fn found(self, name: Seq<char>) -> Option<Seq<(u64, Seq<RecordModel>)>> {
        assoc_found(self.found_services@, name)
    }

    /// The response sets filed under `name`, or the empty list.
    pub open spec fn found_or_empty(self, name: Seq<char>) -> Seq<(u64, Seq<RecordModel>)> {
        match self.found(name) {
            Some(s) => s,
            None => Seq::empty(),
        }
    }

    /// The newest response set under `name`, if any.
    pub open spec fn latest(self, name: Seq<char>) -> Option<(u64, Seq<RecordModel>)> {
        match self.found(name) {
            None => None,
            Some(s) => if s.len() == 0 {
                None
            } else {
                Some(s.last())
            },
        }
    }

    /// An empty registry: nothing wanted, nothing found.
    pub fn new() -> (r: DiscoveryHandler)
        ensures
            r.wanted() =~= Seq::<Seq<char>>::empty(),
            forall|n: Seq<char>| #[trigger] r.found(n) is None,
    {
        let r = DiscoveryHandler { services: Vec::new(), found_services: Vec::new() };
        proof {
            assert(r.wanted() =~= Seq::<Seq<char>>::empty());
            assert forall|n: Seq<char>| #[trigger] r.found(n) is None by {
                assert(r.found_services@.len() == 0);
            }
        }
        r
    }

    /// Append `service` to the wanted list.
    pub fn add_service(&mut self, service: String)
        ensures
            final(self).wanted() == old(self).wanted().push(service@),
            forall|n: Seq<char>| #[trigger] final(self).found(n) == old(self).found(n),
    {
        self.services.push(service);
        proof {
            assert(final(self).wanted() =~= old(self).wanted().push(service@));
        }
    }

    /// True iff `service` is currently wanted.
    #[verifier::loop_isolation(false)]
    pub fn is_service_wanted(&self, service: &String) -> (r: bool)
        ensures
            r == self.wanted().contains(service@),
    {
        let mut i: usize = 0;
        while i < self.services.len()
            invariant
                i <= self.services@.len(),
                forall|k: int| 0 <= k < i ==> self.services@[k]@ != service@,
            decreases self.services@.len() - i,
        {
            if self.services[i] == *service {
                proof {
                    assert(self.wanted()[i as int] == service@);
                }
                return true;
            }
            i = i + 1;
        }
        proof {
            assert forall|k: int| 0 <= k < self.wanted().len() implies self.wanted()[k]
                != service@ by {
                assert(self.services@[k]@ != service@);
            }
        }
        false
    }

    /// Remove the first occurrence of `service_label` from the wanted list,
    /// if there is one.
    #[verifier::loop_isolation(false)]
    pub fn remove_service(&mut self, service_label: String)
        ensures
            !old(self).wanted().contains(service_label@) ==> final(self).wanted() == old(
                self,
            ).wanted(),
            old(self).wanted().contains(service_label@) ==> exists|i: int|
                #[trigger] old(self).wanted().remove(i) == final(self).wanted()
                    && first_occurrence(old(self).wanted(), service_label@, i),
            forall|n: Seq<char>| #[trigger] final(self).found(n) == old(self).found(n),
    {
        let mut i: usize = 0;
        while i < self.services.len()
            invariant
                i <= self.services@.len(),
                *self == *old(self),
                forall|k: int| 0 <= k < i ==> self.services@[k]@ != service_label@,
            decreases self.services@.len() - i,
        {
            if self.services[i] == service_label {
                self.services.remove(i);
                proof {
                    assert(old(self).wanted()[i as int] == service_label@);
                    assert(final(self).wanted() =~= old(self).wanted().remove(i as int));
                }
                return ;
            }
            i = i + 1;
        }
        proof {
            assert forall|k: int| 0 <= k < self.wanted().len() implies self.wanted()[k]
                != service_label@ by {
                assert(self.services@[k]@ != service_label@);
            }
        }
    }

    /// The wanted list itself, for snapshotting.
    pub fn get_services(&self) -> (r: &Vec<String>)
        ensures
            strings_view(r@) == self.wanted(),
    {
        &self.services
    }

    /// File `responses`, stamped with `now`, under `service_label`.
    #[verifier::loop_isolation(false)]
    pub fn add_found_service(&mut self, service_label: String, responses: Vec<DnsSdResponse>, now: u64)
        ensures
            final(self).found(service_label@) == Some(
                old(self).found_or_empty(service_label@).push((now, records_view(responses@))),
            ),
            forall|n: Seq<char>| n != service_label@ ==> #[trigger] final(self).found(n) == old(
                self,
            ).found(n),
            final(self).wanted() == old(self).wanted(),
    {
        let ts = TimeStampedResponse::new(now, responses);
        let mut i: usize = 0;
        while i < self.found_services.len()
            invariant
                i <= self.found_services@.len(),
                *self == *old(self),
                forall|k: int| 0 <= k < i ==> self.found_services@[k].0@ != service_label@,
            decreases self.found_services@.len() - i,
        {
            if self.found_services[i].0 == service_label {
                let (key, mut sets) = self.found_services.remove(i);
                sets.push(ts);
                self.found_services.insert(i, (key, sets));
                proof {
                    lemma_assoc_update(
                        old(self).found_services@,
                        self.found_services@,
                        i as int,
                        service_label@,
                        now,
                        records_view(responses@),
                    );
                }
                return ;
            }
            i = i + 1;
        }
        self.found_services.push((service_label, ts_singleton_hold(ts)));
        proof {
            lemma_assoc_absent(old(self).found_services@, service_label@);
            lemma_assoc_append(
                old(self).found_services@,
                self.found_services@,
                service_label@,
                now,
                records_view(responses@),
            );
        }
    }

    /// The address from the newest response set under `service`, filtered by
    /// family: an A record yields V4, an AAAA record V6, the first such
    /// record winning.
    #[verifier::loop_isolation(false)]
    pub fn get_ip_address(&self, service: &str, ip_type: IpType) -> (r: Option<IpAddress>)
        ensures
            ({
                let m = match self.latest(service@) {
                    None => None,
                    Some(p) => spec_first_address(p.1, ip_type),
                };
                match (r, m) {
                    (Some(a), Some(b)) => a@ == b,
                    (None, None) => true,
                    _ => false,
                }
            }),
    {
        let sets = match self.get_found_services(service) {
            Some(v) => v,
            None => {
                return None;
            },
        };
        if sets.len() == 0 {
            return None;
        }
        let last = &sets[sets.len() - 1];
        proof {
            assert(sets_view(sets@)[sets@.len() - 1] == set_view(sets@[sets@.len() - 1]));
        }
        let ghost m = records_view(last.responses@);
        proof {
            assert(m.skip(0) =~= m);
        }
        let mut i: usize = 0;
        while i < last.responses.len()
            invariant
                i <= last.responses@.len(),
                spec_first_address(m, ip_type) == spec_first_address(m.skip(i as int), ip_type),
            decreases last.responses@.len() - i,
        {
            proof {
                assert(m.skip(i as int)[0] == m[i as int]);
                assert(m.skip(i as int).drop_first() =~= m.skip(i + 1));
            }
            match &last.responses[i] {
                DnsSdResponse::AAnswer(a) => {
                    match ip_type {
                        IpType::V6 => {},
                        _ => {
                            return Some(IpAddress::V4(a.address));
                        },
                    }
                },
                DnsSdResponse::AaaaAnswer(a) => {
                    match ip_type {
                        IpType::V4 => {},
                        _ => {
                            return Some(IpAddress::V6(a.address));
                        },
                    }
                },
                _ => {},
            }
            i = i + 1;
        }
        proof {
            assert(m.skip(i as int) =~= Seq::<RecordModel>::empty());
        }
        None
    }

    /// The port of the first SRV record in the newest response set under
    /// `service`, if any.
    #[verifier::loop_isolation(false)]
    pub fn get_port(&self, service: &str) -> (r: Option<u16>)
        ensures
            ({
                let m = match self.latest(service@) {
                    None => None,
                    Some(p) => spec_first_port(p.1),
                };
                r == m
            }),
    {
        let sets = match self.get_found_services(service) {
            Some(v) => v,
            None => {
                return None;
            },
        };
        if sets.len() == 0 {
            return None;
        }
        let last = &sets[sets.len() - 1];
        proof {
            assert(sets_view(sets@)[sets@.len() - 1] == set_view(sets@[sets@.len() - 1]));
        }
        let ghost m = records_view(last.responses@);
        proof {
            assert(m.skip(0) =~= m);
        }
        let mut i: usize = 0;
        while i < last.responses.len()
            invariant
                i <= last.responses@.len(),
                spec_first_port(m) == spec_first_port(m.skip(i as int)),
            decreases last.responses@.len() - i,
        {
            proof {
                assert(m.skip(i as int)[0] == m[i as int]);
                assert(m.skip(i as int).drop_first() =~= m.skip(i + 1));
            }
            match &last.responses[i] {
                DnsSdResponse::SrvAnswer(srv) => {
                    return Some(srv.port);
                },
                _ => {},
            }
            i = i + 1;
        }
        proof {
            assert(m.skip(i as int) =~= Seq::<RecordModel>::empty());
        }
        None
    }

    /// Both the address and the port from the newest response set under
    /// `service`, or nothing if either is missing.
    pub fn get_ip_and_port(&self, service: &str, ip_type: IpType) -> (r: Option<(IpAddress, u16)>)
        ensures
            ({
                let addr = match self.latest(service@) {
                    None => None,
                    Some(p) => spec_first_address(p.1, ip_type),
                };
                let port = match self.latest(service@) {
                    None => None,
                    Some(p) => spec_first_port(p.1),
                };
                match r {
                    Some(pair) => addr matches Some(am) && pair.0@ == am && port == Some(pair.1),
                    None => addr is None || port is None,
                }
            }),
    {
        let ip = match self.get_ip_address(service, ip_type) {
            Some(ip) => ip,
            None => {
                return None;
            },
        };
        let port = match self.get_port(service) {
            Some(p) => p,
            None => {
                return None;
            },
        };
        Some((ip, port))
    }

    /// The strings of the first TXT record in the newest response set under
    /// `service`, if any.
    #[verifier::loop_isolation(false)]
    pub fn get_txt_records(&self, service: &str) -> (r: Option<Vec<String>>)
        ensures
            ({
                let m = match self.latest(service@) {
                    None => None,
                    Some(p) => spec_first_txt(p.1),
                };
                match (r, m) {
                    (Some(v), Some(ts)) => strings_view(v@) == ts,
                    (None, None) => true,
                    _ => false,
                }
            }),
    {
        let sets = match self.get_found_services(service) {
            Some(v) => v,
            None => {
                return None;
            },
        };
        if sets.len() == 0 {
            return None;
        }
        let last = &sets[sets.len() - 1];
        proof {
            assert(sets_view(sets@)[sets@.len() - 1] == set_view(sets@[sets@.len() - 1]));
        }
        let ghost m = records_view(last.responses@);
        proof {
            assert(m.skip(0) =~= m);
        }
        let mut i: usize = 0;
        while i < last.responses.len()
            invariant
                i <= last.responses@.len(),
                spec_first_txt(m) == spec_first_txt(m.skip(i as int)),
            decreases last.responses@.len() - i,
        {
            proof {
                assert(m.skip(i as int)[0] == m[i as int]);
                assert(m.skip(i as int).drop_first() =~= m.skip(i + 1));
            }
            match &last.responses[i] {
                DnsSdResponse::TxtAnswer(txt) => {
                    let mut out: Vec<String> = Vec::new();
                    let mut j: usize = 0;
                    while j < txt.records.len()
                        invariant
                            j <= txt.records@.len(),
                            strings_view(out@) =~= strings_view(txt.records@).take(j as int),
                        decreases txt.records@.len() - j,
                    {
                        out.push(txt.records[j].clone());
                        proof {
                            assert(strings_view(out@) =~= strings_view(txt.records@).take(
                                j + 1,
                            ));
                        }
                        j = j + 1;
                    }
                    proof {
                        assert(strings_view(out@) =~= strings_view(txt.records@));
                    }
                    return Some(out);
                },
                _ => {},
            }
            i = i + 1;
        }
        proof {
            assert(m.skip(i as int) =~= Seq::<RecordModel>::empty());
        }
        None
    }

    /// File `responses`, stamped with `now`, under `service_label`: the
    /// registry's appending operation under its other public name.
    pub fn add_response(&mut self, service_label: String, responses: Vec<DnsSdResponse>, now: u64)
        ensures
            final(self).found(service_label@) == Some(
                old(self).found_or_empty(service_label@).push((now, records_view(responses@))),
            ),
            forall|n: Seq<char>| n != service_label@ ==> #[trigger] final(self).found(n) == old(
                self,
            ).found(n),
            final(self).wanted() == old(self).wanted(),
    {
        self.add_found_service(service_label, responses, now)
    }

    /// The response sets filed under `service`, if any.
    #[verifier::loop_isolation(false)]
    pub fn get_found_services(&self, service: &str) -> (r: Option<&Vec<TimeStampedResponse>>)
        ensures
            match r {
                Some(v) => self.found(service@) == Some(sets_view(v@)),
                None => self.found(service@) is None,
            },
    {
        proof {
            assert(self.found_services@.skip(0) =~= self.found_services@);
        }
        let mut i: usize = 0;
        while i < self.found_services.len()
            invariant
                i <= self.found_services@.len(),
                assoc_found(self.found_services@, service@) == assoc_found(
                    self.found_services@.skip(i as int),
                    service@,
                ),
            decreases self.found_services@.len() - i,
        {
            proof {
                assert(self.found_services@.skip(i as int)[0] == self.found_services@[i as int]);
                assert(self.found_services@.skip(i as int).drop_first() =~= self.found_services@.skip(
                    i + 1,
                ));
            }
            if compare_key(&self.found_services[i].0, service) {
                return Some(&self.found_services[i].1);
            }
            i = i + 1;
        }
        proof {
            assert(self.found_services@.skip(i as int) =~= Seq::empty());
        }
        None
    }
}

/// Wrap one response set as the value of a fresh registry entry.
fn ts_singleton_hold(ts: TimeStampedResponse) -> (r: Vec<TimeStampedResponse>)
    ensures
        r@ =~= seq![ts],
{
    let mut v: Vec<TimeStampedResponse> = Vec::new();
    v.push(ts);
    v
}

/// A `String` key against a `&str` query, by character content.
fn compare_key(key: &String, query: &str) -> (r: bool)
    ensures
        r == (key@ == query@),
{
    let q = String::from_str(query);
    *key == q
}

/// Updating the association list at the first occurrence of `name` changes
/// the lookup for `name` alone, appending one set to its list.
proof fn lemma_assoc_update(
    before: Seq<(String, Vec<TimeStampedResponse>)>,
    after: Seq<(String, Vec<TimeStampedResponse>)>,
    i: int,
    name: Seq<char>,
    now: u64,
    records: Seq<RecordModel>,
)
    requires
        0 <= i < before.len(),
        after.len() == before.len(),
        forall|k: int| 0 <= k < i ==> before[k].0@ != name,
        before[i].0@ == name,
        after[i].0@ == name,
        sets_view(after[i].1@) =~= sets_view(before[i].1@).push((now, records)),
        forall|k: int| 0 <= k < before.len() && k != i ==> after[k] == before[k],
    ensures
        assoc_found(after, name) == Some(
            (match assoc_found(before, name) {
                Some(s) => s,
                None => Seq::empty(),
            }).push((now, records)),
        ),
        forall|n: Seq<char>|
            n != name ==> #[trigger] assoc_found(after, n) == assoc_found(before, n),
    decreases before.len(),
{
    if i == 0 {
        assert forall|n: Seq<char>|
            n != name implies #[trigger] assoc_found(after, n) == assoc_found(before, n) by {
            assert(assoc_found(after, n) == assoc_found(after.drop_first(), n));
            assert(assoc_found(before, n) == assoc_found(before.drop_first(), n));
            assert(after.drop_first() =~= before.drop_first());
        }
    } else {
        assert forall|k: int| 0 <= k < before.drop_first().len() && k != i - 1 implies after.drop_first()[k]
            == before.drop_first()[k] by {
            assert(after[k + 1] == before[k + 1]);
        }
        lemma_assoc_update(before.drop_first(), after.drop_first(), i - 1, name, now, records);
        assert(after[0] == before[0]);
        assert(after[0].0@ != name);
        assert(assoc_found(after, name) == assoc_found(after.drop_first(), name));
        assert(assoc_found(before, name) == assoc_found(before.drop_first(), name));
        assert forall|n: Seq<char>|
            n != name implies #[trigger] assoc_found(after, n) == assoc_found(before, n) by {
            if after[0].0@ != n {
                assert(assoc_found(after, n) == assoc_found(after.drop_first(), n));
                assert(assoc_found(before, n) == assoc_found(before.drop_first(), n));
                assert(assoc_found(after.drop_first(), n) == assoc_found(before.drop_first(), n));
            }
        }
    }
}

/// One atomic registry operation, in the order the registry's lock
/// serialises them. `DiscoveryHandler::add_service`, `remove_service` and
/// `add_found_service` perform exactly these transitions, as their contracts
/// state.
pub enum RegistryOp {
    AddWanted(Seq<char>),
    RemoveWanted(Seq<char>),
    AppendResponse(Seq<char>, u64, Seq<RecordModel>),
}

/// An abstract registry state: the wanted names and the sets filed per name.
pub struct RegistryState {
    pub wanted: Seq<Seq<char>>,
    pub found: Map<Seq<char>, Seq<(u64, Seq<RecordModel>)>>,
}

/// `w` with the first occurrence of `n` removed, if there is one.
pub open spec fn remove_first(w: Seq<Seq<char>>, n: Seq<char>) -> Seq<Seq<char>>
    decreases w.len(),
{
    if w.len() == 0 {
        w
    } else if w[0] == n {
        w.drop_first()
    } else {
        seq![w[0]] + remove_first(w.drop_first(), n)
    }
}

/// The sets filed under `n`, or the empty list.
pub open spec fn found_of(st: RegistryState, n: Seq<char>) -> Seq<(u64, Seq<RecordModel>)> {
    if st.found.dom().contains(n) {
        st.found[n]
    } else {
        Seq::empty()
    }
}

/// The newest set filed under `n`, if any.
pub open spec fn latest_of(st: RegistryState, n: Seq<char>) -> Option<(u64, Seq<RecordModel>)> {
    if found_of(st, n).len() == 0 {
        None
    } else {
        Some(found_of(st, n).last())
    }
}

/// The state transition one registry operation makes.
pub open spec fn apply_op(st: RegistryState, op: RegistryOp) -> RegistryState {
    match op {
        RegistryOp::AddWanted(n) => RegistryState { wanted: st.wanted.push(n), found: st.found },
        RegistryOp::RemoveWanted(n) => RegistryState {
            wanted: remove_first(st.wanted, n),
            found: st.found,
        },
        RegistryOp::AppendResponse(n, ts, rs) => RegistryState {
            wanted: st.wanted,
            found: st.found.insert(n, found_of(st, n).push((ts, rs))),
        },
    }
}

/// The state after a serialisation of operations, from the empty registry.
pub open spec fn run_ops(ops: Seq<RegistryOp>) -> RegistryState
    decreases ops.len(),
{
    if ops.len() == 0 {
        RegistryState { wanted: Seq::empty(), found: Map::empty() }
    } else {
        apply_op(run_ops(ops.drop_last()), ops.last())
    }
}

/// However registry operations from any number of tasks are serialised by
/// the registry's lock, what `latest` then returns under a name is exactly
/// the record list of one `AppendResponse` operation filed under that name —
/// one whole appended set, never a mixture of two.
pub proof fn lemma_latest_is_one_appended(ops: Seq<RegistryOp>, n: Seq<char>)
    requires
        latest_of(run_ops(ops), n) is Some,
    ensures
        exists|k: int|
            0 <= k < ops.len() && #[trigger] ops[k] == RegistryOp::AppendResponse(
                n,
                latest_of(run_ops(ops), n)->Some_0.0,
                latest_of(run_ops(ops), n)->Some_0.1,
            ),
    decreases ops.len(),
{
    if ops.len() > 0 {
        let prev = run_ops(ops.drop_last());
        match ops.last() {
            RegistryOp::AppendResponse(m, ts, rs) => {
                if m == n {
                    assert(ops[ops.len() - 1] == RegistryOp::AppendResponse(n, ts, rs));
                } else {
                    lemma_latest_is_one_appended(ops.drop_last(), n);
                    let k = choose|k: int|
                        0 <= k < ops.drop_last().len() && #[trigger] ops.drop_last()[k]
                            == RegistryOp::AppendResponse(
                            n,
                            latest_of(prev, n)->Some_0.0,
                            latest_of(prev, n)->Some_0.1,
                        );
                    assert(ops[k] == RegistryOp::AppendResponse(
                        n,
                        latest_of(run_ops(ops), n)->Some_0.0,
                        latest_of(run_ops(ops), n)->Some_0.1,
                    ));
                }
            },
            RegistryOp::AddWanted(_) => {
                lemma_latest_is_one_appended(ops.drop_last(), n);
                let k = choose|k: int|
                    0 <= k < ops.drop_last().len() && #[trigger] ops.drop_last()[k]
                        == RegistryOp::AppendResponse(
                        n,
                        latest_of(prev, n)->Some_0.0,
                        latest_of(prev, n)->Some_0.1,
                    );
                assert(ops[k] == RegistryOp::AppendResponse(
                    n,
                    latest_of(run_ops(ops), n)->Some_0.0,
                    latest_of(run_ops(ops), n)->Some_0.1,
                ));
            },
            RegistryOp::RemoveWanted(_) => {
                lemma_latest_is_one_appended(ops.drop_last(), n);
                let k = choose|k: int|
                    0 <= k < ops.drop_last().len() && #[trigger] ops.drop_last()[k]
                        == RegistryOp::AppendResponse(
                        n,
                        latest_of(prev, n)->Some_0.0,
                        latest_of(prev, n)->Some_0.1,
                    );
                assert(ops[k] == RegistryOp::AppendResponse(
                    n,
                    latest_of(run_ops(ops), n)->Some_0.0,
                    latest_of(run_ops(ops), n)->Some_0.1,
                ));
            },
        }
    }
}

/// Right after an `AppendResponse` under `n`, `latest` under `n` is exactly
/// the set that operation filed.
pub proof fn lemma_latest_after_append(ops: Seq<RegistryOp>, n: Seq<char>, ts: u64, rs: Seq<RecordModel>)
    ensures
        latest_of(run_ops(ops.push(RegistryOp::AppendResponse(n, ts, rs))), n) == Some((ts, rs)),
{
    let ops2 = ops.push(RegistryOp::AppendResponse(n, ts, rs));
    assert(ops2.drop_last() =~= ops);
    assert(ops2.last() == RegistryOp::AppendResponse(n, ts, rs));
}

/// In an association list in which `name` never occurs as a key, the lookup
/// for `name` finds nothing.
proof fn lemma_assoc_absent(s: Seq<(String, Vec<TimeStampedResponse>)>, name: Seq<char>)
    requires
        forall|k: int| 0 <= k < s.len() ==> s[k].0@ != name,
    ensures
        assoc_found(s, name) is None,
    decreases s.len(),
{
    if s.len() > 0 {
        assert(s[0].0@ != name);
        lemma_assoc_absent(s.drop_first(), name);
    }
}

/// Appending a fresh pair for `name` to an association list in which `name`
/// does not occur creates its entry with one set, and changes nothing else.
proof fn lemma_assoc_append(
    before: Seq<(String, Vec<TimeStampedResponse>)>,
    after: Seq<(String, Vec<TimeStampedResponse>)>,
    name: Seq<char>,
    now: u64,
    records: Seq<RecordModel>,
)
    requires
        forall|k: int| 0 <= k < before.len() ==> before[k].0@ != name,
        after.len() == before.len() + 1,
        forall|k: int| 0 <= k < before.len() ==> after[k] == before[k],
        after.last().0@ == name,
        sets_view(after.last().1@) =~= seq![(now, records)],
    ensures
        assoc_found(after, name) == Some(Seq::<(u64, Seq<RecordModel>)>::empty().push((now, records))),
        forall|n: Seq<char>|
            n != name ==> #[trigger] assoc_found(after, n) == assoc_found(before, n),
    decreases before.len(),
{
    if before.len() == 0 {
        assert(after.len() == 1);
        assert(after[0] == after.last());
        assert(assoc_found(after, name) == Some(sets_view(after[0].1@)));
        assert(sets_view(after[0].1@) =~= Seq::<(u64, Seq<RecordModel>)>::empty().push(
            (now, records),
        ));
        assert forall|n: Seq<char>|
            n != name implies #[trigger] assoc_found(after, n) == assoc_found(before, n) by {
            assert(assoc_found(after, n) == assoc_found(after.drop_first(), n));
            assert(after.drop_first() =~= Seq::<(String, Vec<TimeStampedResponse>)>::empty());
            assert(assoc_found(after.drop_first(), n) is None);
            assert(assoc_found(before, n) is None);
        }
    } else {
        assert(after.drop_first().len() == before.drop_first().len() + 1);
        assert forall|k: int| 0 <= k < before.drop_first().len() implies after.drop_first()[k]
            == before.drop_first()[k] by {
            assert(after[k + 1] == before[k + 1]);
        }
        assert(after.drop_first().last() == after.last());
        lemma_assoc_append(before.drop_first(), after.drop_first(), name, now, records);
        assert(after[0] == before[0]);
        assert(after[0].0@ != name);
        assert(assoc_found(after, name) == assoc_found(after.drop_first(), name));
        assert forall|n: Seq<char>|
            n != name implies #[trigger] assoc_found(after, n) == assoc_found(before, n) by {
            if after[0].0@ != n {
                assert(assoc_found(after, n) == assoc_found(after.drop_first(), n));
                assert(assoc_found(before, n) == assoc_found(before.drop_first(), n));
                assert(assoc_found(after.drop_first(), n) == assoc_found(before.drop_first(), n));
            }
        }
    }
}

} // verus!
