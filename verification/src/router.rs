//! The packet-filter abstraction: an interface for installing, checking and
//! removing destination-NAT rules idempotently, and an in-memory
//! implementation of it that the tests and the mock mode use.

use vstd::prelude::*;
use crate::ip::IpAddress;
use crate::record::{ProxyRecord, ProxyRecordSet};

verus! {

/// A packet-filter failure, carrying what the filter printed.
#[derive(Debug)]
pub struct RouterError {
    pub message: String,
}

/// Whether a record stands for a rule the filter can hold: routable, and
/// mapped to a v4 address.
pub open spec fn rule_worthy(r: ProxyRecord) -> bool {
    r.spec_is_routable() && r.mapped_addr.unwrap() is V4
}

pub open spec fn rule_key(r: ProxyRecord) -> u32 {
    r.mapped_addr.unwrap().v4_value()
}

/// The rules a record sequence installs over `m`: one DNAT rule per live
/// routable record, keyed by the mapped address; an existing rule for the
/// same mapped address is left alone (check-then-add).
pub open spec fn install_routes(m: Map<u32, IpAddress>, recs: Seq<ProxyRecord>) -> Map<u32, IpAddress>
    decreases recs.len(),
{
    if recs.len() == 0 {
        m
    } else {
        let m1 = install_routes(m, recs.drop_last());
        let r = recs.last();
        if rule_worthy(r) && r.spec_is_live() && !m1.dom().contains(rule_key(r)) {
            m1.insert(rule_key(r), r.original_addr.unwrap())
        } else {
            m1
        }
    }
}

/// What removing a record sequence's rules leaves of `m`: the rule of every
/// routable record is dropped, marked or not; a missing rule is no error.
pub open spec fn remove_routes(m: Map<u32, IpAddress>, recs: Seq<ProxyRecord>) -> Map<u32, IpAddress>
    decreases recs.len(),
{
    if recs.len() == 0 {
        m
    } else {
        let m1 = remove_routes(m, recs.drop_last());
        let r = recs.last();
        if rule_worthy(r) {
            m1.remove(rule_key(r))
        } else {
            m1
        }
    }
}

/// The host packet filter, as the interception authority drives it. Its
/// effective state is the map from mapped (synthetic) address to original
/// address, one rule per mapped address.
pub trait Router: Sized {
    spec fn routes(&self) -> Map<u32, IpAddress>;

    /// Flush the owned chain and ensure it exists: afterwards it holds no
    /// rules.
    fn init(&mut self) -> (r: Result<(), RouterError>)
        ensures
            r is Ok ==> final(self).routes() == Map::<u32, IpAddress>::empty(),
            r is Err ==> final(self).routes() == old(self).routes(),
    ;

    /// Install one rule per live routable record, leaving existing rules
    /// alone. On failure nothing has changed.
    fn install(&mut self, record_set: &ProxyRecordSet) -> (r: Result<(), RouterError>)
        ensures
            r is Ok ==> final(self).routes()
                == install_routes(old(self).routes(), record_set.records_seq()),
            r is Err ==> final(self).routes() == old(self).routes(),
    ;

    /// Remove the rules of every routable record; a missing rule is not an
    /// error. On failure nothing has changed.
    fn remove(&mut self, record_set: &ProxyRecordSet) -> (r: Result<(), RouterError>)
        ensures
            r is Ok ==> final(self).routes()
                == remove_routes(old(self).routes(), record_set.records_seq()),
            r is Err ==> final(self).routes() == old(self).routes(),
    ;

    /// Remove the records whose soft-delete instant has passed from the set
    /// and from the filter, and hand them back. On failure nothing has
    /// changed.
    fn remove_old_records(&mut self, record_set: &mut ProxyRecordSet, now: u64)
        -> (r: Result<Vec<ProxyRecord>, RouterError>)
        ensures
            r is Ok ==> {
                let due = old(record_set).records_seq().filter(
                    |x: ProxyRecord| x.spec_is_past_due(now),
                );
                &&& final(record_set).records_seq() == old(record_set).records_seq().filter(
                    |x: ProxyRecord| !x.spec_is_past_due(now))
                &&& final(record_set).domain == old(record_set).domain
                &&& final(record_set).resolved_at == old(record_set).resolved_at
                &&& final(record_set).ttl_secs() == old(record_set).ttl_secs()
                &&& r.unwrap()@ == due
                &&& final(self).routes() == remove_routes(old(self).routes(), due)
                &&& (old(record_set).wf() ==> final(record_set).wf())
            },
            r is Err ==> final(self).routes() == old(self).routes()
                && *final(record_set) == *old(record_set),
    ;

    /// Drop every rule from the owned chain.
    fn flush(&mut self) -> (r: Result<(), RouterError>)
        ensures
            r is Ok ==> final(self).routes() == Map::<u32, IpAddress>::empty(),
            r is Err ==> final(self).routes() == old(self).routes(),
    ;
}

/// One rule of the in-memory chain.
#[derive(Clone, Copy, Debug)]
pub struct MockRule {
    pub mapped: u32,
    pub original: IpAddress,
}

/// The map an in-memory chain stands for; a later rule for the same mapped
/// address shadows an earlier one, which the unique-key discipline of the
/// mock makes moot.
pub open spec fn map_of_rules(s: Seq<MockRule>) -> Map<u32, IpAddress>
    decreases s.len(),
{
    if s.len() == 0 {
        Map::empty()
    } else {
        map_of_rules(s.drop_last()).insert(s.last().mapped, s.last().original)
    }
}

pub proof fn lemma_map_of_rules_dom(s: Seq<MockRule>, k: u32)
    ensures
        map_of_rules(s).dom().contains(k) <==> exists|i: int| 0 <= i < s.len()
            && #[trigger] s[i].mapped == k,
    decreases s.len(),
{
    if s.len() > 0 {
        lemma_map_of_rules_dom(s.drop_last(), k);
        if s.last().mapped == k {
            assert(s[s.len() - 1].mapped == k);
        } else if map_of_rules(s).dom().contains(k) {
            let i = choose|i: int| 0 <= i < s.drop_last().len()
                && #[trigger] s.drop_last()[i].mapped == k;
            assert(s[i].mapped == k);
        } else {
            assert forall|i: int| 0 <= i < s.len() implies #[trigger] s[i].mapped != k by {
                if i < s.len() - 1 {
                    assert(s.drop_last()[i].mapped != k);
                }
            }
        }
    }
}

pub proof fn lemma_map_of_rules_drop_key(s: Seq<MockRule>, k: u32)
    ensures
        map_of_rules(s.filter(|r: MockRule| r.mapped != k)) == map_of_rules(s).remove(k),
    decreases s.len(),
{
    broadcast use vstd::map::group_map_axioms;

    reveal(Seq::filter);
    if s.len() == 0 {
        assert(map_of_rules(s.filter(|r: MockRule| r.mapped != k))
            =~= map_of_rules(s).remove(k));
    } else {
        let butlast = s.drop_last();
        lemma_map_of_rules_drop_key(butlast, k);
        let keep = |r: MockRule| r.mapped != k;
        if keep(s.last()) {
            assert(s.filter(keep) == butlast.filter(keep).push(s.last()));
            assert(s.filter(keep).drop_last() =~= butlast.filter(keep));
            assert(map_of_rules(s.filter(keep))
                =~= map_of_rules(s).remove(k));
        } else {
            assert(map_of_rules(s.filter(keep)) =~= map_of_rules(s).remove(k));
        }
    }
}

/// An in-memory packet filter: it keeps the chain as plain data, so the
/// authority can run without privileges and the tests can inspect the
/// rules. The failure switches make a method report a failure and change
/// nothing, the way a failing subprocess would.
pub struct MockRouter {
    pub rules: Vec<MockRule>,
    pub fail_install: bool,
    pub fail_remove: bool,
}

impl MockRouter {
    pub fn new() -> (r: MockRouter)
        ensures
            r.routes() == Map::<u32, IpAddress>::empty(),
            !r.fail_install,
            !r.fail_remove,
    {
        MockRouter { rules: Vec::new(), fail_install: false, fail_remove: false }
    }

    pub fn rule_count(&self) -> (r: usize)
        ensures
            r == self.rules@.len(),
    {
        self.rules.len()
    }

    /// Whether the chain holds a rule mapping `mapped` to `original`.
    pub fn has_rule(&self, mapped: u32, original: &IpAddress) -> (r: bool)
        ensures
            r == (self.routes().dom().contains(mapped)
                && self.routes()[mapped] == *original),
    {
        let mut i: usize = 0;
        let mut found: bool = false;
        let ghost s = self.rules@;
        while i < self.rules.len()
            invariant
                i <= s.len(),
                self.rules@ == s,
                found == (map_of_rules(s.subrange(0, i as int)).dom().contains(mapped)
                    && map_of_rules(s.subrange(0, i as int))[mapped] == *original),
            decreases s.len() - i,
        {
            let ghost prefix = s.subrange(0, i as int);
            let ghost prefix1 = s.subrange(0, i as int + 1);
            proof {
                assert(prefix1.drop_last() =~= prefix);
            }
            let rule = &self.rules[i];
            if rule.mapped == mapped {
                found = addr_eq(&rule.original, original);
            }
            i = i + 1;
        }
        proof {
            assert(s.subrange(0, s.len() as int) =~= s);
        }
        found
    }

    fn contains_mapped(&self, mapped: u32) -> (r: bool)
        ensures
            r == self.routes().dom().contains(mapped),
    {
        let mut i: usize = 0;
        let ghost s = self.rules@;
        while i < self.rules.len()
            invariant
                i <= s.len(),
                self.rules@ == s,
                forall|k: int| 0 <= k < i ==> #[trigger] s[k].mapped != mapped,
            decreases s.len() - i,
        {
            if self.rules[i].mapped == mapped {
                proof {
                    lemma_map_of_rules_dom(s, mapped);
                }
                return true;
            }
            i = i + 1;
        }
        proof {
            lemma_map_of_rules_dom(s, mapped);
        }
        false
    }

    /// Drops every rule whose mapped address is `mapped`.
    fn drop_mapped(&mut self, mapped: u32)
        ensures
            final(self).routes() == old(self).routes().remove(mapped),
            final(self).fail_install == old(self).fail_install,
            final(self).fail_remove == old(self).fail_remove,
    {
        let ghost s = self.rules@;
        let mut kept: Vec<MockRule> = Vec::new();
        let mut i: usize = 0;
        while i < self.rules.len()
            invariant
                i <= s.len(),
                self.rules@ == s,
                kept@ == s.subrange(0, i as int).filter(|r: MockRule| r.mapped != mapped),
            decreases s.len() - i,
        {
            let ghost prefix = s.subrange(0, i as int);
            let ghost prefix1 = s.subrange(0, i as int + 1);
            proof {
                assert(prefix1.drop_last() =~= prefix);
                reveal(Seq::filter);
            }
            let rule = &self.rules[i];
            if rule.mapped != mapped {
                kept.push(MockRule { mapped: rule.mapped, original: rule.original });
                proof {
                    assert(s[i as int] == (MockRule { mapped: s[i as int].mapped,
                        original: s[i as int].original }));
                    assert(kept@ =~= prefix1.filter(|r: MockRule| r.mapped != mapped));
                }
            } else {
                proof {
                    assert(kept@ =~= prefix1.filter(|r: MockRule| r.mapped != mapped));
                }
            }
            i = i + 1;
        }
        proof {
            assert(s.subrange(0, s.len() as int) =~= s);
            lemma_map_of_rules_drop_key(s, mapped);
        }
        self.rules = kept;
    }

    /// Installs the rules of a record sequence, front to back.
    fn install_records(&mut self, records: &Vec<ProxyRecord>)
        ensures
            final(self).routes() == install_routes(old(self).routes(), records@),
            final(self).fail_install == old(self).fail_install,
            final(self).fail_remove == old(self).fail_remove,
    {
        let ghost m0 = self.routes();
        let mut i: usize = 0;
        while i < records.len()
            invariant
                i <= records@.len(),
                self.routes() == install_routes(m0, records@.subrange(0, i as int)),
                self.fail_install == old(self).fail_install,
                self.fail_remove == old(self).fail_remove,
            decreases records@.len() - i,
        {
            let ghost prefix = records@.subrange(0, i as int);
            let ghost prefix1 = records@.subrange(0, i as int + 1);
            proof {
                assert(prefix1.drop_last() =~= prefix);
                assert(prefix1.last() == records@[i as int]);
            }
            let rec = &records[i];
            if rec.is_routable() && rec.is_live() {
                match rec.mapped_addr {
                    Some(IpAddress::V4(mapped)) => {
                        if !self.contains_mapped(mapped) {
                            match rec.original_addr {
                                Some(orig) => {
                                    let ghost before = self.rules@;
                                    self.rules.push(MockRule { mapped, original: orig });
                                    proof {
                                        assert(self.rules@.drop_last() =~= before);
                                    }
                                },
                                None => {},
                            }
                        }
                    },
                    _ => {},
                }
            }
            i = i + 1;
        }
        proof {
            assert(records@.subrange(0, records@.len() as int) =~= records@);
        }
    }

    /// Removes the rules of a record sequence, front to back.
    fn remove_records(&mut self, records: &Vec<ProxyRecord>)
        ensures
            final(self).routes() == remove_routes(old(self).routes(), records@),
            final(self).fail_install == old(self).fail_install,
            final(self).fail_remove == old(self).fail_remove,
    {
        let ghost m0 = self.routes();
        let mut i: usize = 0;
        while i < records.len()
            invariant
                i <= records@.len(),
                self.routes() == remove_routes(m0, records@.subrange(0, i as int)),
                self.fail_install == old(self).fail_install,
                self.fail_remove == old(self).fail_remove,
            decreases records@.len() - i,
        {
            let ghost prefix = records@.subrange(0, i as int);
            let ghost prefix1 = records@.subrange(0, i as int + 1);
            proof {
                assert(prefix1.drop_last() =~= prefix);
                assert(prefix1.last() == records@[i as int]);
            }
            let rec = &records[i];
            if rec.is_routable() {
                match rec.mapped_addr {
                    Some(IpAddress::V4(mapped)) => {
                        self.drop_mapped(mapped);
                    },
                    _ => {},
                }
            }
            i = i + 1;
        }
        proof {
            assert(records@.subrange(0, records@.len() as int) =~= records@);
        }
    }
}

impl Router for MockRouter {
    open spec fn routes(&self) -> Map<u32, IpAddress> {
        map_of_rules(self.rules@)
    }

    fn init(&mut self) -> (r: Result<(), RouterError>)
        ensures
            r is Ok,
            final(self).fail_install == old(self).fail_install,
            final(self).fail_remove == old(self).fail_remove,
    {
        self.rules = Vec::new();
        Ok(())
    }

    fn install(&mut self, record_set: &ProxyRecordSet) -> (r: Result<(), RouterError>)
        ensures
            r is Ok <==> !old(self).fail_install,
            final(self).fail_install == old(self).fail_install,
            final(self).fail_remove == old(self).fail_remove,
    {
        if self.fail_install {
            return Err(RouterError { message: String::new() });
        }
        self.install_records(record_set.records());
        Ok(())
    }

    fn remove(&mut self, record_set: &ProxyRecordSet) -> (r: Result<(), RouterError>)
        ensures
            r is Ok <==> !old(self).fail_remove,
            final(self).fail_install == old(self).fail_install,
            final(self).fail_remove == old(self).fail_remove,
    {
        if self.fail_remove {
            return Err(RouterError { message: String::new() });
        }
        self.remove_records(record_set.records());
        Ok(())
    }

    fn remove_old_records(&mut self, record_set: &mut ProxyRecordSet, now: u64)
        -> (r: Result<Vec<ProxyRecord>, RouterError>)
        ensures
            r is Ok <==> !old(self).fail_remove,
            final(self).fail_install == old(self).fail_install,
            final(self).fail_remove == old(self).fail_remove,
    {
        if self.fail_remove {
            return Err(RouterError { message: String::new() });
        }
        let gone = record_set.extract_past_due(now);
        self.remove_records(&gone);
        Ok(gone)
    }

    fn flush(&mut self) -> (r: Result<(), RouterError>)
        ensures
            r is Ok,
            final(self).fail_install == old(self).fail_install,
            final(self).fail_remove == old(self).fail_remove,
    {
        self.rules = Vec::new();
        Ok(())
    }
}

fn addr_eq(a: &IpAddress, b: &IpAddress) -> (r: bool)
    ensures
        r == (a == b),
{
    match (a, b) {
        (IpAddress::V4(x), IpAddress::V4(y)) => x == y,
        (IpAddress::V6(x), IpAddress::V6(y)) => x == y,
        _ => false,
    }
}

/// Whether some routable record of `recs` is mapped to the v4 address `k`.
pub open spec fn has_worthy_key(recs: Seq<ProxyRecord>, k: u32) -> bool {
    exists|i: int| 0 <= i < recs.len() && rule_worthy(#[trigger] recs[i]) && rule_key(recs[i]) == k
}

/// Installation touches only the keys of its own routable records.
pub proof fn lemma_install_routes_frame(m: Map<u32, IpAddress>, recs: Seq<ProxyRecord>, k: u32)
    requires
        !has_worthy_key(recs, k),
    ensures
        install_routes(m, recs).dom().contains(k) == m.dom().contains(k),
        m.dom().contains(k) ==> install_routes(m, recs)[k] == m[k],
    decreases recs.len(),
{
    broadcast use vstd::map::group_map_axioms;

    if recs.len() > 0 {
        let butlast = recs.drop_last();
        assert forall|i: int| 0 <= i < butlast.len() && rule_worthy(#[trigger] butlast[i])
            implies rule_key(butlast[i]) != k by {
            assert(recs[i] == butlast[i]);
        }
        lemma_install_routes_frame(m, butlast, k);
        if rule_worthy(recs.last()) {
            assert(recs[recs.len() - 1] == recs.last());
        }
    }
}

/// Removal touches only the keys of its own routable records.
pub proof fn lemma_remove_routes_frame(m: Map<u32, IpAddress>, recs: Seq<ProxyRecord>, k: u32)
    requires
        !has_worthy_key(recs, k),
    ensures
        remove_routes(m, recs).dom().contains(k) == m.dom().contains(k),
        m.dom().contains(k) ==> remove_routes(m, recs)[k] == m[k],
    decreases recs.len(),
{
    broadcast use vstd::map::group_map_axioms;

    if recs.len() > 0 {
        let butlast = recs.drop_last();
        assert forall|i: int| 0 <= i < butlast.len() && rule_worthy(#[trigger] butlast[i])
            implies rule_key(butlast[i]) != k by {
            assert(recs[i] == butlast[i]);
        }
        lemma_remove_routes_frame(m, butlast, k);
        if rule_worthy(recs.last()) {
            assert(recs[recs.len() - 1] == recs.last());
        }
    }
}

/// After removal, no routable record of `recs` keeps a rule.
pub proof fn lemma_remove_routes_clears(m: Map<u32, IpAddress>, recs: Seq<ProxyRecord>, k: u32)
    requires
        has_worthy_key(recs, k),
    ensures
        !remove_routes(m, recs).dom().contains(k),
    decreases recs.len(),
{
    broadcast use vstd::map::group_map_axioms;

    if recs.len() > 0 {
        let butlast = recs.drop_last();
        let witness = choose|i: int| 0 <= i < recs.len() && rule_worthy(#[trigger] recs[i])
            && rule_key(recs[i]) == k;
        if rule_worthy(recs.last()) && rule_key(recs.last()) == k {
        } else {
            assert(witness < recs.len() - 1);
            assert(butlast[witness] == recs[witness]);
            assert(has_worthy_key(butlast, k));
            lemma_remove_routes_clears(m, butlast, k);
        }
    }
}

/// Installing a record set of live records whose rules are not yet present
/// and then removing it leaves the filter's effective state unchanged.
pub proof fn lemma_install_then_remove_identity(m: Map<u32, IpAddress>, recs: Seq<ProxyRecord>)
    requires
        forall|i: int| 0 <= i < recs.len() ==> #[trigger] recs[i].spec_is_live(),
        forall|i: int| 0 <= i < recs.len() && rule_worthy(#[trigger] recs[i])
            ==> !m.dom().contains(rule_key(recs[i])),
    ensures
        remove_routes(install_routes(m, recs), recs) =~= m,
{
    broadcast use vstd::map::group_map_axioms;

    let installed = install_routes(m, recs);
    let cleared = remove_routes(installed, recs);
    assert forall|k: u32| #[trigger] m.dom().contains(k) implies cleared.dom().contains(k)
        && cleared[k] == m[k] by {
        assert(!has_worthy_key(recs, k));
        lemma_install_routes_frame(m, recs, k);
        lemma_remove_routes_frame(installed, recs, k);
    }
    assert forall|k: u32| #[trigger] cleared.dom().contains(k) implies m.dom().contains(k) by {
        if has_worthy_key(recs, k) {
            lemma_remove_routes_clears(installed, recs, k);
        } else {
            lemma_install_routes_frame(m, recs, k);
            lemma_remove_routes_frame(installed, recs, k);
        }
    }
}

} // verus!
