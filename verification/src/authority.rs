//! The interception authority: the decision engine that classifies a query,
//! answers cache hits from the record store, synthesizes responses for
//! blocked domains out of upstream answers and pool addresses, and keeps
//! the store, the pool and the packet filter consistent.

use vstd::prelude::*;
use vstd::multiset::Multiset;
use vstd::arithmetic::power2::{lemma2_to64, lemma_pow2_adds, lemma_pow2_pos, pow2};
use vstd::arithmetic::div_mod::{lemma_div_pos_is_pos, lemma_fundamental_div_mod, lemma_mod_bound};
use vstd::arithmetic::mul::{
    lemma_mul_inequality, lemma_mul_is_commutative, lemma_mul_is_distributive_add,
    lemma_mul_nonnegative,
};
use crate::domains_set::{blocked_spec, DomainsSet};
use crate::ip::{IpAddress, IpPool, Ipv4Subnet};
use crate::record::{
    lemma_mapped_v4_ms_split_past_due, mapped_v4_ms, push_check, record_conflicts, ProxyRecord,
    ProxyRecordSet, RecordKind, ResponseRecord,
};
use crate::router::{
    install_routes, lemma_install_routes_frame, lemma_remove_routes_clears,
    lemma_remove_routes_frame, remove_routes, rule_key, rule_worthy, Router, RouterError,
};
use crate::storage::{find_index, InnerStorage, StoreEntry};

verus! {

/// The configuration the core consumes, as plain values.
#[derive(Debug)]
pub struct Options {
    pub dns_positive_max_ttl: u64,
    pub dns_negative_max_ttl: u64,
    pub dns_record_lookup_max_ttl: u64,
    pub dns_cleanup_record_after_secs: u64,
    pub dns_cleaner_after_ttl: u64,
    pub dns_cleaner_period: u64,
    pub dns_enable_ipv6_mapping: bool,
    pub dns_enable_ipv6_forward: bool,
    pub dns_mock_router: bool,
    pub dns_mapping_ipv4_subnet: Ipv4Subnet,
}

/// The failures the synthesize path can answer; each one is surfaced to the
/// client as SERVFAIL and leaves the core as if the query had never run.
#[derive(Debug)]
pub enum DnsError {
    PoolExhausted,
    RouterFailure(RouterError),
}

/// What one record of an upstream answer carries.
#[derive(Debug)]
pub enum UpstreamData {
    Ip(IpAddress),
    Cname(String),
    Other,
}

/// One record of an upstream answer, as plain values.
#[derive(Debug)]
pub struct UpstreamRecord {
    pub name: String,
    pub kind: RecordKind,
    pub data: Option<UpstreamData>,
}

impl UpstreamRecord {
    /// An upstream record is usable when it carries data at all.
    pub open spec fn spec_is_usable(&self) -> bool {
        self.data is Some
    }

    #[verifier::when_used_as_spec(spec_is_usable)]
    pub fn is_usable(&self) -> (r: bool)
        ensures
            r == self.spec_is_usable(),
    {
        self.data.is_some()
    }

    /// The address the record carries, if any.
    pub open spec fn spec_ip(&self) -> Option<IpAddress> {
        match self.data {
            Some(UpstreamData::Ip(ip)) => Some(ip),
            _ => None,
        }
    }

    #[verifier::when_used_as_spec(spec_ip)]
    pub fn ip(&self) -> (r: Option<IpAddress>)
        ensures
            r == self.spec_ip(),
    {
        match &self.data {
            Some(UpstreamData::Ip(ip)) => Some(*ip),
            _ => None,
        }
    }

    pub open spec fn spec_cname(&self) -> Option<String> {
        match self.data {
            Some(UpstreamData::Cname(t)) => Some(t),
            _ => None,
        }
    }
}

/// An immutable synthetic response: it is built under the store lock and
/// outlives it.
#[derive(Debug)]
pub struct SyntheticLookup {
    pub name: String,
    pub rtype: RecordKind,
    pub records: Vec<ResponseRecord>,
    pub valid_for: u64,
}

/// What the authority decides for a query.
#[derive(Debug)]
pub enum LookupPlan {
    /// Refuse: an AAAA query while both AAAA mapping and forwarding are off.
    NxDomain,
    /// Hand the query to the upstream resolver untouched.
    Forward,
    /// Answer from the store.
    Response(SyntheticLookup),
    /// Blocked and not cached: resolve upstream, then synthesize.
    Synthesize,
}

/// The synthetic proxy record a CNAME upstream record yields.
pub open spec fn cname_record_of(r: UpstreamRecord) -> ProxyRecord {
    ProxyRecord {
        name: r.name,
        kind: r.kind,
        cname_target: r.spec_cname(),
        original_addr: None,
        mapped_addr: None,
        cleanup_at: None,
    }
}

/// The routable proxy record an address upstream record yields, bound to
/// the synthetic address `mapped`.
pub open spec fn routable_record_of(r: UpstreamRecord, orig: IpAddress, mapped: u32) -> ProxyRecord {
    ProxyRecord {
        name: r.name,
        kind: r.kind,
        cname_target: None,
        original_addr: Some(orig),
        mapped_addr: Some(IpAddress::V4(mapped)),
        cleanup_at: None,
    }
}

/// What walking the upstream records does to the record list and the pool:
/// a CNAME is appended unless a duplicate collides; a record that carries
/// neither data nor an address is dropped; an address record draws the
/// synthetic address at the front of the pool and is appended, the address
/// going back to the front when the record collides; an empty pool stops
/// the walk with failure. Record for record, this is the synthesize step of
/// the authority.
pub open spec fn synth_fold(records: Seq<ProxyRecord>, pool: Seq<u32>, recs: Seq<UpstreamRecord>)
    -> (Seq<ProxyRecord>, Seq<u32>, bool)
    decreases recs.len(),
{
    if recs.len() == 0 {
        (records, pool, true)
    } else {
        let r = recs[0];
        let rest = recs.drop_first();
        if !r.spec_is_usable() {
            synth_fold(records, pool, rest)
        } else if r.kind == RecordKind::Cname {
            let pr = cname_record_of(r);
            if push_check(records, pr) is None {
                synth_fold(records.push(pr), pool, rest)
            } else {
                synth_fold(records, pool, rest)
            }
        } else {
            match r.spec_ip() {
                None => synth_fold(records, pool, rest),
                Some(orig) => {
                    if pool.len() == 0 {
                        (records, pool, false)
                    } else {
                        let pr = routable_record_of(r, orig, pool[0]);
                        if push_check(records, pr) is None {
                            synth_fold(records.push(pr), pool.drop_first(), rest)
                        } else {
                            synth_fold(records, pool, rest)
                        }
                    }
                },
            }
        }
    }
}

/// What one step of the walk does; `synth_fold` is this step iterated.
pub open spec fn synth_step(records: Seq<ProxyRecord>, pool: Seq<u32>, r: UpstreamRecord)
    -> (Seq<ProxyRecord>, Seq<u32>, bool)
{
    if !r.spec_is_usable() {
        (records, pool, true)
    } else if r.kind == RecordKind::Cname {
        let pr = cname_record_of(r);
        if push_check(records, pr) is None {
            (records.push(pr), pool, true)
        } else {
            (records, pool, true)
        }
    } else {
        match r.spec_ip() {
            None => (records, pool, true),
            Some(orig) => {
                if pool.len() == 0 {
                    (records, pool, false)
                } else {
                    let pr = routable_record_of(r, orig, pool[0]);
                    if push_check(records, pr) is None {
                        (records.push(pr), pool.drop_first(), true)
                    } else {
                        (records, pool, true)
                    }
                }
            },
        }
    }
}

/// The walk decomposes around any split of the upstream records, and stops
/// at the first failure.
pub proof fn lemma_synth_fold_concat(
    records: Seq<ProxyRecord>,
    pool: Seq<u32>,
    a: Seq<UpstreamRecord>,
    b: Seq<UpstreamRecord>,
)
    ensures
        synth_fold(records, pool, a + b) == ({
            let (r1, p1, ok) = synth_fold(records, pool, a);
            if ok {
                synth_fold(r1, p1, b)
            } else {
                (r1, p1, false)
            }
        }),
    decreases a.len(),
{
    if a.len() == 0 {
        assert(a + b =~= b);
    } else {
        let ab = a + b;
        assert(ab[0] == a[0]);
        assert(ab.drop_first() =~= a.drop_first() + b);
        let r = a[0];
        let rest = a.drop_first();
        if !r.spec_is_usable() {
            lemma_synth_fold_concat(records, pool, rest, b);
        } else if r.kind == RecordKind::Cname {
            let pr = cname_record_of(r);
            if push_check(records, pr) is None {
                lemma_synth_fold_concat(records.push(pr), pool, rest, b);
            } else {
                lemma_synth_fold_concat(records, pool, rest, b);
            }
        } else {
            match r.spec_ip() {
                None => {
                    lemma_synth_fold_concat(records, pool, rest, b);
                },
                Some(orig) => {
                    if pool.len() > 0 {
                        let pr = routable_record_of(r, orig, pool[0]);
                        if push_check(records, pr) is None {
                            lemma_synth_fold_concat(records.push(pr), pool.drop_first(), rest,
                                b);
                        } else {
                            lemma_synth_fold_concat(records, pool, rest, b);
                        }
                    }
                },
            }
        }
    }
}

/// One record appended to the walk is one step after it.
pub proof fn lemma_synth_fold_snoc(
    records: Seq<ProxyRecord>,
    pool: Seq<u32>,
    a: Seq<UpstreamRecord>,
    x: UpstreamRecord,
)
    ensures
        synth_fold(records, pool, a.push(x)) == ({
            let (r1, p1, ok) = synth_fold(records, pool, a);
            if ok {
                synth_step(r1, p1, x)
            } else {
                (r1, p1, false)
            }
        }),
{
    reveal_with_fuel(synth_fold, 3);
    assert(a.push(x) =~= a + seq![x]);
    lemma_synth_fold_concat(records, pool, a, seq![x]);
    let (r1, p1, ok) = synth_fold(records, pool, a);
    if ok {
        assert(seq![x].drop_first() =~= Seq::<UpstreamRecord>::empty());
        assert(synth_fold(r1, p1, seq![x]) == synth_step(r1, p1, x));
    }
}

/// The mapped v4 addresses of a record sequence, in order.
pub open spec fn mapped_v4_seq(s: Seq<ProxyRecord>) -> Seq<u32>
    decreases s.len(),
{
    if s.len() == 0 {
        Seq::empty()
    } else {
        mapped_v4_seq(s.drop_last()) + (match s.last().mapped_addr {
            Some(IpAddress::V4(v)) => seq![v],
            _ => Seq::<u32>::empty(),
        })
    }
}

/// The mapped addresses of a concatenation are the two parts', in order.
pub proof fn lemma_mapped_v4_seq_concat(a: Seq<ProxyRecord>, b: Seq<ProxyRecord>)
    ensures
        mapped_v4_seq(a + b) == mapped_v4_seq(a) + mapped_v4_seq(b),
    decreases b.len(),
{
    if b.len() == 0 {
        assert(a + b =~= a);
        assert(mapped_v4_seq(a) + mapped_v4_seq(b) =~= mapped_v4_seq(a));
    } else {
        assert((a + b).drop_last() =~= a + b.drop_last());
        assert((a + b).last() == b.last());
        lemma_mapped_v4_seq_concat(a, b.drop_last());
        assert(mapped_v4_seq(a) + mapped_v4_seq(b)
            =~= mapped_v4_seq(a) + mapped_v4_seq(b.drop_last()) + (match b.last().mapped_addr {
            Some(IpAddress::V4(v)) => seq![v],
            _ => Seq::<u32>::empty(),
        }));
    }
}

/// The multiset of bound addresses is the in-order sequence's multiset.
pub proof fn lemma_mapped_v4_ms_is_seq_ms(s: Seq<ProxyRecord>)
    ensures
        mapped_v4_ms(s) == mapped_v4_seq(s).to_multiset(),
    decreases s.len(),
{
    broadcast use vstd::seq_lib::group_to_multiset_ensures;

    if s.len() == 0 {
        assert(mapped_v4_seq(s).to_multiset() =~= Multiset::<u32>::empty());
    } else {
        lemma_mapped_v4_ms_is_seq_ms(s.drop_last());
        match s.last().mapped_addr {
            Some(IpAddress::V4(v)) => {
                assert(mapped_v4_seq(s) =~= mapped_v4_seq(s.drop_last()).push(v));
            },
            _ => {
                assert(mapped_v4_seq(s) =~= mapped_v4_seq(s.drop_last()));
            },
        }
    }
}

/// The walk only appends records; the appended records are live, well
/// shaped, and draw their synthetic addresses in order off the front of the
/// pool, so the new addresses and the remaining pool together are exactly
/// the starting pool.
pub proof fn lemma_synth_fold_effect(
    records: Seq<ProxyRecord>,
    pool: Seq<u32>,
    recs: Seq<UpstreamRecord>,
)
    ensures
        ({
            let (r2, p2, ok) = synth_fold(records, pool, recs);
            &&& r2.len() >= records.len()
            &&& (forall|j: int| 0 <= j < records.len() ==> r2[j] == records[j])
            &&& (forall|j: int| records.len() <= j < r2.len() ==> (#[trigger] r2[j]).spec_is_live()
                && (r2[j].mapped_addr is Some <==> r2[j].original_addr is Some)
                && (r2[j].mapped_addr is Some ==> r2[j].mapped_addr.unwrap() is V4))
            &&& mapped_v4_seq(r2.skip(records.len() as int)) + p2 == pool
        }),
    decreases recs.len(),
{
    let (r2, p2, ok) = synth_fold(records, pool, recs);
    if recs.len() == 0 {
        assert(r2.skip(records.len() as int) =~= Seq::<ProxyRecord>::empty());
        assert(mapped_v4_seq(r2.skip(records.len() as int)) + p2 =~= pool);
    } else {
        let r = recs[0];
        let rest = recs.drop_first();
        if !r.spec_is_usable() {
            lemma_synth_fold_effect(records, pool, rest);
        } else if r.kind == RecordKind::Cname {
            let pr = cname_record_of(r);
            if push_check(records, pr) is None {
                lemma_synth_fold_effect(records.push(pr), pool, rest);
                lemma_synth_fold_extends_one(records, pool, rest, pr, r2, p2);
            } else {
                lemma_synth_fold_effect(records, pool, rest);
            }
        } else {
            match r.spec_ip() {
                None => {
                    lemma_synth_fold_effect(records, pool, rest);
                },
                Some(orig) => {
                    if pool.len() == 0 {
                        assert(r2.skip(records.len() as int) =~= Seq::<ProxyRecord>::empty());
                        assert(mapped_v4_seq(r2.skip(records.len() as int)) + p2 =~= pool);
                    } else {
                        let pr = routable_record_of(r, orig, pool[0]);
                        if push_check(records, pr) is None {
                            lemma_synth_fold_effect(records.push(pr), pool.drop_first(), rest);
                            lemma_synth_fold_extends_one(records, pool.drop_first(), rest, pr,
                                r2, p2);
                            assert(seq![pool[0]] + pool.drop_first() =~= pool);
                        } else {
                            lemma_synth_fold_effect(records, pool, rest);
                        }
                    }
                },
            }
        }
    }
}

/// Recasts the new-records decomposition after one record was pushed.
proof fn lemma_synth_fold_extends_one(
    records: Seq<ProxyRecord>,
    pool1: Seq<u32>,
    rest: Seq<UpstreamRecord>,
    pr: ProxyRecord,
    r2: Seq<ProxyRecord>,
    p2: Seq<u32>,
)
    requires
        (r2, p2) == (synth_fold(records.push(pr), pool1, rest).0,
            synth_fold(records.push(pr), pool1, rest).1),
        r2.len() >= records.push(pr).len(),
        forall|j: int| 0 <= j < records.push(pr).len() ==> r2[j] == records.push(pr)[j],
        mapped_v4_seq(r2.skip(records.len() as int + 1)) + p2 == pool1,
    ensures
        mapped_v4_seq(r2.skip(records.len() as int)) + p2 == (match pr.mapped_addr {
            Some(IpAddress::V4(v)) => seq![v] + pool1,
            _ => pool1,
        }),
        forall|j: int| 0 <= j < records.len() ==> r2[j] == records[j],
{
    reveal_with_fuel(mapped_v4_seq, 3);
    assert(r2.skip(records.len() as int) =~= seq![pr] + r2.skip(records.len() as int + 1));
    lemma_mapped_v4_seq_concat(seq![pr], r2.skip(records.len() as int + 1));
    assert(seq![pr].drop_last() =~= Seq::<ProxyRecord>::empty());
    match pr.mapped_addr {
        Some(IpAddress::V4(v)) => {
            assert(mapped_v4_seq(seq![pr]) =~= seq![v]);
            assert(mapped_v4_seq(r2.skip(records.len() as int)) + p2
                =~= seq![v] + (mapped_v4_seq(r2.skip(records.len() as int + 1)) + p2));
        },
        _ => {
            assert(mapped_v4_seq(seq![pr]) =~= Seq::<u32>::empty());
            assert(mapped_v4_seq(r2.skip(records.len() as int)) + p2
                =~= mapped_v4_seq(r2.skip(records.len() as int + 1)) + p2);
        },
    }
}

/// The walk never introduces a colliding pair of records.
pub proof fn lemma_synth_fold_wf(
    records: Seq<ProxyRecord>,
    pool: Seq<u32>,
    recs: Seq<UpstreamRecord>,
)
    requires
        forall|i: int, j: int| 0 <= i < j < records.len()
            ==> !record_conflicts(records[i], records[j]),
    ensures
        ({
            let r2 = synth_fold(records, pool, recs).0;
            forall|i: int, j: int| 0 <= i < j < r2.len() ==> !record_conflicts(r2[i], r2[j])
        }),
    decreases recs.len(),
{
    if recs.len() > 0 {
        let r = recs[0];
        let rest = recs.drop_first();
        if !r.spec_is_usable() {
            lemma_synth_fold_wf(records, pool, rest);
            assert(synth_fold(records, pool, recs) == synth_fold(records, pool, rest));
        } else if r.kind == RecordKind::Cname {
            let pr = cname_record_of(r);
            if push_check(records, pr) is None {
                lemma_push_preserves_no_conflicts(records, pr);
                lemma_synth_fold_wf(records.push(pr), pool, rest);
                assert(synth_fold(records, pool, recs)
                    == synth_fold(records.push(pr), pool, rest));
            } else {
                lemma_synth_fold_wf(records, pool, rest);
                assert(synth_fold(records, pool, recs) == synth_fold(records, pool, rest));
            }
        } else {
            match r.spec_ip() {
                None => {
                    lemma_synth_fold_wf(records, pool, rest);
                    assert(synth_fold(records, pool, recs) == synth_fold(records, pool, rest));
                },
                Some(orig) => {
                    if pool.len() > 0 {
                        let pr = routable_record_of(r, orig, pool[0]);
                        if push_check(records, pr) is None {
                            lemma_push_preserves_no_conflicts(records, pr);
                            lemma_synth_fold_wf(records.push(pr), pool.drop_first(), rest);
                            assert(synth_fold(records, pool, recs)
                                == synth_fold(records.push(pr), pool.drop_first(), rest));
                        } else {
                            lemma_synth_fold_wf(records, pool, rest);
                            assert(synth_fold(records, pool, recs)
                                == synth_fold(records, pool, rest));
                        }
                    }
                },
            }
        }
    }
}

proof fn lemma_push_preserves_no_conflicts(records: Seq<ProxyRecord>, pr: ProxyRecord)
    requires
        push_check(records, pr) is None,
        forall|i: int, j: int| 0 <= i < j < records.len()
            ==> !record_conflicts(records[i], records[j]),
    ensures
        forall|i: int, j: int| 0 <= i < j < records.push(pr).len()
            ==> !record_conflicts(records.push(pr)[i], records.push(pr)[j]),
{
    crate::record::lemma_push_check_none_iff_no_conflict(records, pr);
    let s = records.push(pr);
    assert forall|i: int, j: int| 0 <= i < j < s.len() implies !record_conflicts(s[i], s[j]) by {
        if j < s.len() - 1 {
            assert(!record_conflicts(records[i], records[j]));
        } else {
            assert(!record_conflicts(records[i], pr));
        }
    }
}

/// The synthetic addresses bound across the whole store.
pub open spec fn store_mapped(entries: Seq<StoreEntry>) -> Multiset<u32>
    decreases entries.len(),
{
    if entries.len() == 0 {
        Multiset::empty()
    } else {
        store_mapped(entries.drop_last()).add(mapped_v4_ms(entries.last().set.records_seq()))
    }
}

/// Every record of the store is shaped as synthesis shapes them: the two
/// addresses are set together, and a set mapped address is a v4 address
/// drawn from the pool's subnet.
pub open spec fn records_shape_ok(s: Seq<ProxyRecord>) -> bool {
    forall|j: int| 0 <= j < s.len() ==> (((#[trigger] s[j]).mapped_addr is Some
        <==> s[j].original_addr is Some) && (s[j].mapped_addr is Some
        ==> s[j].mapped_addr.unwrap() is V4))
}

/// Every routable record's rule is installed, with the right target.
pub open spec fn routes_complete(entries: Seq<StoreEntry>, routes: Map<u32, IpAddress>) -> bool {
    forall|i: int, j: int| 0 <= i < entries.len()
        && 0 <= j < (#[trigger] entries[i].set.records_seq()).len()
        && rule_worthy(#[trigger] entries[i].set.records_seq()[j])
        ==> routes.contains_pair(rule_key(entries[i].set.records_seq()[j]),
            entries[i].set.records_seq()[j].original_addr.unwrap())
}

/// Every installed rule stands for a record of the store.
pub open spec fn routes_covered(entries: Seq<StoreEntry>, routes: Map<u32, IpAddress>) -> bool {
    forall|k: u32| #[trigger] routes.dom().contains(k) ==> store_mapped(entries).count(k) > 0
}

pub proof fn lemma_store_mapped_push(entries: Seq<StoreEntry>, e: StoreEntry)
    ensures
        store_mapped(entries.push(e))
            == store_mapped(entries).add(mapped_v4_ms(e.set.records_seq())),
{
    assert(entries.push(e).drop_last() =~= entries);
}

/// Replacing one entry's set swaps its contribution.
pub proof fn lemma_store_mapped_update(entries: Seq<StoreEntry>, i: int, e: StoreEntry)
    requires
        0 <= i < entries.len(),
    ensures
        store_mapped(entries.update(i, e)).add(mapped_v4_ms(entries[i].set.records_seq()))
            == store_mapped(entries).add(mapped_v4_ms(e.set.records_seq())),
    decreases entries.len(),
{
    broadcast use vstd::multiset::group_multiset_axioms;

    let u = entries.update(i, e);
    let old_ms = mapped_v4_ms(entries[i].set.records_seq());
    let new_ms = mapped_v4_ms(e.set.records_seq());
    if i == entries.len() - 1 {
        assert(u.drop_last() =~= entries.drop_last());
        assert(u.last() == e);
        assert(store_mapped(u) == store_mapped(entries.drop_last()).add(new_ms));
        assert(store_mapped(entries) == store_mapped(entries.drop_last()).add(old_ms));
        assert forall|k: u32| store_mapped(u).add(old_ms).count(k)
            == store_mapped(entries).add(new_ms).count(k) by {
            assert(store_mapped(u).add(old_ms).count(k)
                == store_mapped(entries.drop_last()).count(k) + new_ms.count(k) + old_ms.count(k));
            assert(store_mapped(entries).add(new_ms).count(k)
                == store_mapped(entries.drop_last()).count(k) + old_ms.count(k) + new_ms.count(k));
        }
        assert(store_mapped(u).add(old_ms) =~= store_mapped(entries).add(new_ms));
    } else {
        assert(u.drop_last() =~= entries.drop_last().update(i, e));
        assert(u.last() == entries.last());
        lemma_store_mapped_update(entries.drop_last(), i, e);
        let tail_ms = mapped_v4_ms(entries.last().set.records_seq());
        assert(entries.drop_last()[i] == entries[i]);
        assert(store_mapped(u) == store_mapped(entries.drop_last().update(i, e)).add(tail_ms));
        assert(store_mapped(entries) == store_mapped(entries.drop_last()).add(tail_ms));
        assert forall|k: u32| store_mapped(u).add(old_ms).count(k)
            == store_mapped(entries).add(new_ms).count(k) by {
            let bl = entries.drop_last();
            assert(store_mapped(bl.update(i, e)).add(old_ms) == store_mapped(bl).add(new_ms));
            assert(store_mapped(bl.update(i, e)).add(old_ms).count(k)
                == store_mapped(bl.update(i, e)).count(k) + old_ms.count(k));
            assert(store_mapped(bl).add(new_ms).count(k)
                == store_mapped(bl).count(k) + new_ms.count(k));
        }
        assert(store_mapped(u).add(old_ms) =~= store_mapped(entries).add(new_ms));
    }
}

/// Dropping one entry takes away its contribution.
pub proof fn lemma_store_mapped_remove(entries: Seq<StoreEntry>, i: int)
    requires
        0 <= i < entries.len(),
    ensures
        store_mapped(entries.remove(i)).add(mapped_v4_ms(entries[i].set.records_seq()))
            == store_mapped(entries),
    decreases entries.len(),
{
    broadcast use vstd::multiset::group_multiset_axioms;

    let u = entries.remove(i);
    let old_ms = mapped_v4_ms(entries[i].set.records_seq());
    if i == entries.len() - 1 {
        assert(u =~= entries.drop_last());
        assert(store_mapped(u).add(old_ms) =~= store_mapped(entries));
    } else {
        assert(u.drop_last() =~= entries.drop_last().remove(i));
        assert(u.last() == entries.last());
        lemma_store_mapped_remove(entries.drop_last(), i);
        let tail_ms = mapped_v4_ms(entries.last().set.records_seq());
        assert(entries.drop_last()[i] == entries[i]);
        assert(store_mapped(u) == store_mapped(entries.drop_last().remove(i)).add(tail_ms));
        assert(store_mapped(entries) == store_mapped(entries.drop_last()).add(tail_ms));
        assert forall|k: u32| store_mapped(u).add(old_ms).count(k)
            == store_mapped(entries).count(k) by {
            let bl = entries.drop_last();
            assert(store_mapped(bl.remove(i)).add(old_ms) == store_mapped(bl));
            assert(store_mapped(bl.remove(i)).add(old_ms).count(k)
                == store_mapped(bl.remove(i)).count(k) + old_ms.count(k));
        }
        assert(store_mapped(u).add(old_ms) =~= store_mapped(entries));
    }
}

/// The store binds at least what any one of its entries binds.
pub proof fn lemma_store_mapped_entry_le(entries: Seq<StoreEntry>, i: int, k: u32)
    requires
        0 <= i < entries.len(),
    ensures
        store_mapped(entries).count(k) >= mapped_v4_ms(entries[i].set.records_seq()).count(k),
    decreases entries.len(),
{
    broadcast use vstd::multiset::group_multiset_axioms;

    if i == entries.len() - 1 {
    } else {
        lemma_store_mapped_entry_le(entries.drop_last(), i, k);
        assert(entries.drop_last()[i] == entries[i]);
    }
}

/// A record bound to a v4 address witnesses the address in the multiset.
pub proof fn lemma_mapped_ms_witness(s: Seq<ProxyRecord>, j: int, v: u32)
    requires
        0 <= j < s.len(),
        s[j].mapped_addr == Some(IpAddress::V4(v)),
    ensures
        mapped_v4_ms(s).count(v) >= 1,
    decreases s.len(),
{
    broadcast use vstd::multiset::group_multiset_axioms;

    if j == s.len() - 1 {
    } else {
        lemma_mapped_ms_witness(s.drop_last(), j, v);
        assert(s.drop_last()[j] == s[j]);
    }
}

/// Installation keeps every rule that was already installed, and adds rules
/// only for its own records' mapped addresses.
pub proof fn lemma_install_routes_monotone(
    m: Map<u32, IpAddress>,
    recs: Seq<ProxyRecord>,
    k: u32,
    v: IpAddress,
)
    requires
        m.contains_pair(k, v),
    ensures
        install_routes(m, recs).contains_pair(k, v),
        install_routes(m, recs).dom().contains(k),
    decreases recs.len(),
{
    broadcast use vstd::map::group_map_axioms;

    if recs.len() > 0 {
        lemma_install_routes_monotone(m, recs.drop_last(), k, v);
    }
}

/// Every live routable record whose rule can be installed ends up installed:
/// either its rule was there already, or its mapped address was unused and
/// the check-then-add inserts it. Mapped addresses must be pairwise distinct.
pub proof fn lemma_install_routes_installs(m: Map<u32, IpAddress>, recs: Seq<ProxyRecord>, j: int)
    requires
        0 <= j < recs.len(),
        rule_worthy(recs[j]),
        recs[j].spec_is_live(),
        forall|a: int, b: int| 0 <= a < b < recs.len() && rule_worthy(#[trigger] recs[a])
            && rule_worthy(#[trigger] recs[b]) ==> rule_key(recs[a]) != rule_key(recs[b]),
        m.contains_pair(rule_key(recs[j]), recs[j].original_addr.unwrap())
            || !m.dom().contains(rule_key(recs[j])),
    ensures
        install_routes(m, recs).contains_pair(rule_key(recs[j]),
            recs[j].original_addr.unwrap()),
    decreases recs.len(),
{
    broadcast use vstd::map::group_map_axioms;

    let k = rule_key(recs[j]);
    let v = recs[j].original_addr.unwrap();
    let butlast = recs.drop_last();
    let m1 = install_routes(m, butlast);
    if j == recs.len() - 1 {
        if m.contains_pair(k, v) {
            lemma_install_routes_monotone(m, butlast, k, v);
        } else {
            assert forall|a: int| 0 <= a < butlast.len() && rule_worthy(#[trigger] butlast[a])
                implies rule_key(butlast[a]) != k by {
                assert(butlast[a] == recs[a]);
            }
            lemma_install_routes_frame(m, butlast, k);
        }
    } else {
        assert forall|a: int, b: int| 0 <= a < b < butlast.len()
            && rule_worthy(#[trigger] butlast[a]) && rule_worthy(#[trigger] butlast[b])
            implies rule_key(butlast[a]) != rule_key(butlast[b]) by {
            assert(butlast[a] == recs[a] && butlast[b] == recs[b]);
        }
        assert(butlast[j] == recs[j]);
        lemma_install_routes_installs(m, butlast, j);
        if rule_worthy(recs.last()) && recs.last().spec_is_live()
            && !m1.dom().contains(rule_key(recs.last())) {
            assert(recs[recs.len() - 1] == recs.last());
            assert(rule_key(recs.last()) != k);
        }
    }
}

/// The hosts of a well-formed subnet are pairwise distinct.
pub proof fn lemma_hosts_no_dup(subnet: Ipv4Subnet)
    requires
        subnet.wf(),
    ensures
        subnet.hosts_seq().no_duplicates(),
        forall|k: u32| #[trigger] subnet.hosts_seq().to_multiset().count(k) <= 1,
{
    broadcast use vstd::seq_lib::group_to_multiset_ensures;

    let hosts = subnet.hosts_seq();
    lemma_subnet_bounds(subnet);
    let n = subnet.network();
    assert forall|i: int, j: int| 0 <= i < j < hosts.len() implies hosts[i] != hosts[j] by {
        if subnet.prefix == 31 {
            assert(subnet.block_size() == 2) by {
                vstd::arithmetic::power2::lemma2_to64();
            }
            assert(0 <= n && n + 2 <= 0x1_0000_0000);
            assert((n as u32) as int == n);
            assert(((n + 1) as u32) as int == n + 1);
        } else if subnet.prefix <= 30 {
            assert(subnet.block_size() >= 4) by {
                vstd::arithmetic::power2::lemma_pow2_strictly_increases(1,
                    (32 - subnet.prefix) as nat);
                vstd::arithmetic::power2::lemma2_to64();
            }
            assert(hosts[i] == (n + 1 + i) as u32);
            assert(hosts[j] == (n + 1 + j) as u32);
            assert(0 <= n + 1 + i < 0x1_0000_0000);
            assert(0 <= n + 1 + j < 0x1_0000_0000);
            assert(((n + 1 + i) as u32) as int == n + 1 + i);
            assert(((n + 1 + j) as u32) as int == n + 1 + j);
        }
    }
    hosts.lemma_multiset_has_no_duplicates();
    assert forall|k: u32| #[trigger] hosts.to_multiset().count(k) <= 1 by {
        if hosts.to_multiset().count(k) > 0 {
            assert(hosts.contains(k));
        } else {
            assert(hosts.to_multiset().count(k) == 0);
        }
    }
}

/// The span of a well-formed subnet stays within the address space: the
/// network is a multiple of the block size and the last address of the
/// block is representable.
proof fn lemma_subnet_bounds(subnet: Ipv4Subnet)
    requires
        subnet.wf(),
    ensures
        0 <= subnet.network(),
        subnet.network() + subnet.block_size() <= 0x1_0000_0000,
{
    let p = subnet.prefix as nat;
    let b = subnet.block_size() as int;
    let a = subnet.addr as int;
    lemma_pow2_pos((32 - subnet.prefix) as nat);
    lemma_pow2_pos(p);
    lemma_pow2_adds(p, (32 - subnet.prefix) as nat);
    lemma2_to64();
    assert(pow2(32) == 0x1_0000_0000);
    assert(pow2(p) * b == 0x1_0000_0000);
    lemma_fundamental_div_mod(a, b);
    lemma_mod_bound(a, b);
    let q = a / b;
    lemma_div_pos_is_pos(a, b);
    assert(a == q * b + a % b);
    assert(q * b <= a);
    assert(subnet.network() == q * b);
    lemma_mul_nonnegative(q, b);
    assert(q < pow2(p) as int) by (nonlinear_arith)
        requires
            q * b <= a,
            a < 0x1_0000_0000,
            pow2(p) as int * b == 0x1_0000_0000,
            b > 0,
            q >= 0,
    {
    }
    assert(q * b + b <= 0x1_0000_0000) by (nonlinear_arith)
        requires
            q + 1 <= pow2(p) as int,
            pow2(p) as int * b == 0x1_0000_0000,
            b > 0,
    {
    }
}

/// Whether the upstream answer carries the address `ip`.
pub open spec fn upstream_has_ip(recs: Seq<UpstreamRecord>, ip: IpAddress) -> bool {
    exists|k: int| 0 <= k < recs.len() && (#[trigger] recs[k]).spec_is_usable()
        && recs[k].spec_ip() == Some(ip)
}

/// What re-resolution does to one existing record: a record whose original
/// address is still answered upstream comes back to life, one whose address
/// vanished is marked for cleanup, and a record without an original address
/// is left alone.
pub open spec fn mark_one(r: ProxyRecord, ups: Seq<UpstreamRecord>, now: u64, after: u64)
    -> ProxyRecord {
    if r.original_addr is Some {
        if upstream_has_ip(ups, r.original_addr.unwrap()) {
            ProxyRecord { cleanup_at: None, ..r }
        } else {
            ProxyRecord { cleanup_at: Some(crate::record::spec_saturating_add(now, after)), ..r }
        }
    } else {
        r
    }
}

/// The marking pass over a whole record list.
pub open spec fn mark_pass(s: Seq<ProxyRecord>, ups: Seq<UpstreamRecord>, now: u64, after: u64)
    -> Seq<ProxyRecord> {
    Seq::new(s.len(), |j: int| mark_one(s[j], ups, now, after))
}

/// Marking changes only the soft-delete instants: addresses, kinds and
/// targets stay, so collisions and bound addresses stay.
pub proof fn lemma_mark_pass_preserves(s: Seq<ProxyRecord>, ups: Seq<UpstreamRecord>, now: u64, after: u64)
    ensures
        ({
            let m = mark_pass(s, ups, now, after);
            &&& m.len() == s.len()
            &&& (forall|j: int| 0 <= j < s.len() ==> (#[trigger] m[j]).original_addr
                == s[j].original_addr && m[j].mapped_addr == s[j].mapped_addr
                && m[j].kind == s[j].kind && m[j].cname_target == s[j].cname_target
                && m[j].name == s[j].name)
            &&& mapped_v4_ms(m) == mapped_v4_ms(s)
            &&& ((forall|i: int, j: int| 0 <= i < j < s.len()
                ==> !record_conflicts(s[i], s[j]))
                ==> (forall|i: int, j: int| 0 <= i < j < m.len()
                    ==> !record_conflicts(m[i], m[j])))
            &&& (records_shape_ok(s) ==> records_shape_ok(m))
        }),
{
    let m = mark_pass(s, ups, now, after);
    crate::record::lemma_mapped_v4_ms_pointwise(s, m);
    if forall|i: int, j: int| 0 <= i < j < s.len() ==> !record_conflicts(s[i], s[j]) {
        assert forall|i: int, j: int| 0 <= i < j < m.len() implies
            !record_conflicts(m[i], m[j]) by {
            assert(!record_conflicts(s[i], s[j]));
        }
    }
}

fn addr_equal(a: &IpAddress, b: &IpAddress) -> (r: bool)
    ensures
        r == (a == b),
{
    match (a, b) {
        (IpAddress::V4(x), IpAddress::V4(y)) => x == y,
        (IpAddress::V6(x), IpAddress::V6(y)) => x == y,
        _ => false,
    }
}

fn upstream_contains_ip(upstream: &Vec<UpstreamRecord>, ip: &IpAddress) -> (r: bool)
    ensures
        r == upstream_has_ip(upstream@, *ip),
{
    let mut k: usize = 0;
    while k < upstream.len()
        invariant
            k <= upstream@.len(),
            forall|j: int| 0 <= j < k ==> !((#[trigger] upstream@[j]).spec_is_usable()
                && upstream@[j].spec_ip() == Some(*ip)),
        decreases upstream@.len() - k,
    {
        let rec = &upstream[k];
        if rec.is_usable() {
            match rec.ip() {
                Some(found) => {
                    if addr_equal(&found, ip) {
                        return true;
                    }
                },
                None => {},
            }
        }
        k = k + 1;
    }
    false
}

/// How one synthesize (or update) step re-establishes the joint invariant:
/// starting from a conserving, rule-complete store, walking an upstream
/// answer over a base record list whose bound addresses are the replaced
/// entry's (or none, for a fresh entry) and installing the result keeps the
/// pool, the store and the filter consistent.
#[verifier::rlimit(60)]
proof fn lemma_inv_after_synth(
    entries0: Seq<StoreEntry>,
    pool0: Seq<u32>,
    routes0: Map<u32, IpAddress>,
    subnet: Ipv4Subnet,
    base: Seq<ProxyRecord>,
    ups: Seq<UpstreamRecord>,
    entries1: Seq<StoreEntry>,
    routes1: Map<u32, IpAddress>,
    i_opt: Option<int>,
)
    requires
        subnet.wf(),
        forall|i: int| 0 <= i < entries0.len() ==> (#[trigger] entries0[i]).set.wf(),
        forall|i: int| 0 <= i < entries0.len()
            ==> records_shape_ok((#[trigger] entries0[i]).set.records_seq()),
        pool0.to_multiset().add(store_mapped(entries0)) == subnet.hosts_seq().to_multiset(),
        routes_complete(entries0, routes0),
        routes_covered(entries0, routes0),
        synth_fold(base, pool0, ups).2 == true,
        routes1 == install_routes(routes0, synth_fold(base, pool0, ups).0),
        match i_opt {
            Some(i) => {
                let oldrecs = entries0[i].set.records_seq();
                &&& 0 <= i < entries0.len()
                &&& base.len() == oldrecs.len()
                &&& (forall|j: int| 0 <= j < base.len() ==> (#[trigger] base[j]).original_addr
                    == oldrecs[j].original_addr && base[j].mapped_addr == oldrecs[j].mapped_addr
                    && base[j].kind == oldrecs[j].kind
                    && base[j].cname_target == oldrecs[j].cname_target)
                &&& entries1.len() == entries0.len()
                &&& entries1[i].set.records_seq() == synth_fold(base, pool0, ups).0
                &&& (forall|k: int| 0 <= k < entries0.len() && k != i
                    ==> entries1[k] == entries0[k])
            },
            None => {
                &&& base == Seq::<ProxyRecord>::empty()
                &&& entries1.len() == entries0.len() + 1
                &&& entries1.last().set.records_seq() == synth_fold(base, pool0, ups).0
                &&& (forall|k: int| 0 <= k < entries0.len() ==> entries1[k] == entries0[k])
            },
        },
    ensures
        forall|i: int| 0 <= i < entries1.len() ==> (#[trigger] entries1[i]).set.wf(),
        forall|i: int| 0 <= i < entries1.len()
            ==> records_shape_ok((#[trigger] entries1[i]).set.records_seq()),
        synth_fold(base, pool0, ups).1.to_multiset().add(store_mapped(entries1))
            == subnet.hosts_seq().to_multiset(),
        routes_complete(entries1, routes1),
        routes_covered(entries1, routes1),
{
    broadcast use vstd::multiset::group_multiset_axioms;
    broadcast use vstd::map::group_map_axioms;

    let (recs2, pool2, ok) = synth_fold(base, pool0, ups);
    let bl = base.len() as int;
    let ti = match i_opt {
        Some(i) => i,
        None => entries0.len() as int,
    };
    let oldms = match i_opt {
        Some(i) => mapped_v4_ms(entries0[i].set.records_seq()),
        None => Multiset::<u32>::empty(),
    };

    // base is well formed and well shaped.
    if i_opt is Some {
        let i = i_opt.unwrap();
        let oldrecs = entries0[i].set.records_seq();
        assert(entries0[i].set.wf());
        assert forall|a: int, b: int| 0 <= a < b < base.len() implies
            !record_conflicts(base[a], base[b]) by {
            assert(!record_conflicts(oldrecs[a], oldrecs[b]));
        }
        assert(records_shape_ok(base)) by {
            assert(records_shape_ok(oldrecs));
            assert forall|j: int| 0 <= j < base.len() implies
                ((#[trigger] base[j]).mapped_addr is Some <==> base[j].original_addr is Some)
                && (base[j].mapped_addr is Some ==> base[j].mapped_addr.unwrap() is V4) by {
                assert(oldrecs[j].mapped_addr is Some <==> oldrecs[j].original_addr is Some);
            }
        }
        crate::record::lemma_mapped_v4_ms_pointwise(oldrecs, base);
    }

    lemma_synth_fold_effect(base, pool0, ups);
    lemma_synth_fold_wf(base, pool0, ups);
    lemma_hosts_no_dup(subnet);

    let newpart = recs2.skip(bl);
    assert(recs2 =~= base + newpart);

    // multiset bookkeeping
    lemma_mapped_v4_seq_concat(base, newpart);
    lemma_mapped_v4_ms_is_seq_ms(recs2);
    lemma_mapped_v4_ms_is_seq_ms(base);
    lemma_mapped_v4_ms_is_seq_ms(newpart);
    assert(mapped_v4_seq(recs2).to_multiset()
        == mapped_v4_seq(base).to_multiset().add(mapped_v4_seq(newpart).to_multiset())) by {
        vstd::seq_lib::lemma_multiset_commutative(mapped_v4_seq(base), mapped_v4_seq(newpart));
        assert(mapped_v4_seq(recs2) == mapped_v4_seq(base) + mapped_v4_seq(newpart));
    }
    let newms = mapped_v4_ms(newpart);
    assert(mapped_v4_ms(recs2) == mapped_v4_ms(base).add(newms));
    assert(pool0.to_multiset() == newms.add(pool2.to_multiset())) by {
        vstd::seq_lib::lemma_multiset_commutative(mapped_v4_seq(newpart), pool2);
        assert(mapped_v4_seq(newpart) + pool2 == pool0);
    }

    // store relation
    if i_opt is Some {
        let i = i_opt.unwrap();
        assert(entries1 =~= entries0.update(i, entries1[i]));
        lemma_store_mapped_update(entries0, i, entries1[i]);
        assert(store_mapped(entries1).add(oldms)
            == store_mapped(entries0).add(mapped_v4_ms(recs2)));
        assert(mapped_v4_ms(base) == oldms);
        assert forall|k: u32| #[trigger] store_mapped(entries1).count(k)
            == store_mapped(entries0).count(k) + newms.count(k) by {
            assert(store_mapped(entries1).add(oldms).count(k)
                == store_mapped(entries1).count(k) + oldms.count(k));
            assert(store_mapped(entries0).add(mapped_v4_ms(recs2)).count(k)
                == store_mapped(entries0).count(k) + mapped_v4_ms(base).count(k)
                    + newms.count(k));
        }
    } else {
        assert(entries1 =~= entries0.push(entries1.last()));
        lemma_store_mapped_push(entries0, entries1.last());
        assert(mapped_v4_ms(base) =~= Multiset::<u32>::empty());
        assert forall|k: u32| #[trigger] store_mapped(entries1).count(k)
            == store_mapped(entries0).count(k) + newms.count(k) by {
            assert(mapped_v4_ms(recs2).count(k) == mapped_v4_ms(base).count(k) + newms.count(k));
        }
    }

    // conservation
    assert(pool2.to_multiset().add(store_mapped(entries1))
        =~= subnet.hosts_seq().to_multiset()) by {
        assert forall|k: u32| #[trigger] pool2.to_multiset().add(store_mapped(entries1)).count(k)
            == subnet.hosts_seq().to_multiset().count(k) by {
            assert(pool0.to_multiset().count(k) == newms.count(k) + pool2.to_multiset().count(k));
            assert(pool0.to_multiset().add(store_mapped(entries0)).count(k)
                == subnet.hosts_seq().to_multiset().count(k));
        }
    }

    // well-formedness and shape of the new store
    assert forall|i: int| 0 <= i < entries1.len() implies (#[trigger] entries1[i]).set.wf()
        && records_shape_ok(entries1[i].set.records_seq()) by {
        if i == ti {
            assert(entries1[i].set.records_seq() == recs2);
            assert forall|j: int| 0 <= j < recs2.len() implies
                (((#[trigger] recs2[j]).mapped_addr is Some <==> recs2[j].original_addr is Some)
                && (recs2[j].mapped_addr is Some ==> recs2[j].mapped_addr.unwrap() is V4)) by {
                if j < bl {
                    assert(recs2[j] == base[j]);
                    assert(records_shape_ok(base));
                }
            }
        } else {
            assert(entries1[i] == entries0[i]);
        }
    }

    // new records' rules can be installed: their addresses come off the pool
    assert forall|j: int| bl <= j < recs2.len() && rule_worthy(#[trigger] recs2[j]) implies
        !routes0.dom().contains(rule_key(recs2[j])) by {
        let k = rule_key(recs2[j]);
        assert(recs2[j].mapped_addr == Some(IpAddress::V4(k)));
        assert(newpart[j - bl] == recs2[j]);
        lemma_mapped_ms_witness(newpart, j - bl, k);
        assert(pool0.to_multiset().count(k) >= 1);
        assert(subnet.hosts_seq().to_multiset().count(k) <= 1);
        assert(pool0.to_multiset().add(store_mapped(entries0)).count(k)
            == subnet.hosts_seq().to_multiset().count(k));
        assert(store_mapped(entries0).count(k) == 0);
        if routes0.dom().contains(k) {
            assert(store_mapped(entries0).count(k) > 0);
        }
    }

    // worthy records of the walked list carry pairwise distinct keys
    assert forall|a: int, b: int| 0 <= a < b < recs2.len() && rule_worthy(#[trigger] recs2[a])
        && rule_worthy(#[trigger] recs2[b]) implies rule_key(recs2[a]) != rule_key(recs2[b]) by {
        assert(!record_conflicts(recs2[a], recs2[b]));
    }

    // completeness
    assert forall|i2: int, j2: int| 0 <= i2 < entries1.len()
        && 0 <= j2 < (#[trigger] entries1[i2].set.records_seq()).len()
        && rule_worthy(#[trigger] entries1[i2].set.records_seq()[j2]) implies
        routes1.contains_pair(rule_key(entries1[i2].set.records_seq()[j2]),
            entries1[i2].set.records_seq()[j2].original_addr.unwrap()) by {
        let rec = entries1[i2].set.records_seq()[j2];
        if i2 == ti {
            assert(entries1[i2].set.records_seq() == recs2);
            if j2 < bl {
                let i0 = i_opt.unwrap();
                let oldrec = entries0[i0].set.records_seq()[j2];
                assert(base[j2] == recs2[j2]);
                assert(rule_worthy(oldrec) && rule_key(oldrec) == rule_key(rec)
                    && oldrec.original_addr == rec.original_addr);
                assert(routes0.contains_pair(rule_key(rec), rec.original_addr.unwrap()));
                lemma_install_routes_monotone(routes0, recs2, rule_key(rec),
                    rec.original_addr.unwrap());
            } else {
                assert(recs2[j2].spec_is_live());
                lemma_install_routes_installs(routes0, recs2, j2);
            }
        } else {
            assert(entries1[i2] == entries0[i2]);
            assert(routes0.contains_pair(rule_key(rec), rec.original_addr.unwrap()));
            lemma_install_routes_monotone(routes0, recs2, rule_key(rec),
                rec.original_addr.unwrap());
        }
    }

    // coverage
    assert forall|k: u32| #[trigger] routes1.dom().contains(k) implies
        store_mapped(entries1).count(k) > 0 by {
        if crate::router::has_worthy_key(recs2, k) {
            let j = choose|j: int| 0 <= j < recs2.len() && rule_worthy(#[trigger] recs2[j])
                && rule_key(recs2[j]) == k;
            assert(recs2[j].mapped_addr == Some(IpAddress::V4(k)));
            lemma_mapped_ms_witness(recs2, j, k);
            lemma_store_mapped_entry_le(entries1, ti, k);
            assert(entries1[ti].set.records_seq() == recs2);
        } else {
            lemma_install_routes_frame(routes0, recs2, k);
            assert(routes0.dom().contains(k));
            assert(store_mapped(entries0).count(k) > 0);
            assert(store_mapped(entries1).count(k)
                == store_mapped(entries0).count(k) + newms.count(k));
        }
    }
}

/// An address bound in the multiset is bound by some record.
pub proof fn lemma_mapped_ms_elem(s: Seq<ProxyRecord>, k: u32)
    requires
        mapped_v4_ms(s).count(k) >= 1,
    ensures
        exists|j: int| 0 <= j < s.len() && (#[trigger] s[j]).mapped_addr
            == Some(IpAddress::V4(k)),
    decreases s.len(),
{
    broadcast use vstd::multiset::group_multiset_axioms;

    if s.len() > 0 {
        match s.last().mapped_addr {
            Some(IpAddress::V4(v)) => {
                if v == k {
                    assert(s[s.len() - 1].mapped_addr == Some(IpAddress::V4(k)));
                } else {
                    lemma_mapped_ms_elem(s.drop_last(), k);
                    let j = choose|j: int| 0 <= j < s.drop_last().len()
                        && (#[trigger] s.drop_last()[j]).mapped_addr == Some(IpAddress::V4(k));
                    assert(s[j].mapped_addr == Some(IpAddress::V4(k)));
                }
            },
            _ => {
                lemma_mapped_ms_elem(s.drop_last(), k);
                let j = choose|j: int| 0 <= j < s.drop_last().len()
                    && (#[trigger] s.drop_last()[j]).mapped_addr == Some(IpAddress::V4(k));
                assert(s[j].mapped_addr == Some(IpAddress::V4(k)));
            },
        }
    }
}

/// The store binds at least what two distinct entries bind together.
pub proof fn lemma_store_mapped_two(entries: Seq<StoreEntry>, i: int, j: int, k: u32)
    requires
        0 <= i < entries.len(),
        0 <= j < entries.len(),
        i != j,
    ensures
        store_mapped(entries).count(k) >= mapped_v4_ms(entries[i].set.records_seq()).count(k)
            + mapped_v4_ms(entries[j].set.records_seq()).count(k),
{
    broadcast use vstd::multiset::group_multiset_axioms;

    lemma_store_mapped_remove(entries, i);
    let rest = entries.remove(i);
    let j2 = if j < i { j } else { j - 1 };
    assert(rest[j2] == entries[j]);
    lemma_store_mapped_entry_le(rest, j2, k);
    assert(store_mapped(rest).add(mapped_v4_ms(entries[i].set.records_seq())).count(k)
        == store_mapped(rest).count(k) + mapped_v4_ms(entries[i].set.records_seq()).count(k));
}

/// How one reaper step re-establishes the joint invariant: the rules of the
/// dropped records leave the filter, their addresses return to the pool, and
/// the kept records — whose rules were installed before — stay consistent.
#[verifier::rlimit(60)]
proof fn lemma_inv_after_removal(
    entries0: Seq<StoreEntry>,
    pool0: Seq<u32>,
    routes0: Map<u32, IpAddress>,
    subnet: Ipv4Subnet,
    i: int,
    due: Seq<ProxyRecord>,
    kept: Seq<ProxyRecord>,
    removed: bool,
    entries1: Seq<StoreEntry>,
    pool1: Seq<u32>,
    routes1: Map<u32, IpAddress>,
)
    requires
        subnet.wf(),
        forall|a: int| 0 <= a < entries0.len() ==> (#[trigger] entries0[a]).set.wf(),
        forall|a: int| 0 <= a < entries0.len()
            ==> records_shape_ok((#[trigger] entries0[a]).set.records_seq()),
        pool0.to_multiset().add(store_mapped(entries0)) == subnet.hosts_seq().to_multiset(),
        routes_complete(entries0, routes0),
        routes_covered(entries0, routes0),
        0 <= i < entries0.len(),
        mapped_v4_ms(entries0[i].set.records_seq()) == mapped_v4_ms(due).add(mapped_v4_ms(kept)),
        forall|j: int| 0 <= j < kept.len() && rule_worthy(#[trigger] kept[j])
            ==> routes0.contains_pair(rule_key(kept[j]), kept[j].original_addr.unwrap()),
        forall|a: int, b: int| 0 <= a < b < kept.len() ==> !record_conflicts(kept[a], kept[b]),
        records_shape_ok(kept),
        records_shape_ok(due),
        removed ==> entries1 == entries0.remove(i) && kept == Seq::<ProxyRecord>::empty(),
        !removed ==> entries1.len() == entries0.len()
            && entries1[i].set.records_seq() == kept
            && (forall|a: int| 0 <= a < entries0.len() && a != i
                ==> entries1[a] == entries0[a]),
        routes1 == remove_routes(routes0, due),
        pool1.to_multiset() == pool0.to_multiset().add(mapped_v4_ms(due)),
    ensures
        forall|a: int| 0 <= a < entries1.len() ==> (#[trigger] entries1[a]).set.wf(),
        forall|a: int| 0 <= a < entries1.len()
            ==> records_shape_ok((#[trigger] entries1[a]).set.records_seq()),
        pool1.to_multiset().add(store_mapped(entries1)) == subnet.hosts_seq().to_multiset(),
        routes_complete(entries1, routes1),
        routes_covered(entries1, routes1),
{
    broadcast use vstd::multiset::group_multiset_axioms;
    broadcast use vstd::map::group_map_axioms;

    let oldrecs = entries0[i].set.records_seq();
    let duems = mapped_v4_ms(due);
    let keptms = mapped_v4_ms(kept);
    let oldms = mapped_v4_ms(oldrecs);
    lemma_hosts_no_dup(subnet);

    // store relation
    if removed {
        lemma_store_mapped_remove(entries0, i);
    } else {
        assert(entries1 =~= entries0.update(i, entries1[i]));
        lemma_store_mapped_update(entries0, i, entries1[i]);
    }
    assert forall|k: u32| #[trigger] store_mapped(entries1).count(k) + duems.count(k)
        == store_mapped(entries0).count(k) by {
        if removed {
            assert(store_mapped(entries1).add(oldms).count(k)
                == store_mapped(entries1).count(k) + oldms.count(k));
            assert(keptms.count(k) == 0);
        } else {
            assert(store_mapped(entries1).add(oldms)
                == store_mapped(entries0).add(keptms));
            assert(store_mapped(entries1).add(oldms).count(k)
                == store_mapped(entries1).count(k) + duems.count(k) + keptms.count(k));
            assert(store_mapped(entries0).add(keptms).count(k)
                == store_mapped(entries0).count(k) + keptms.count(k));
        }
    }

    // conservation
    assert(pool1.to_multiset().add(store_mapped(entries1))
        =~= subnet.hosts_seq().to_multiset()) by {
        assert forall|k: u32| #[trigger] pool1.to_multiset().add(store_mapped(entries1)).count(k)
            == subnet.hosts_seq().to_multiset().count(k) by {
            assert(pool0.to_multiset().add(store_mapped(entries0)).count(k)
                == subnet.hosts_seq().to_multiset().count(k));
        }
    }

    // wf and shape
    assert forall|a: int| 0 <= a < entries1.len() implies (#[trigger] entries1[a]).set.wf()
        && records_shape_ok(entries1[a].set.records_seq()) by {
        if removed {
            let oa = if a < i { a } else { a + 1 };
            assert(entries1[a] == entries0[oa]);
        } else if a == i {
            assert(entries1[a].set.records_seq() == kept);
        } else {
            assert(entries1[a] == entries0[a]);
        }
    }

    // a key bound by a record outside the dropped ones is not a dropped key
    assert forall|k: u32| store_mapped(entries1).count(k) >= 1 implies
        !crate::router::has_worthy_key(due, k) by {
        if crate::router::has_worthy_key(due, k) {
            let j = choose|j: int| 0 <= j < due.len() && rule_worthy(#[trigger] due[j])
                && rule_key(due[j]) == k;
            assert(due[j].mapped_addr == Some(IpAddress::V4(k)));
            lemma_mapped_ms_witness(due, j, k);
            assert(store_mapped(entries0).count(k)
                == store_mapped(entries1).count(k) + duems.count(k));
            assert(store_mapped(entries0).count(k) >= 2);
            assert(pool0.to_multiset().add(store_mapped(entries0)).count(k) >= 2);
            assert(subnet.hosts_seq().to_multiset().count(k) <= 1);
        }
    }

    // completeness
    assert forall|i2: int, j2: int| 0 <= i2 < entries1.len()
        && 0 <= j2 < (#[trigger] entries1[i2].set.records_seq()).len()
        && rule_worthy(#[trigger] entries1[i2].set.records_seq()[j2]) implies
        routes1.contains_pair(rule_key(entries1[i2].set.records_seq()[j2]),
            entries1[i2].set.records_seq()[j2].original_addr.unwrap()) by {
        let rec = entries1[i2].set.records_seq()[j2];
        let k = rule_key(rec);
        assert(rec.mapped_addr == Some(IpAddress::V4(k)));
        assert(routes0.contains_pair(k, rec.original_addr.unwrap())) by {
            if removed {
                let oa = if i2 < i { i2 } else { i2 + 1 };
                assert(entries1[i2] == entries0[oa]);
            } else if i2 == i {
            } else {
                assert(entries1[i2] == entries0[i2]);
            }
        }
        assert(!crate::router::has_worthy_key(due, k)) by {
            lemma_mapped_ms_witness(entries1[i2].set.records_seq(), j2, k);
            lemma_store_mapped_entry_le(entries1, i2, k);
        }
        lemma_remove_routes_frame(routes0, due, k);
    }

    // coverage
    assert forall|k: u32| #[trigger] routes1.dom().contains(k) implies
        store_mapped(entries1).count(k) > 0 by {
        if crate::router::has_worthy_key(due, k) {
            lemma_remove_routes_clears(routes0, due, k);
        } else {
            lemma_remove_routes_frame(routes0, due, k);
            assert(routes0.dom().contains(k));
            assert(store_mapped(entries0).count(k) > 0);
            assert(duems.count(k) == 0) by {
                if duems.count(k) >= 1 {
                    lemma_mapped_ms_elem(due, k);
                    let j = choose|j: int| 0 <= j < due.len()
                        && (#[trigger] due[j]).mapped_addr == Some(IpAddress::V4(k));
                    assert(rule_worthy(due[j]) && rule_key(due[j]) == k);
                }
            }
            assert(store_mapped(entries1).count(k)
                == store_mapped(entries0).count(k) - duems.count(k));
        }
    }
}

/// The reaper-facing form of the removal lemma: the dropped records are
/// either a whole entry's or the past-due part of one, and the side
/// conditions follow from the store's invariant.
pub proof fn lemma_inv_after_removal_public(
    entries0: Seq<StoreEntry>,
    pool0: Seq<u32>,
    routes0: Map<u32, IpAddress>,
    subnet: Ipv4Subnet,
    i: int,
    due: Seq<ProxyRecord>,
    kept: Seq<ProxyRecord>,
    removed: bool,
    entries1: Seq<StoreEntry>,
    pool1: Seq<u32>,
    routes1: Map<u32, IpAddress>,
    now: u64,
)
    requires
        subnet.wf(),
        forall|a: int| 0 <= a < entries0.len() ==> (#[trigger] entries0[a]).set.wf(),
        forall|a: int| 0 <= a < entries0.len()
            ==> records_shape_ok((#[trigger] entries0[a]).set.records_seq()),
        pool0.to_multiset().add(store_mapped(entries0)) == subnet.hosts_seq().to_multiset(),
        routes_complete(entries0, routes0),
        routes_covered(entries0, routes0),
        0 <= i < entries0.len(),
        removed ==> due == entries0[i].set.records_seq() && kept == Seq::<ProxyRecord>::empty()
            && entries1 == entries0.remove(i),
        !removed ==> due == entries0[i].set.records_seq().filter(
            |x: ProxyRecord| x.spec_is_past_due(now))
            && kept == entries0[i].set.records_seq().filter(
                |x: ProxyRecord| !x.spec_is_past_due(now))
            && entries1.len() == entries0.len()
            && entries1[i].set.records_seq() == kept
            && (forall|a: int| 0 <= a < entries0.len() && a != i
                ==> entries1[a] == entries0[a]),
        routes1 == remove_routes(routes0, due),
        pool1 == pool0 + mapped_v4_seq(due),
    ensures
        forall|a: int| 0 <= a < entries1.len() ==> (#[trigger] entries1[a]).set.wf(),
        forall|a: int| 0 <= a < entries1.len()
            ==> records_shape_ok((#[trigger] entries1[a]).set.records_seq()),
        pool1.to_multiset().add(store_mapped(entries1)) == subnet.hosts_seq().to_multiset(),
        routes_complete(entries1, routes1),
        routes_covered(entries1, routes1),
        forall|k: u32| pool1.to_multiset().count(k) >= pool0.to_multiset().count(k),
{
    broadcast use vstd::multiset::group_multiset_axioms;

    let oldrecs = entries0[i].set.records_seq();
    // the pool gains exactly the dropped records' bound addresses
    lemma_mapped_v4_ms_is_seq_ms(due);
    vstd::seq_lib::lemma_multiset_commutative(pool0, mapped_v4_seq(due));
    assert(pool1.to_multiset() == pool0.to_multiset().add(mapped_v4_ms(due)));

    if removed {
        assert(mapped_v4_ms(kept) =~= Multiset::<u32>::empty());
        assert(mapped_v4_ms(oldrecs) =~= mapped_v4_ms(due).add(mapped_v4_ms(kept)));
        lemma_inv_after_removal(entries0, pool0, routes0, subnet, i, due, kept, removed,
            entries1, pool1, routes1);
    } else {
        lemma_mapped_v4_ms_split_past_due(oldrecs, now);
        assert(entries0[i].set.wf());
        crate::record::lemma_filter_keeps_wf(oldrecs,
            |x: ProxyRecord| !x.spec_is_past_due(now));
        assert(records_shape_ok(oldrecs));
        assert forall|j: int| 0 <= j < kept.len() implies
            ((((#[trigger] kept[j]).mapped_addr is Some <==> kept[j].original_addr is Some)
            && (kept[j].mapped_addr is Some ==> kept[j].mapped_addr.unwrap() is V4))
            && (rule_worthy(kept[j]) ==> routes0.contains_pair(rule_key(kept[j]),
                kept[j].original_addr.unwrap()))) by {
            crate::record::lemma_filter_elem_from_source(oldrecs,
                |x: ProxyRecord| !x.spec_is_past_due(now), j);
            let j0 = choose|j0: int| 0 <= j0 < oldrecs.len() && oldrecs[j0] == kept[j];
        }
        assert forall|j: int| 0 <= j < due.len() implies
            (((#[trigger] due[j]).mapped_addr is Some <==> due[j].original_addr is Some)
            && (due[j].mapped_addr is Some ==> due[j].mapped_addr.unwrap() is V4)) by {
            crate::record::lemma_filter_elem_from_source(oldrecs,
                |x: ProxyRecord| x.spec_is_past_due(now), j);
            let j0 = choose|j0: int| 0 <= j0 < oldrecs.len() && oldrecs[j0] == due[j];
        }
        lemma_inv_after_removal(entries0, pool0, routes0, subnet, i, due, kept, removed,
            entries1, pool1, routes1);
    }
}

/// How many records of a sequence are routable.
pub open spec fn routable_count(s: Seq<ProxyRecord>) -> nat
    decreases s.len(),
{
    if s.len() == 0 {
        0
    } else {
        routable_count(s.drop_last()) + (if s.last().spec_is_routable() {
            1nat
        } else {
            0nat
        })
    }
}

/// The routable records of the whole store.
pub open spec fn total_routable(entries: Seq<StoreEntry>) -> nat
    decreases entries.len(),
{
    if entries.len() == 0 {
        0
    } else {
        total_routable(entries.drop_last()) + routable_count(entries.last().set.records_seq())
    }
}

/// In a well-shaped record list, the bound v4 addresses are exactly one per
/// routable record.
pub proof fn lemma_mapped_ms_len_is_routable(s: Seq<ProxyRecord>)
    requires
        records_shape_ok(s),
    ensures
        mapped_v4_ms(s).len() == routable_count(s),
    decreases s.len(),
{
    broadcast use vstd::multiset::group_multiset_axioms;

    if s.len() > 0 {
        assert(records_shape_ok(s.drop_last())) by {
            assert forall|j: int| 0 <= j < s.len() - 1 implies
                (((#[trigger] s.drop_last()[j]).mapped_addr is Some
                    <==> s.drop_last()[j].original_addr is Some)
                && (s.drop_last()[j].mapped_addr is Some
                    ==> s.drop_last()[j].mapped_addr.unwrap() is V4)) by {
                assert(s.drop_last()[j] == s[j]);
            }
        }
        lemma_mapped_ms_len_is_routable(s.drop_last());
        assert(s[s.len() - 1] == s.last());
    }
}

proof fn lemma_store_mapped_len(entries: Seq<StoreEntry>)
    requires
        forall|i: int| 0 <= i < entries.len()
            ==> records_shape_ok((#[trigger] entries[i]).set.records_seq()),
    ensures
        store_mapped(entries).len() == total_routable(entries),
    decreases entries.len(),
{
    broadcast use vstd::multiset::group_multiset_axioms;

    if entries.len() > 0 {
        assert forall|i: int| 0 <= i < entries.len() - 1 implies
            records_shape_ok((#[trigger] entries.drop_last()[i]).set.records_seq()) by {
            assert(entries.drop_last()[i] == entries[i]);
        }
        lemma_store_mapped_len(entries.drop_last());
        assert(entries[entries.len() - 1] == entries.last());
        lemma_mapped_ms_len_is_routable(entries.last().set.records_seq());
    }
}

/// IP conservation: at all times, the free pool and the addresses bound by
/// routable records together are exactly the hosts of the mapping subnet —
/// as a multiset, each host exactly once — so their counts add up to the
/// subnet's host count.
pub proof fn lemma_ip_conservation<R: Router>(a: TrspAuthority<R>)
    requires
        a.inv(),
    ensures
        a.available_ipv4_inner_ips@.to_multiset().add(
            store_mapped(a.inner_storage.entries_seq()))
            == a.mapping_ipv4_subnet.hosts_seq().to_multiset(),
        a.available_ipv4_inner_ips@.len()
            + total_routable(a.inner_storage.entries_seq())
            == a.mapping_ipv4_subnet.host_count(),
{
    broadcast use vstd::multiset::group_multiset_axioms;
    broadcast use vstd::seq_lib::group_to_multiset_ensures;

    lemma_store_mapped_len(a.inner_storage.entries_seq());
    let pool = a.available_ipv4_inner_ips@;
    let store = store_mapped(a.inner_storage.entries_seq());
    let hosts = a.mapping_ipv4_subnet.hosts_seq();
    assert(pool.to_multiset().add(store).len()
        == pool.to_multiset().len() + store.len());
    assert(pool.to_multiset().len() == pool.len());
    assert(hosts.to_multiset().len() == hosts.len());
}

/// No double-booking: within any record set of the store, the live records'
/// original addresses are pairwise distinct, and so are their mapped
/// addresses.
pub proof fn lemma_no_double_booking<R: Router>(a: TrspAuthority<R>, i: int)
    requires
        a.inv(),
        0 <= i < a.inner_storage.entries_seq().len(),
    ensures
        ({
            let recs = a.inner_storage.entries_seq()[i].set.records_seq();
            forall|x: int, y: int| 0 <= x < y < recs.len() && (#[trigger] recs[x]).spec_is_live()
                && (#[trigger] recs[y]).spec_is_live()
                ==> (recs[x].original_addr is Some && recs[y].original_addr is Some
                        ==> recs[x].original_addr != recs[y].original_addr)
                    && (recs[x].mapped_addr is Some && recs[y].mapped_addr is Some
                        ==> recs[x].mapped_addr != recs[y].mapped_addr)
        }),
{
    let recs = a.inner_storage.entries_seq()[i].set.records_seq();
    assert(a.inner_storage.entries_seq()[i].set.wf());
    assert forall|x: int, y: int| 0 <= x < y < recs.len() && (#[trigger] recs[x]).spec_is_live()
        && (#[trigger] recs[y]).spec_is_live() implies
        ((recs[x].original_addr is Some && recs[y].original_addr is Some
            ==> recs[x].original_addr != recs[y].original_addr)
        && (recs[x].mapped_addr is Some && recs[y].mapped_addr is Some
            ==> recs[x].mapped_addr != recs[y].mapped_addr)) by {
        assert(!record_conflicts(recs[x], recs[y]));
    }
}

/// A rule of the store's multiset stands for a concrete record.
proof fn lemma_store_mapped_elem(entries: Seq<StoreEntry>, k: u32)
    requires
        store_mapped(entries).count(k) > 0,
    ensures
        exists|i: int, j: int| 0 <= i < entries.len()
            && 0 <= j < entries[i].set.records_seq().len()
            && #[trigger] entries[i].set.records_seq()[j].mapped_addr == Some(IpAddress::V4(k)),
    decreases entries.len(),
{
    broadcast use vstd::multiset::group_multiset_axioms;

    if entries.len() > 0 {
        if mapped_v4_ms(entries.last().set.records_seq()).count(k) >= 1 {
            lemma_mapped_ms_elem(entries.last().set.records_seq(), k);
            let j = choose|j: int| 0 <= j < entries.last().set.records_seq().len()
                && (#[trigger] entries.last().set.records_seq()[j]).mapped_addr
                    == Some(IpAddress::V4(k));
            assert(entries[entries.len() - 1].set.records_seq()[j].mapped_addr
                == Some(IpAddress::V4(k)));
        } else {
            lemma_store_mapped_elem(entries.drop_last(), k);
            let (i, j) = choose|i: int, j: int| 0 <= i < entries.drop_last().len()
                && 0 <= j < entries.drop_last()[i].set.records_seq().len()
                && #[trigger] entries.drop_last()[i].set.records_seq()[j].mapped_addr
                    == Some(IpAddress::V4(k));
            assert(entries[i].set.records_seq()[j].mapped_addr == Some(IpAddress::V4(k)));
        }
    }
}

/// Route-store parity: every routable record of the store — soft-deleted or
/// not — has exactly the rule mapping its synthetic address to its original
/// address in the filter; and every rule of the filter stands for a record
/// of the store bound to that synthetic address.
pub proof fn lemma_route_store_parity<R: Router>(a: TrspAuthority<R>)
    requires
        a.inv(),
    ensures
        ({
            let entries = a.inner_storage.entries_seq();
            let routes = a.router.routes();
            &&& (forall|i: int, j: int| 0 <= i < entries.len()
                && 0 <= j < (#[trigger] entries[i].set.records_seq()).len()
                && rule_worthy(#[trigger] entries[i].set.records_seq()[j])
                ==> routes.contains_pair(rule_key(entries[i].set.records_seq()[j]),
                    entries[i].set.records_seq()[j].original_addr.unwrap()))
            &&& (forall|k: u32| #[trigger] routes.dom().contains(k)
                ==> exists|i: int, j: int| 0 <= i < entries.len()
                    && 0 <= j < entries[i].set.records_seq().len()
                    && #[trigger] entries[i].set.records_seq()[j].mapped_addr
                        == Some(IpAddress::V4(k)))
        }),
{
    let entries = a.inner_storage.entries_seq();
    let routes = a.router.routes();
    assert forall|k: u32| #[trigger] routes.dom().contains(k) implies
        exists|i: int, j: int| 0 <= i < entries.len()
            && 0 <= j < entries[i].set.records_seq().len()
            && #[trigger] entries[i].set.records_seq()[j].mapped_addr
                == Some(IpAddress::V4(k)) by {
        lemma_store_mapped_elem(entries, k);
    }
}

/// The interception authority. It owns the record store, the pool of
/// synthetic addresses, the packet filter and the blocklist, and maintains
/// their joint invariant.
pub struct TrspAuthority<R: Router> {
    pub domains_set: DomainsSet,
    pub inner_storage: InnerStorage,
    pub mapping_ipv4_subnet: Ipv4Subnet,
    pub available_ipv4_inner_ips: IpPool,
    pub router: R,
    pub max_positive_ttl: u64,
    pub max_negative_ttl: u64,
    pub max_record_lookup_cache_ttl: u64,
    pub cleanup_record_after_secs: u64,
    pub is_ipv6_mapping_enabled: bool,
    pub is_ipv6_forward_enabled: bool,
}

impl<R: Router> TrspAuthority<R> {
    /// The joint invariant: store keys are unique; every record set is
    /// well-formed and well-shaped; the free pool and the bound addresses
    /// together are exactly the hosts of the mapping subnet, each once; and
    /// the filter holds exactly the rules of the store's routable records.
    pub open spec fn inv(self) -> bool {
        let entries = self.inner_storage.entries_seq();
        &&& self.mapping_ipv4_subnet.wf()
        &&& self.inner_storage.keys_unique()
        &&& (forall|i: int| 0 <= i < entries.len()
            ==> (#[trigger] entries[i]).set.wf())
        &&& (forall|i: int| 0 <= i < entries.len()
            ==> records_shape_ok((#[trigger] entries[i]).set.records_seq()))
        &&& self.available_ipv4_inner_ips@.to_multiset().add(store_mapped(entries))
            == self.mapping_ipv4_subnet.hosts_seq().to_multiset()
        &&& routes_complete(entries, self.router.routes())
        &&& routes_covered(entries, self.router.routes())
    }

    /// Builds the authority: an empty store, the pool filled from the
    /// mapping subnet, and a freshly initialized filter. A filter that
    /// fails to initialize is the one construction failure.
    pub fn new(domains_set: DomainsSet, router: R, options: &Options) -> (r: Result<
        TrspAuthority<R>,
        DnsError,
    >)
        requires
            options.dns_mapping_ipv4_subnet.wf(),
            options.dns_mapping_ipv4_subnet.prefix >= 8,
        ensures
            match r {
                Ok(a) => a.inv()
                    && a.inner_storage.entries_seq() == Seq::<StoreEntry>::empty()
                    && a.available_ipv4_inner_ips@
                        == options.dns_mapping_ipv4_subnet.hosts_seq()
                    && a.router.routes() == Map::<u32, IpAddress>::empty()
                    && a.domains_set == domains_set
                    && a.max_positive_ttl == options.dns_positive_max_ttl
                    && a.max_negative_ttl == options.dns_negative_max_ttl
                    && a.max_record_lookup_cache_ttl == options.dns_record_lookup_max_ttl
                    && a.cleanup_record_after_secs == options.dns_cleanup_record_after_secs
                    && a.is_ipv6_mapping_enabled == options.dns_enable_ipv6_mapping
                    && a.is_ipv6_forward_enabled == options.dns_enable_ipv6_forward,
                Err(e) => e is RouterFailure,
            },
    {
        let mut router = router;
        if let Err(e) = router.init() {
            return Err(DnsError::RouterFailure(e));
        }
        let authority = TrspAuthority {
            domains_set,
            inner_storage: InnerStorage::new(),
            mapping_ipv4_subnet: options.dns_mapping_ipv4_subnet,
            available_ipv4_inner_ips: IpPool::for_subnet(&options.dns_mapping_ipv4_subnet),
            router,
            max_positive_ttl: options.dns_positive_max_ttl,
            max_negative_ttl: options.dns_negative_max_ttl,
            max_record_lookup_cache_ttl: options.dns_record_lookup_max_ttl,
            cleanup_record_after_secs: options.dns_cleanup_record_after_secs,
            is_ipv6_mapping_enabled: options.dns_enable_ipv6_mapping,
            is_ipv6_forward_enabled: options.dns_enable_ipv6_forward,
        };
        proof {
            let entries = authority.inner_storage.entries_seq();
            assert(store_mapped(entries) =~= Multiset::<u32>::empty());
            broadcast use vstd::multiset::group_multiset_axioms;
            assert(authority.available_ipv4_inner_ips@.to_multiset().add(store_mapped(entries))
                =~= authority.mapping_ipv4_subnet.hosts_seq().to_multiset());
        }
        Ok(authority)
    }

    /// Builds the synthetic response for a record set: its live records,
    /// each under the recomputed TTL.
    pub fn build_lookup(&self, name: &String, rtype: RecordKind, records_set: &ProxyRecordSet, now: u64)
        -> (r: SyntheticLookup)
        ensures
            r.name@ == name@,
            r.rtype == rtype,
            r.records@ == records_set.response_seq(now),
            r.valid_for == self.max_positive_ttl,
    {
        SyntheticLookup {
            name: name.clone(),
            rtype,
            records: records_set.records_for_response(now),
            valid_for: self.max_positive_ttl,
        }
    }

    /// Whether the store holds a set for the key that is still fresh.
    pub open spec fn fresh_hit(self, name: Seq<char>, rtype: RecordKind, now: u64) -> bool {
        match find_index(self.inner_storage.entries_seq(), name, rtype) {
            Some(i) => self.inner_storage.entries_seq()[i].set.resolved_secs_ago_spec(now)
                <= self.max_record_lookup_cache_ttl,
            None => false,
        }
    }

    /// The cache-hit path: answers from the store when the set for the key
    /// is fresh enough, and reports a miss otherwise. An AAAA query is
    /// refused while AAAA mapping is off.
    pub fn inner_lookup(&self, name: &String, rtype: RecordKind, now: u64)
        -> (r: Option<SyntheticLookup>)
        ensures
            match r {
                Some(lookup) => (rtype != RecordKind::Aaaa || self.is_ipv6_mapping_enabled)
                    && self.fresh_hit(name@, rtype, now)
                    && lookup.name@ == name@ && lookup.rtype == rtype
                    && lookup.records@ == self.inner_storage.entries_seq()[
                        find_index(self.inner_storage.entries_seq(), name@, rtype).unwrap()
                    ].set.response_seq(now)
                    && lookup.valid_for == self.max_positive_ttl,
                None => (rtype == RecordKind::Aaaa && !self.is_ipv6_mapping_enabled)
                    || !self.fresh_hit(name@, rtype, now),
            },
    {
        match rtype {
            RecordKind::Aaaa => {
                if !self.is_ipv6_mapping_enabled {
                    return None;
                }
            },
            _ => {},
        }
        let records_set = match self.inner_storage.find(name, rtype) {
            Some(s) => s,
            None => {
                return None;
            },
        };
        let last_resolved = records_set.resolved_secs_ago(now);
        if last_resolved > self.max_record_lookup_cache_ttl {
            return None;
        }
        proof {
            let entries = self.inner_storage.entries_seq();
            let i = find_index(entries, name@, rtype).unwrap();
            assert(records_set.response_seq(now) =~= entries[i].set.response_seq(now));
        }
        Some(self.build_lookup(name, rtype, &records_set, now))
    }

    /// Walks an upstream answer and appends its records to the set, drawing
    /// a synthetic address off the front of the pool for each address
    /// record; a colliding record is dropped and its address returned to the
    /// front. When the pool runs out mid-walk, every address drawn in this
    /// call is returned to the front in reverse order and the set is
    /// restored: the call then reports exhaustion and has changed nothing.
    fn add_records_to_record_set(
        record_set: &mut ProxyRecordSet,
        upstream: &Vec<UpstreamRecord>,
        available_ipv4s: &mut IpPool,
    ) -> (r: Result<(), DnsError>)
        ensures
            ({
                let (recs2, pool2, ok) = synth_fold(old(record_set).records_seq(),
                    old(available_ipv4s)@, upstream@);
                match r {
                    Ok(()) => ok && final(record_set).records_seq() == recs2
                        && final(available_ipv4s)@ == pool2,
                    Err(e) => e is PoolExhausted && !ok
                        && final(record_set).records_seq() == old(record_set).records_seq()
                        && final(available_ipv4s)@ == old(available_ipv4s)@,
                }
            }),
            final(record_set).domain == old(record_set).domain,
            final(record_set).resolved_at == old(record_set).resolved_at,
            final(record_set).ttl_secs() == old(record_set).ttl_secs(),
    {
        let ghost recs0 = record_set.records_seq();
        let ghost pool0 = available_ipv4s@;
        let orig_len = record_set.records().len();
        let mut i: usize = 0;
        proof {
            assert(upstream@.subrange(0, 0) =~= Seq::<UpstreamRecord>::empty());
        }
        while i < upstream.len()
            invariant
                i <= upstream@.len(),
                orig_len == recs0.len(),
                recs0 == old(record_set).records_seq(),
                pool0 == old(available_ipv4s)@,
                synth_fold(recs0, pool0, upstream@.subrange(0, i as int))
                    == (record_set.records_seq(), available_ipv4s@, true),
                record_set.domain == old(record_set).domain,
                record_set.resolved_at == old(record_set).resolved_at,
                record_set.ttl_secs() == old(record_set).ttl_secs(),
            decreases upstream@.len() - i,
        {
            let ghost prefix = upstream@.subrange(0, i as int);
            let ghost prefix1 = upstream@.subrange(0, i as int + 1);
            let ghost cr = record_set.records_seq();
            let ghost cp = available_ipv4s@;
            proof {
                assert(prefix1 =~= prefix.push(upstream@[i as int]));
                lemma_synth_fold_snoc(recs0, pool0, prefix, upstream@[i as int]);
            }
            let rec = &upstream[i];
            if !rec.is_usable() {
                // dropped: no data at all
            } else if rec.kind.is_cname_kind() {
                let target = match &rec.data {
                    Some(UpstreamData::Cname(t)) => Some(t.clone()),
                    _ => None,
                };
                let pr = ProxyRecord::new(rec.name.clone(), rec.kind, target, None, None);
                proof {
                    assert(pr == cname_record_of(upstream@[i as int]));
                }
                let _pushed = record_set.push(&pr);
            } else {
                match rec.ip() {
                    None => {
                        // dropped: a usable record that carries no address
                    },
                    Some(orig_ip) => {
                        match available_ipv4s.allocate() {
                            None => {
                                proof {
                                    assert(synth_fold(recs0, pool0, prefix1)
                                        == (cr, cp, false));
                                    assert(upstream@ =~= prefix1 + upstream@.subrange(
                                        i as int + 1, upstream@.len() as int));
                                    lemma_synth_fold_concat(recs0, pool0, prefix1,
                                        upstream@.subrange(i as int + 1,
                                            upstream@.len() as int));
                                    lemma_synth_fold_effect(recs0, pool0, prefix);
                                }
                                Self::rollback_allocations(record_set, available_ipv4s,
                                    orig_len);
                                proof {
                                    assert(record_set.records_seq() =~= recs0);
                                }
                                return Err(DnsError::PoolExhausted);
                            },
                            Some(mapped) => {
                                let pr = ProxyRecord::new(rec.name.clone(), rec.kind, None,
                                    Some(orig_ip), Some(IpAddress::V4(mapped)));
                                proof {
                                    assert(pr == routable_record_of(upstream@[i as int],
                                        orig_ip, mapped));
                                }
                                match record_set.push(&pr) {
                                    Ok(_) => {},
                                    Err(_) => {
                                        available_ipv4s.release_front(mapped);
                                        proof {
                                            assert(available_ipv4s@ =~= cp);
                                        }
                                    },
                                }
                            },
                        }
                    },
                }
            }
            i = i + 1;
        }
        proof {
            assert(upstream@.subrange(0, upstream@.len() as int) =~= upstream@);
        }
        Ok(())
    }

    /// Returns the addresses drawn since the set held `orig_len` records to
    /// the front of the pool, newest first, and drops the drawn records.
    fn rollback_allocations(
        record_set: &mut ProxyRecordSet,
        available_ipv4s: &mut IpPool,
        orig_len: usize,
    )
        requires
            orig_len <= old(record_set).records_seq().len(),
        ensures
            final(record_set).records_seq()
                == old(record_set).records_seq().subrange(0, orig_len as int),
            final(available_ipv4s)@ == mapped_v4_seq(old(record_set).records_seq().skip(
                orig_len as int)) + old(available_ipv4s)@,
            final(record_set).domain == old(record_set).domain,
            final(record_set).resolved_at == old(record_set).resolved_at,
            final(record_set).ttl_secs() == old(record_set).ttl_secs(),
    {
        let ghost cur = record_set.records_seq();
        let ghost news = cur.skip(orig_len as int);
        proof {
            assert(news.take(cur.len() - orig_len as int) =~= news);
        }
        let mut j = record_set.records().len();
        while j > orig_len
            invariant
                orig_len <= j <= cur.len(),
                record_set.records_seq() == cur,
                record_set.domain == old(record_set).domain,
                record_set.resolved_at == old(record_set).resolved_at,
                record_set.ttl_secs() == old(record_set).ttl_secs(),
                cur == old(record_set).records_seq(),
                news == cur.skip(orig_len as int),
                mapped_v4_seq(news.take(j - orig_len)) + available_ipv4s@
                    == mapped_v4_seq(news) + old(available_ipv4s)@,
            decreases j,
        {
            let ghost m: int = j - orig_len;
            let ghost pb = available_ipv4s@;
            proof {
                assert(news.take(m).drop_last() =~= news.take(m - 1));
                assert(news.take(m).last() == cur[j - 1]);
            }
            let has_v4 = match record_set.records()[j - 1].mapped_addr {
                Some(IpAddress::V4(_)) => true,
                _ => false,
            };
            if has_v4 {
                let v = match record_set.records()[j - 1].mapped_addr {
                    Some(IpAddress::V4(v)) => v,
                    _ => 0,
                };
                available_ipv4s.release_front(v);
                proof {
                    assert(mapped_v4_seq(news.take(m)) =~= mapped_v4_seq(news.take(m - 1)) + seq![v]);
                    assert(mapped_v4_seq(news.take(m - 1)) + available_ipv4s@
                        =~= mapped_v4_seq(news.take(m)) + pb);
                }
            } else {
                proof {
                    assert(mapped_v4_seq(news.take(m)) =~= mapped_v4_seq(news.take(m - 1)));
                }
            }
            j = j - 1;
        }
        proof {
            assert(news.take(0) =~= Seq::<ProxyRecord>::empty());
            assert(mapped_v4_seq(news.take(0)) =~= Seq::<u32>::empty());
            assert(mapped_v4_seq(news.take(0)) + available_ipv4s@ =~= available_ipv4s@);
        }
        record_set.records.truncate(orig_len);
    }

    /// Applies the re-resolution marking pass to a record set.
    fn apply_cleanup_marks(
        record_set: &mut ProxyRecordSet,
        upstream: &Vec<UpstreamRecord>,
        now: u64,
        after: u64,
    )
        ensures
            final(record_set).records_seq()
                == mark_pass(old(record_set).records_seq(), upstream@, now, after),
            final(record_set).domain == old(record_set).domain,
            final(record_set).resolved_at == old(record_set).resolved_at,
            final(record_set).ttl_secs() == old(record_set).ttl_secs(),
    {
        let ghost orig = record_set.records_seq();
        let mut out: Vec<ProxyRecord> = Vec::new();
        let mut j: usize = 0;
        while j < record_set.records.len()
            invariant
                j <= orig.len(),
                record_set.records_seq() == orig,
                record_set.domain == old(record_set).domain,
                record_set.resolved_at == old(record_set).resolved_at,
                record_set.ttl_secs() == old(record_set).ttl_secs(),
                orig == old(record_set).records_seq(),
                out@.len() == j,
                forall|k: int| 0 <= k < j ==> out@[k] == mark_one(orig[k], upstream@, now, after),
            decreases orig.len() - j,
        {
            let mut rec = record_set.records[j].duplicate();
            let marked = match &rec.original_addr {
                Some(ip) => Some(upstream_contains_ip(upstream, ip)),
                None => None,
            };
            match marked {
                Some(true) => {
                    rec.unmark_for_cleanup();
                },
                Some(false) => {
                    rec.mark_for_cleanup(now, after);
                },
                None => {},
            }
            out.push(rec);
            proof {
                assert(out@.last() == mark_one(orig[j as int], upstream@, now, after));
            }
            j = j + 1;
        }
        record_set.records = out;
        proof {
            assert(record_set.records_seq()
                =~= mark_pass(orig, upstream@, now, after));
        }
    }

    /// The cold-synthesize and update paths: given the upstream answer for a
    /// blocked (name, rtype), builds or refreshes its record set, allocating
    /// one synthetic address per new upstream address, installs the rules,
    /// stores the set, and returns the synthetic response. A failure —
    /// exhausted pool or failing filter — rolls everything back: the core is
    /// left as if the query had never been attempted.
    pub fn add_blocked_domain(
        &mut self,
        name: &String,
        rtype: RecordKind,
        upstream: &Vec<UpstreamRecord>,
        now: u64,
    ) -> (r: Result<SyntheticLookup, DnsError>)
        requires
            old(self).inv(),
        ensures
            final(self).inv(),
            final(self).unchanged_config(*old(self)),
            ({
                let entries0 = old(self).inner_storage.entries_seq();
                let pool0 = old(self).available_ipv4_inner_ips@;
                let fi = find_index(entries0, name@, rtype);
                let base = if fi is Some {
                    mark_pass(entries0[fi.unwrap()].set.records_seq(), upstream@, now,
                        old(self).cleanup_record_after_secs)
                } else {
                    Seq::<ProxyRecord>::empty()
                };
                let (recs2, pool2, ok) = synth_fold(base, pool0, upstream@);
                match r {
                    Ok(lookup) => {
                        let entries1 = final(self).inner_storage.entries_seq();
                        &&& ok
                        &&& final(self).available_ipv4_inner_ips@ == pool2
                        &&& final(self).router.routes()
                            == install_routes(old(self).router.routes(), recs2)
                        &&& (match fi {
                            Some(i) => entries1.len() == entries0.len()
                                && entries1[i].key == entries0[i].key
                                && entries1[i].set.records_seq() == recs2
                                && entries1[i].set.resolved_at == now
                                && entries1[i].set.ttl_secs()
                                    == entries0[i].set.ttl_secs()
                                && (forall|k: int| 0 <= k < entries0.len() && k != i
                                    ==> entries1[k] == entries0[k]),
                            None => entries1.len() == entries0.len() + 1
                                && (forall|k: int| 0 <= k < entries0.len()
                                    ==> entries1[k] == entries0[k])
                                && entries1.last().key.name@ == name@
                                && entries1.last().key.record_type == rtype
                                && entries1.last().set.records_seq() == recs2
                                && entries1.last().set.resolved_at == now
                                && entries1.last().set.ttl_secs()
                                    == old(self).max_record_lookup_cache_ttl
                                && entries1.last().set.domain@ == name@,
                        })
                        &&& lookup.name@ == name@
                        &&& lookup.rtype == rtype
                        &&& lookup.valid_for == old(self).max_positive_ttl
                        &&& lookup.records@ == (match fi {
                            Some(i) => entries1[i].set.response_seq(now),
                            None => entries1.last().set.response_seq(now),
                        })
                    },
                    Err(e) => {
                        &&& (e is PoolExhausted || e is RouterFailure)
                        &&& (e is PoolExhausted ==> !ok)
                        &&& final(self).inner_storage.entries_seq() == entries0
                        &&& final(self).available_ipv4_inner_ips@ == pool0
                        &&& final(self).router.routes() == old(self).router.routes()
                    },
                }
            }),
    {
        let found = self.inner_storage.find(name, rtype);
        match found {
            Some(record_set) => self.update_record(name, rtype, record_set, upstream, now),
            None => {
                let mut record_set = ProxyRecordSet::new(name, now,
                    self.max_record_lookup_cache_ttl);
                self.synthesize_into(name, rtype, record_set, upstream, now)
            },
        }
    }

    /// Re-resolution for a key the store already holds: the found copy's
    /// records are marked against the upstream answer, new addresses are
    /// bound, the rules installed, and the refreshed set stored.
    fn update_record(
        &mut self,
        name: &String,
        rtype: RecordKind,
        record_set: ProxyRecordSet,
        upstream: &Vec<UpstreamRecord>,
        now: u64,
    ) -> (r: Result<SyntheticLookup, DnsError>)
        requires
            old(self).inv(),
            find_index(old(self).inner_storage.entries_seq(), name@, rtype) is Some,
            crate::storage::set_matches(record_set, old(self).inner_storage.entries_seq()[
                find_index(old(self).inner_storage.entries_seq(), name@, rtype).unwrap()
            ].set),
        ensures
            final(self).inv(),
            final(self).unchanged_config(*old(self)),
            ({
                let entries0 = old(self).inner_storage.entries_seq();
                let pool0 = old(self).available_ipv4_inner_ips@;
                let i = find_index(entries0, name@, rtype).unwrap();
                let base = mark_pass(entries0[i].set.records_seq(), upstream@, now,
                    old(self).cleanup_record_after_secs);
                let (recs2, pool2, ok) = synth_fold(base, pool0, upstream@);
                match r {
                    Ok(lookup) => {
                        let entries1 = final(self).inner_storage.entries_seq();
                        &&& ok
                        &&& final(self).available_ipv4_inner_ips@ == pool2
                        &&& final(self).router.routes()
                            == install_routes(old(self).router.routes(), recs2)
                        &&& entries1.len() == entries0.len()
                        &&& entries1[i].key == entries0[i].key
                        &&& entries1[i].set.records_seq() == recs2
                        &&& entries1[i].set.resolved_at == now
                        &&& entries1[i].set.ttl_secs() == entries0[i].set.ttl_secs()
                        &&& (forall|k: int| 0 <= k < entries0.len() && k != i
                            ==> entries1[k] == entries0[k])
                        &&& lookup.name@ == name@
                        &&& lookup.rtype == rtype
                        &&& lookup.valid_for == old(self).max_positive_ttl
                        &&& lookup.records@ == entries1[i].set.response_seq(now)
                    },
                    Err(e) => {
                        &&& (e is PoolExhausted || e is RouterFailure)
                        &&& (e is PoolExhausted ==> !ok)
                        &&& final(self).inner_storage.entries_seq() == entries0
                        &&& final(self).available_ipv4_inner_ips@ == pool0
                        &&& final(self).router.routes() == old(self).router.routes()
                    },
                }
            }),
    {
        let ghost entries0 = self.inner_storage.entries_seq();
        let ghost pool0 = self.available_ipv4_inner_ips@;
        let ghost routes0 = self.router.routes();
        let ghost i = find_index(entries0, name@, rtype).unwrap();

        let mut record_set = record_set;
        record_set.resolved_at = now;
        Self::apply_cleanup_marks(&mut record_set, upstream, now, self.cleanup_record_after_secs);
        let ghost base = record_set.records_seq();
        proof {
            assert(base =~= mark_pass(entries0[i].set.records_seq(), upstream@, now,
                old(self).cleanup_record_after_secs));
        }
        let marked_len = record_set.records().len();
        proof {
            crate::storage::lemma_find_index_properties(entries0, name@, rtype);
        }

        if let Err(e) = Self::add_records_to_record_set(&mut record_set, upstream,
            &mut self.available_ipv4_inner_ips) {
            return Err(e);
        }
        proof {
            lemma_synth_fold_effect(base, pool0, upstream@);
        }

        if let Err(e) = self.router.install(&record_set) {
            Self::rollback_allocations(&mut record_set, &mut self.available_ipv4_inner_ips,
                marked_len);
            return Err(DnsError::RouterFailure(e));
        }

        self.inner_storage.upsert(name, rtype, &record_set);

        proof {
            let oldrecs = entries0[i].set.records_seq();
            let (recs2, pool2, ok) = synth_fold(base, pool0, upstream@);
            let entries1 = self.inner_storage.entries_seq();
            lemma_mark_pass_preserves(oldrecs, upstream@, now,
                old(self).cleanup_record_after_secs);
            lemma_inv_after_synth(entries0, pool0, routes0,
                old(self).mapping_ipv4_subnet, base, upstream@, entries1,
                self.router.routes(), Some(i));
            assert(entries1[i].set.response_seq(now) =~= record_set.response_seq(now));
        }
        Ok(self.build_lookup(name, rtype, &record_set, now))
    }

    /// Cold synthesize for a key the store does not hold yet.
    fn synthesize_into(
        &mut self,
        name: &String,
        rtype: RecordKind,
        record_set: ProxyRecordSet,
        upstream: &Vec<UpstreamRecord>,
        now: u64,
    ) -> (r: Result<SyntheticLookup, DnsError>)
        requires
            old(self).inv(),
            find_index(old(self).inner_storage.entries_seq(), name@, rtype) is None,
            record_set.records_seq() == Seq::<ProxyRecord>::empty(),
            record_set.domain@ == name@,
            record_set.resolved_at == now,
            record_set.ttl_secs() == old(self).max_record_lookup_cache_ttl,
        ensures
            final(self).inv(),
            final(self).unchanged_config(*old(self)),
            ({
                let entries0 = old(self).inner_storage.entries_seq();
                let pool0 = old(self).available_ipv4_inner_ips@;
                let (recs2, pool2, ok) = synth_fold(Seq::<ProxyRecord>::empty(), pool0,
                    upstream@);
                match r {
                    Ok(lookup) => {
                        let entries1 = final(self).inner_storage.entries_seq();
                        &&& ok
                        &&& final(self).available_ipv4_inner_ips@ == pool2
                        &&& final(self).router.routes()
                            == install_routes(old(self).router.routes(), recs2)
                        &&& entries1.len() == entries0.len() + 1
                        &&& (forall|k: int| 0 <= k < entries0.len()
                            ==> entries1[k] == entries0[k])
                        &&& entries1.last().key.name@ == name@
                        &&& entries1.last().key.record_type == rtype
                        &&& entries1.last().set.records_seq() == recs2
                        &&& entries1.last().set.resolved_at == now
                        &&& entries1.last().set.ttl_secs()
                            == old(self).max_record_lookup_cache_ttl
                        &&& entries1.last().set.domain@ == name@
                        &&& lookup.name@ == name@
                        &&& lookup.rtype == rtype
                        &&& lookup.valid_for == old(self).max_positive_ttl
                        &&& lookup.records@ == entries1.last().set.response_seq(now)
                    },
                    Err(e) => {
                        &&& (e is PoolExhausted || e is RouterFailure)
                        &&& (e is PoolExhausted ==> !ok)
                        &&& final(self).inner_storage.entries_seq() == entries0
                        &&& final(self).available_ipv4_inner_ips@ == pool0
                        &&& final(self).router.routes() == old(self).router.routes()
                    },
                }
            }),
    {
        let ghost entries0 = self.inner_storage.entries_seq();
        let ghost pool0 = self.available_ipv4_inner_ips@;
        let ghost routes0 = self.router.routes();
        let ghost base = record_set.records_seq();

        let mut record_set = record_set;
        if let Err(e) = Self::add_records_to_record_set(&mut record_set, upstream,
            &mut self.available_ipv4_inner_ips) {
            return Err(e);
        }

        if let Err(e) = self.router.install(&record_set) {
            Self::rollback_allocations(&mut record_set, &mut self.available_ipv4_inner_ips, 0);
            proof {
                lemma_synth_fold_effect(base, pool0, upstream@);
                assert(record_set.records_seq().skip(0)
                    =~= record_set.records_seq());
            }
            return Err(DnsError::RouterFailure(e));
        }

        self.inner_storage.upsert(name, rtype, &record_set);

        proof {
            let entries1 = self.inner_storage.entries_seq();
            lemma_inv_after_synth(entries0, pool0, routes0,
                old(self).mapping_ipv4_subnet, base, upstream@, entries1,
                self.router.routes(), None);
            assert(entries1.last().set.response_seq(now) =~= record_set.response_seq(now));
        }
        Ok(self.build_lookup(name, rtype, &record_set, now))
    }

    /// Everything of the authority that a query must not change.
    pub open spec fn unchanged_config(self, other: TrspAuthority<R>) -> bool {
        &&& self.domains_set == other.domains_set
        &&& self.mapping_ipv4_subnet == other.mapping_ipv4_subnet
        &&& self.max_positive_ttl == other.max_positive_ttl
        &&& self.max_negative_ttl == other.max_negative_ttl
        &&& self.max_record_lookup_cache_ttl == other.max_record_lookup_cache_ttl
        &&& self.cleanup_record_after_secs == other.cleanup_record_after_secs
        &&& self.is_ipv6_mapping_enabled == other.is_ipv6_mapping_enabled
        &&& self.is_ipv6_forward_enabled == other.is_ipv6_forward_enabled
    }

    /// Classifies a query: refuse a AAAA query while AAAA forwarding is off;
    /// forward a AAAA query while mapping is off; answer a fresh cache hit
    /// from the store; synthesize for a blocked name; forward the rest.
    pub fn lookup(&self, name: &String, rtype: RecordKind, now: u64) -> (r: LookupPlan)
        ensures
            rtype == RecordKind::Aaaa && !self.is_ipv6_forward_enabled ==> r is NxDomain,
            rtype == RecordKind::Aaaa && self.is_ipv6_forward_enabled
                && !self.is_ipv6_mapping_enabled ==> r is Forward,
            (rtype != RecordKind::Aaaa || (self.is_ipv6_forward_enabled
                && self.is_ipv6_mapping_enabled)) ==> {
                if self.fresh_hit(name@, rtype, now) {
                    match r {
                        LookupPlan::Response(lookup) => lookup.name@ == name@
                            && lookup.rtype == rtype
                            && lookup.records@ == self.inner_storage.entries_seq()[
                                find_index(self.inner_storage.entries_seq(), name@,
                                    rtype).unwrap()
                            ].set.response_seq(now)
                            && lookup.valid_for == self.max_positive_ttl,
                        _ => false,
                    }
                } else if blocked_spec(self.domains_set, name@) {
                    r is Synthesize
                } else {
                    r is Forward
                }
            },
    {
        match rtype {
            RecordKind::Aaaa => {
                if !self.is_ipv6_forward_enabled {
                    return LookupPlan::NxDomain;
                }
            },
            _ => {},
        }
        match self.inner_lookup(name, rtype, now) {
            Some(lookup) => LookupPlan::Response(lookup),
            None => {
                if rtype.is_aaaa() && !self.is_ipv6_mapping_enabled {
                    return LookupPlan::Forward;
                }
                if self.domains_set.is_domain_blocked(name.as_str()) {
                    LookupPlan::Synthesize
                } else {
                    LookupPlan::Forward
                }
            },
        }
    }
}

} // verus!
