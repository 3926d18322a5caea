//! The reaper: a periodic pass over the record store that evicts record
//! sets whose last resolution is too old, removes records whose soft-delete
//! instant has passed, and returns the freed synthetic addresses to the
//! pool.

use vstd::prelude::*;
use crate::authority::{
    lemma_inv_after_removal_public, mapped_v4_seq, TrspAuthority,
};
use crate::ip::IpPool;
use crate::record::{lemma_mapped_v4_ms_split_past_due, ProxyRecord};
use crate::router::Router;
use crate::storage::{key_matches, StoreEntry, TRrKey};

verus! {

/// The reaper's configuration: the hard-expiry threshold and the period the
/// runner sleeps between passes.
#[derive(PartialEq, Eq, Structural, Clone, Copy, Debug)]
pub struct Cleaner {
    pub clear_after_ttl: u64,
    pub clear_period: u64,
}

/// How an entry that survives a tick relates to the store the tick started
/// from: it is one of the starting entries, and its record list is either
/// that entry's list (the filter refused, or nothing was due) or — only for
/// a set still younger than the hard expiry — that list less the records
/// whose soft-delete instant has passed.
pub open spec fn entry_survives(e: StoreEntry, entries0: Seq<StoreEntry>, now: u64, ttl: u64)
    -> bool {
    exists|i0: int| 0 <= i0 < entries0.len() && e.key == (#[trigger] entries0[i0]).key
        && (e.set.records_seq() == entries0[i0].set.records_seq()
            || (entries0[i0].set.resolved_secs_ago_spec(now) <= ttl
                && e.set.records_seq() == entries0[i0].set.records_seq().filter(
                |x: ProxyRecord| !x.spec_is_past_due(now))))
}

/// Whether some entry of the store carries exactly this key.
pub open spec fn key_still_present(entries: Seq<StoreEntry>, key: TRrKey) -> bool {
    exists|j: int| 0 <= j < entries.len() && (#[trigger] entries[j]).key == key
}

/// Whether an evicted key was a starting entry's key whose set was stale.
pub open spec fn evicted_key_ok(k: TRrKey, entries0: Seq<StoreEntry>, now: u64, ttl: u64)
    -> bool {
    exists|i0: int| 0 <= i0 < entries0.len() && k == (#[trigger] entries0[i0]).key
        && entries0[i0].set.resolved_secs_ago_spec(now) > ttl
}

/// Whether the list holds exactly this key.
pub open spec fn key_in_list(l: Seq<TRrKey>, k: TRrKey) -> bool {
    exists|j: int| 0 <= j < l.len() && l[j] == k
}

impl Cleaner {
    pub fn new(clear_after_ttl: u64, clear_period: u64) -> (r: Cleaner)
        ensures
            r == (Cleaner { clear_after_ttl, clear_period }),
    {
        Cleaner { clear_after_ttl, clear_period }
    }

    /// One reaper pass. A record set that resolved longer ago than
    /// `clear_after_ttl` is removed whole: its rules leave the filter, its
    /// addresses return to the pool, and its key is answered as evicted. In
    /// a younger set, only the records whose soft-delete instant has passed
    /// are dropped the same way. A filter failure leaves the entry for the
    /// next pass. Whatever the filter answers: the joint invariant is
    /// preserved; the pool only grows; every surviving entry is a starting
    /// entry whose records are untouched or, for a young set, reduced to the
    /// not-yet-due ones; every evicted key was a stale starting entry's and
    /// is gone from the store; and an entry leaves the store only when its
    /// set was stale and its key is answered as evicted.
    pub fn cleaner_tick<R: Router>(&self, authority: &mut TrspAuthority<R>, now: u64)
        -> (evicted: Vec<TRrKey>)
        requires
            old(authority).inv(),
        ensures
            final(authority).inv(),
            final(authority).unchanged_config(*old(authority)),
            final(authority).inner_storage.entries_seq().len()
                <= old(authority).inner_storage.entries_seq().len(),
            forall|k: u32| final(authority).available_ipv4_inner_ips@.to_multiset().count(k)
                >= old(authority).available_ipv4_inner_ips@.to_multiset().count(k),
            forall|i1: int| 0 <= i1 < final(authority).inner_storage.entries_seq().len()
                ==> entry_survives(#[trigger] final(authority).inner_storage.entries_seq()[i1],
                    old(authority).inner_storage.entries_seq(), now, self.clear_after_ttl),
            forall|j: int| 0 <= j < evicted@.len() ==> evicted_key_ok(#[trigger] evicted@[j],
                old(authority).inner_storage.entries_seq(), now, self.clear_after_ttl),
            forall|j: int| 0 <= j < evicted@.len() ==> !key_still_present(
                final(authority).inner_storage.entries_seq(), #[trigger] evicted@[j]),
            forall|i0: int| 0 <= i0 < old(authority).inner_storage.entries_seq().len()
                && !key_still_present(final(authority).inner_storage.entries_seq(),
                    (#[trigger] old(authority).inner_storage.entries_seq()[i0]).key)
                ==> old(authority).inner_storage.entries_seq()[i0]
                    .set.resolved_secs_ago_spec(now) > self.clear_after_ttl
                    && key_in_list(evicted@,
                        old(authority).inner_storage.entries_seq()[i0].key),
    {
        let ghost pool_start = authority.available_ipv4_inner_ips@;
        let ghost start = authority.inner_storage.entries_seq();
        let mut evicted: Vec<TRrKey> = Vec::new();
        let mut i: usize = 0;
        while i < authority.inner_storage.len()
            invariant
                authority.inv(),
                old(authority).inv(),
                authority.unchanged_config(*old(authority)),
                i <= authority.inner_storage.entries_seq().len(),
                authority.inner_storage.entries_seq().len() <= start.len(),
                start == old(authority).inner_storage.entries_seq(),
                pool_start == old(authority).available_ipv4_inner_ips@,
                forall|k: u32| authority.available_ipv4_inner_ips@.to_multiset().count(k)
                    >= pool_start.to_multiset().count(k),
                forall|j: int| i <= j < authority.inner_storage.entries_seq().len()
                    ==> #[trigger] authority.inner_storage.entries_seq()[j] == start[
                        j + start.len() - authority.inner_storage.entries_seq().len()],
                forall|j: int| 0 <= j < i
                    ==> entry_survives(#[trigger] authority.inner_storage.entries_seq()[j],
                        start, now, self.clear_after_ttl),
                forall|i0: int| 0 <= i0 < start.len()
                    ==> key_still_present(authority.inner_storage.entries_seq(),
                        (#[trigger] start[i0]).key)
                        || (start[i0].set.resolved_secs_ago_spec(now) > self.clear_after_ttl
                            && key_in_list(evicted@, start[i0].key)),
                forall|j: int| 0 <= j < evicted@.len() ==> evicted_key_ok(
                    #[trigger] evicted@[j], start, now, self.clear_after_ttl),
                forall|j: int| 0 <= j < evicted@.len() ==> !key_still_present(
                    authority.inner_storage.entries_seq(), #[trigger] evicted@[j]),
            decreases authority.inner_storage.entries_seq().len() - i,
        {
            let ghost entries0 = authority.inner_storage.entries_seq();
            let ghost pool0 = authority.available_ipv4_inner_ips@;
            let ghost routes0 = authority.router.routes();
            let ghost d = start.len() - entries0.len();
            let mut record_set = authority.inner_storage.set_at(i);
            let resolved_secs_ago = record_set.resolved_secs_ago(now);
            if resolved_secs_ago > self.clear_after_ttl {
                // hard expiry: evict the whole set
                match authority.router.remove(&record_set) {
                    Err(_) => {
                        proof {
                            lemma_entry_kept_unchanged(entries0, start, now,
                                self.clear_after_ttl, i as int, d);
                        }
                        i = i + 1;
                    },
                    Ok(_) => {
                        let key = authority.inner_storage.key_at(i);
                        release_mapped(&mut authority.available_ipv4_inner_ips,
                            record_set.records());
                        authority.inner_storage.remove_at(i);
                        let ghost ev0 = evicted@;
                        evicted.push(key);
                        proof {
                            lemma_inv_after_removal_public(
                                entries0, pool0, routes0,
                                authority.mapping_ipv4_subnet, i as int,
                                entries0[i as int].set.records_seq(),
                                Seq::<ProxyRecord>::empty(), true,
                                authority.inner_storage.entries_seq(),
                                authority.available_ipv4_inner_ips@,
                                authority.router.routes(), now,
                            );
                            let cur = authority.inner_storage.entries_seq();
                            assert forall|j: int| i <= j < cur.len() implies
                                #[trigger] cur[j] == start[j + start.len() - cur.len()] by {
                                assert(cur[j] == entries0[j + 1]);
                                assert(entries0[j + 1] == start[j + 1 + d]);
                            }
                            // the evicted key is a stale starting key
                            assert(entries0[i as int] == start[i as int + d]);
                            assert(key == start[i as int + d].key);
                            assert(evicted_key_ok(key, start, now, self.clear_after_ttl));
                            // no entry of either store carries the evicted key
                            assert forall|a: int| 0 <= a < entries0.len() && a != i implies
                                (#[trigger] entries0[a]).key != key by {
                                if entries0[a].key == key {
                                    let x = if a < i as int { a } else { i as int };
                                    let y = if a < i as int { i as int } else { a };
                                    assert(key_matches(entries0[x].key, entries0[y].key.name@,
                                        entries0[y].key.record_type));
                                }
                            }
                            assert forall|a: int| 0 <= a < cur.len() implies
                                (#[trigger] cur[a]).key != key by {
                                if a < i {
                                    assert(cur[a] == entries0[a]);
                                } else {
                                    assert(cur[a] == entries0[a + 1]);
                                }
                            }
                            assert(!key_still_present(cur, key));
                            // the older evicted keys stay absent
                            assert forall|j: int| 0 <= j < evicted@.len() implies
                                !key_still_present(cur, #[trigger] evicted@[j]) by {
                                if j < evicted@.len() - 1 {
                                    assert(evicted@[j] == ev0[j]);
                                    if key_still_present(cur, evicted@[j]) {
                                        let a = choose|a: int| 0 <= a < cur.len()
                                            && (#[trigger] cur[a]).key == evicted@[j];
                                        if a < i {
                                            assert(entries0[a].key == evicted@[j]);
                                        } else {
                                            assert(entries0[a + 1].key == evicted@[j]);
                                        }
                                        assert(key_still_present(entries0, ev0[j]));
                                    }
                                }
                            }
                            // every starting key is still present, or stale and evicted
                            assert forall|i0: int| 0 <= i0 < start.len() implies
                                key_still_present(cur, (#[trigger] start[i0]).key)
                                || (start[i0].set.resolved_secs_ago_spec(now)
                                    > self.clear_after_ttl
                                    && key_in_list(evicted@, start[i0].key)) by {
                                if key_still_present(entries0, start[i0].key) {
                                    let j = choose|j: int| 0 <= j < entries0.len()
                                        && (#[trigger] entries0[j]).key == start[i0].key;
                                    if j < i {
                                        assert(cur[j] == entries0[j]);
                                        assert(key_still_present(cur, start[i0].key));
                                    } else if j > i {
                                        assert(cur[j - 1] == entries0[j]);
                                        assert(key_still_present(cur, start[i0].key));
                                    } else {
                                        // the removed entry: its key is a start
                                        // key of a stale set, and keys are unique
                                        assert(start[i0].key == start[i as int + d].key);
                                        if i0 != i as int + d {
                                            let a = if i0 < i as int + d { i0 } else {
                                                i as int + d
                                            };
                                            let b = if i0 < i as int + d { i as int + d } else {
                                                i0
                                            };
                                            assert(key_matches(start[a].key, start[b].key.name@,
                                                start[b].key.record_type));
                                        }
                                        assert(start[i0].set.resolved_secs_ago_spec(now)
                                            > self.clear_after_ttl);
                                        assert(evicted@.last() == key);
                                        assert(key_in_list(evicted@, start[i0].key));
                                    }
                                } else {
                                    assert(key_in_list(ev0, start[i0].key));
                                    let j = choose|j: int| 0 <= j < ev0.len()
                                        && ev0[j] == start[i0].key;
                                    assert(evicted@[j] == start[i0].key);
                                    assert(key_in_list(evicted@, start[i0].key));
                                }
                            }
                        }
                    },
                }
            } else {
                // soft expiry: drop only the past-due records
                match authority.router.remove_old_records(&mut record_set, now) {
                    Err(_) => {
                        proof {
                            lemma_entry_kept_unchanged(entries0, start, now,
                                self.clear_after_ttl, i as int, d);
                        }
                        i = i + 1;
                    },
                    Ok(old_records) => {
                        release_mapped(&mut authority.available_ipv4_inner_ips, &old_records);
                        authority.inner_storage.replace_set_at(i, record_set);
                        proof {
                            let oldrecs = entries0[i as int].set.records_seq();
                            lemma_inv_after_removal_public(
                                entries0, pool0, routes0,
                                authority.mapping_ipv4_subnet, i as int,
                                oldrecs.filter(|x: ProxyRecord| x.spec_is_past_due(now)),
                                oldrecs.filter(|x: ProxyRecord| !x.spec_is_past_due(now)),
                                false,
                                authority.inner_storage.entries_seq(),
                                authority.available_ipv4_inner_ips@,
                                authority.router.routes(), now,
                            );
                            let cur = authority.inner_storage.entries_seq();
                            assert(entries0[i as int] == start[i as int + d]);
                            assert(cur[i as int].key == start[i as int + d].key);
                            assert(cur[i as int].set.records_seq()
                                == start[i as int + d].set.records_seq().filter(
                                |x: ProxyRecord| !x.spec_is_past_due(now)));
                            assert(start[i as int + d].set.resolved_secs_ago_spec(now)
                                <= self.clear_after_ttl);
                            assert(entry_survives(cur[i as int], start, now,
                                self.clear_after_ttl));
                            assert forall|i0: int| 0 <= i0 < start.len() implies
                                key_still_present(cur, (#[trigger] start[i0]).key)
                                || (start[i0].set.resolved_secs_ago_spec(now)
                                    > self.clear_after_ttl
                                    && key_in_list(evicted@, start[i0].key)) by {
                                if key_still_present(entries0, start[i0].key) {
                                    let j = choose|j: int| 0 <= j < entries0.len()
                                        && (#[trigger] entries0[j]).key == start[i0].key;
                                    assert(cur[j].key == entries0[j].key);
                                    assert(key_still_present(cur, start[i0].key));
                                }
                            }
                            assert forall|j: int| 0 <= j < evicted@.len() implies
                                !key_still_present(cur, #[trigger] evicted@[j]) by {
                                if key_still_present(cur, evicted@[j]) {
                                    let a = choose|a: int| 0 <= a < cur.len()
                                        && (#[trigger] cur[a]).key == evicted@[j];
                                    assert(cur[a].key == entries0[a].key);
                                    assert(key_still_present(entries0, evicted@[j]));
                                }
                            }
                        }
                        i = i + 1;
                    },
                }
            }
        }
        evicted
    }
}

/// An untouched entry survives as itself.
proof fn lemma_entry_kept_unchanged(
    entries0: Seq<StoreEntry>,
    start: Seq<StoreEntry>,
    now: u64,
    ttl: u64,
    i: int,
    d: int,
)
    requires
        0 <= i < entries0.len(),
        entries0.len() <= start.len(),
        d == start.len() - entries0.len(),
        forall|j: int| i <= j < entries0.len()
            ==> #[trigger] entries0[j] == start[j + d],
    ensures
        entry_survives(entries0[i], start, now, ttl),
{
    assert(entries0[i] == start[i + d]);
    assert(entries0[i].key == start[i + d].key);
    assert(entries0[i].set.records_seq() == start[i + d].set.records_seq());
}

/// Appends every v4 mapped address of `records` to the back of the pool, in
/// record order.
fn release_mapped(pool: &mut IpPool, records: &Vec<ProxyRecord>)
    ensures
        final(pool)@ == old(pool)@ + mapped_v4_seq(records@),
{
    let ghost start = pool@;
    let mut j: usize = 0;
    while j < records.len()
        invariant
            j <= records@.len(),
            pool@ == start + mapped_v4_seq(records@.take(j as int)),
        decreases records@.len() - j,
    {
        proof {
            assert(records@.take(j as int + 1).drop_last() =~= records@.take(j as int));
            assert(records@.take(j as int + 1).last() == records@[j as int]);
        }
        match records[j].mapped_addr {
            Some(crate::ip::IpAddress::V4(v)) => {
                pool.release(v);
                proof {
                    assert(mapped_v4_seq(records@.take(j as int + 1))
                        =~= mapped_v4_seq(records@.take(j as int)) + seq![v]);
                    assert(start + mapped_v4_seq(records@.take(j as int)) + seq![v]
                        =~= start + mapped_v4_seq(records@.take(j as int + 1)));
                }
            },
            _ => {
                proof {
                    assert(mapped_v4_seq(records@.take(j as int + 1))
                        =~= mapped_v4_seq(records@.take(j as int)));
                }
            },
        }
        j = j + 1;
    }
    proof {
        assert(records@.take(records@.len() as int) =~= records@);
    }
}

} // verus!
