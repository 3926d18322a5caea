//! In-memory record store: the map from (name, record type) to the proxy
//! record set tracked for that query, stored as an association list with
//! unique keys.

use vstd::prelude::*;
use crate::record::{ProxyRecord, ProxyRecordSet, RecordKind};

verus! {

/// Accessor key for record sets in the store: a query name and record type.
#[derive(Debug)]
pub struct TRrKey {
    pub name: String,
    pub record_type: RecordKind,
}

impl TRrKey {
    pub fn new(name: String, record_type: RecordKind) -> (r: TRrKey)
        ensures
            r.name == name,
            r.record_type == record_type,
    {
        TRrKey { name, record_type }
    }

    pub fn name(&self) -> (r: &String)
        ensures
            r == &self.name,
    {
        &self.name
    }
}

/// Whether a key addresses the given name and record type.
pub open spec fn key_matches(k: TRrKey, name: Seq<char>, rtype: RecordKind) -> bool {
    k.name@ == name && k.record_type == rtype
}

/// One stored binding.
#[derive(Debug)]
pub struct StoreEntry {
    pub key: TRrKey,
    pub set: ProxyRecordSet,
}

/// Value equality of record sets up to the string representation of the
/// domain: what a stored copy preserves.
pub open spec fn set_matches(a: ProxyRecordSet, b: ProxyRecordSet) -> bool {
    &&& a.domain@ == b.domain@
    &&& a.records_seq() == b.records_seq()
    &&& a.resolved_at == b.resolved_at
    &&& a.ttl_secs() == b.ttl_secs()
}

/// Index of the entry addressing (name, rtype), if one exists.
pub open spec fn find_index(entries: Seq<StoreEntry>, name: Seq<char>, rtype: RecordKind) -> Option<int>
    decreases entries.len(),
{
    if entries.len() == 0 {
        None
    } else if key_matches(entries[0].key, name, rtype) {
        Some(0)
    } else {
        match find_index(entries.drop_first(), name, rtype) {
            Some(i) => Some(i + 1),
            None => None,
        }
    }
}

pub proof fn lemma_find_index_found(entries: Seq<StoreEntry>, name: Seq<char>, rtype: RecordKind, i: int)
    requires
        0 <= i < entries.len(),
        key_matches(entries[i].key, name, rtype),
        forall|k: int| 0 <= k < i ==> !key_matches(entries[k].key, name, rtype),
    ensures
        find_index(entries, name, rtype) == Some(i),
    decreases i,
{
    if i > 0 {
        let rest = entries.drop_first();
        assert(rest[i - 1] == entries[i]);
        assert forall|k: int| 0 <= k < i - 1 implies !key_matches(rest[k].key, name, rtype) by {
            assert(rest[k] == entries[k + 1]);
        }
        lemma_find_index_found(rest, name, rtype, i - 1);
    }
}

pub proof fn lemma_find_index_none(entries: Seq<StoreEntry>, name: Seq<char>, rtype: RecordKind)
    requires
        forall|k: int| 0 <= k < entries.len() ==> !key_matches(entries[k].key, name, rtype),
    ensures
        find_index(entries, name, rtype) is None,
    decreases entries.len(),
{
    if entries.len() > 0 {
        let rest = entries.drop_first();
        assert forall|k: int| 0 <= k < rest.len() implies !key_matches(rest[k].key, name, rtype) by {
            assert(rest[k] == entries[k + 1]);
        }
        lemma_find_index_none(rest, name, rtype);
    }
}

/// What `find_index` answers is a matching entry, and nothing earlier matches.
pub proof fn lemma_find_index_properties(entries: Seq<StoreEntry>, name: Seq<char>, rtype: RecordKind)
    ensures
        match find_index(entries, name, rtype) {
            Some(i) => 0 <= i < entries.len() && key_matches(entries[i].key, name, rtype)
                && (forall|k: int| 0 <= k < i ==> !key_matches(entries[k].key, name, rtype)),
            None => forall|k: int| 0 <= k < entries.len()
                ==> !key_matches(entries[k].key, name, rtype),
        },
    decreases entries.len(),
{
    if entries.len() > 0 && !key_matches(entries[0].key, name, rtype) {
        let rest = entries.drop_first();
        lemma_find_index_properties(rest, name, rtype);
        assert forall|k: int| 0 <= k < entries.len() && entries.len() > 0 && k > 0 implies
            rest[k - 1] == entries[k] by {}
    }
}

/// In-memory store of proxy record sets, keyed by query name and record type.
pub struct InnerStorage {
    pub entries: Vec<StoreEntry>,
}

impl InnerStorage {
    pub open spec fn entries_seq(self) -> Seq<StoreEntry> {
        self.entries@
    }

    /// Keys are unique: no two entries address the same name and type.
    pub open spec fn keys_unique(self) -> bool {
        forall|i: int, j: int| 0 <= i < j < self.entries@.len()
            ==> !key_matches(#[trigger] self.entries@[i].key, #[trigger] self.entries@[j].key.name@,
                self.entries@[j].key.record_type)
    }

    pub fn new() -> (r: InnerStorage)
        ensures
            r.entries_seq() == Seq::<StoreEntry>::empty(),
            r.keys_unique(),
    {
        InnerStorage { entries: Vec::new() }
    }

    pub fn len(&self) -> (r: usize)
        ensures
            r == self.entries_seq().len(),
    {
        self.entries.len()
    }

    /// A copy of the record set stored for (name, rtype), if any.
    pub fn find(&self, name: &String, rtype: RecordKind) -> (r: Option<ProxyRecordSet>)
        ensures
            match find_index(self.entries_seq(), name@, rtype) {
                Some(i) => r is Some && set_matches(r.unwrap(), self.entries_seq()[i].set),
                None => r is None,
            },
    {
        let mut i: usize = 0;
        let ghost entries = self.entries@;
        while i < self.entries.len()
            invariant
                i <= entries.len(),
                self.entries@ == entries,
                forall|k: int| 0 <= k < i ==> !key_matches(entries[k].key, name@, rtype),
            decreases entries.len() - i,
        {
            let e = &self.entries[i];
            if kind_eq(e.key.record_type, rtype) && e.key.name.eq(name) {
                proof {
                    lemma_find_index_found(entries, name@, rtype, i as int);
                }
                return Some(e.set.duplicate());
            }
            i = i + 1;
        }
        proof {
            lemma_find_index_none(entries, name@, rtype);
        }
        None
    }

    /// Stores `record_set` for (name, rtype), replacing the entry already
    /// addressing that key if one exists.
    pub fn upsert(&mut self, name: &String, rtype: RecordKind, record_set: &ProxyRecordSet)
        ensures
            match find_index(old(self).entries_seq(), name@, rtype) {
                Some(i) => final(self).entries_seq().len() == old(self).entries_seq().len()
                    && final(self).entries_seq()[i].key == old(self).entries_seq()[i].key
                    && set_matches(final(self).entries_seq()[i].set, *record_set)
                    && (forall|k: int| 0 <= k < old(self).entries_seq().len() && k != i
                        ==> final(self).entries_seq()[k] == old(self).entries_seq()[k]),
                None => final(self).entries_seq().len() == old(self).entries_seq().len() + 1
                    && (forall|k: int| 0 <= k < old(self).entries_seq().len()
                        ==> final(self).entries_seq()[k] == old(self).entries_seq()[k])
                    && final(self).entries_seq().last().key.name@ == name@
                    && final(self).entries_seq().last().key.record_type == rtype
                    && set_matches(final(self).entries_seq().last().set, *record_set),
            },
            old(self).keys_unique() ==> final(self).keys_unique(),
    {
        let ghost entries = self.entries@;
        let mut i: usize = 0;
        while i < self.entries.len()
            invariant
                i <= entries.len(),
                self.entries@ == entries,
                entries == old(self).entries@,
                forall|k: int| 0 <= k < i ==> !key_matches(entries[k].key, name@, rtype),
            decreases entries.len() - i,
        {
            let matches_here = {
                let e = &self.entries[i];
                kind_eq(e.key.record_type, rtype) && e.key.name.eq(name)
            };
            if matches_here {
                proof {
                    lemma_find_index_found(entries, name@, rtype, i as int);
                }
                self.replace_set_at(i, record_set.duplicate());
                return;
            }
            i = i + 1;
        }
        proof {
            lemma_find_index_none(entries, name@, rtype);
        }
        let key = TRrKey { name: name.clone(), record_type: rtype };
        self.entries.push(StoreEntry { key, set: record_set.duplicate() });
        proof {
            if old(self).keys_unique() {
                let s = self.entries@;
                assert forall|a: int, b: int| 0 <= a < b < s.len() implies
                    !key_matches(#[trigger] s[a].key, #[trigger] s[b].key.name@,
                        s[b].key.record_type) by {
                    if b == s.len() - 1 {
                        assert(!key_matches(entries[a].key, name@, rtype));
                    }
                }
            }
        }
    }

    /// Drops the entry addressing (name, rtype), if one exists.
    pub fn remove(&mut self, name: &String, rtype: RecordKind)
        ensures
            match find_index(old(self).entries_seq(), name@, rtype) {
                Some(i) => final(self).entries_seq() == old(self).entries_seq().remove(i),
                None => final(self).entries_seq() == old(self).entries_seq(),
            },
            old(self).keys_unique() ==> final(self).keys_unique(),
    {
        let ghost entries = self.entries@;
        let mut i: usize = 0;
        while i < self.entries.len()
            invariant
                i <= entries.len(),
                self.entries@ == entries,
                entries == old(self).entries@,
                forall|k: int| 0 <= k < i ==> !key_matches(entries[k].key, name@, rtype),
            decreases entries.len() - i,
        {
            let matches_here = {
                let e = &self.entries[i];
                kind_eq(e.key.record_type, rtype) && e.key.name.eq(name)
            };
            if matches_here {
                proof {
                    lemma_find_index_found(entries, name@, rtype, i as int);
                }
                self.entries.remove(i);
                proof {
                    if old(self).keys_unique() {
                        let s = self.entries@;
                        assert forall|a: int, b: int| 0 <= a < b < s.len() implies
                            !key_matches(#[trigger] s[a].key, #[trigger] s[b].key.name@,
                        s[b].key.record_type) by {
                            let oa = if a < i as int { a } else { a + 1 };
                            let ob = if b < i as int { b } else { b + 1 };
                            assert(s[a] == entries[oa]);
                            assert(s[b] == entries[ob]);
                        }
                    }
                }
                return;
            }
            i = i + 1;
        }
        proof {
            lemma_find_index_none(entries, name@, rtype);
        }
    }

    /// A copy of the key of the entry at position `i`.
    pub fn key_at(&self, i: usize) -> (r: TRrKey)
        requires
            i < self.entries_seq().len(),
        ensures
            r == self.entries_seq()[i as int].key,
    {
        let entry = &self.entries[i];
        TRrKey { name: entry.key.name.clone(), record_type: entry.key.record_type }
    }

    /// A copy of the record set of the entry at position `i`.
    pub fn set_at(&self, i: usize) -> (r: ProxyRecordSet)
        requires
            i < self.entries_seq().len(),
        ensures
            set_matches(r, self.entries_seq()[i as int].set),
    {
        self.entries[i].set.duplicate()
    }

    /// Replaces the record set of the entry at position `i`, keeping its key.
    pub fn replace_set_at(&mut self, i: usize, set: ProxyRecordSet)
        requires
            i < old(self).entries_seq().len(),
        ensures
            final(self).entries_seq().len() == old(self).entries_seq().len(),
            final(self).entries_seq()[i as int].key == old(self).entries_seq()[i as int].key,
            final(self).entries_seq()[i as int].set == set,
            forall|k: int| 0 <= k < old(self).entries_seq().len() && k != i
                ==> final(self).entries_seq()[k] == old(self).entries_seq()[k],
            old(self).keys_unique() ==> final(self).keys_unique(),
    {
        let entry = self.entries.remove(i);
        self.entries.insert(i, StoreEntry { key: entry.key, set });
        proof {
            let olds = old(self).entries@;
            let s = self.entries@;
            assert forall|k: int| 0 <= k < olds.len() && k != i implies s[k] == olds[k] by {
                assert(s =~= olds.remove(i as int).insert(i as int, s[i as int]));
            }
            if old(self).keys_unique() {
                assert forall|a: int, b: int| 0 <= a < b < s.len() implies
                    !key_matches(#[trigger] s[a].key, #[trigger] s[b].key.name@,
                        s[b].key.record_type) by {
                    assert(s[a].key == olds[a].key);
                    assert(s[b].key == olds[b].key);
                }
            }
        }
    }

    /// Drops the entry at position `i`.
    pub fn remove_at(&mut self, i: usize)
        requires
            i < old(self).entries_seq().len(),
        ensures
            final(self).entries_seq() == old(self).entries_seq().remove(i as int),
            old(self).keys_unique() ==> final(self).keys_unique(),
    {
        self.entries.remove(i);
        proof {
            if old(self).keys_unique() {
                let olds = old(self).entries@;
                let s = self.entries@;
                assert forall|a: int, b: int| 0 <= a < b < s.len() implies
                    !key_matches(#[trigger] s[a].key, #[trigger] s[b].key.name@,
                        s[b].key.record_type) by {
                    let oa = if a < i as int { a } else { a + 1 };
                    let ob = if b < i as int { b } else { b + 1 };
                    assert(s[a] == olds[oa]);
                    assert(s[b] == olds[ob]);
                }
            }
        }
    }
}

fn kind_eq(a: RecordKind, b: RecordKind) -> (r: bool)
    ensures
        r == (a == b),
{
    match (a, b) {
        (RecordKind::A, RecordKind::A) => true,
        (RecordKind::Aaaa, RecordKind::Aaaa) => true,
        (RecordKind::Cname, RecordKind::Cname) => true,
        (RecordKind::Other(x), RecordKind::Other(y)) => x == y,
        _ => false,
    }
}

} // verus!
