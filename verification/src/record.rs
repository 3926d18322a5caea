//! Proxy records: the original-to-synthetic address pairs tracked per
//! (domain, record type), with soft-delete marks and TTL accounting.

use vstd::prelude::*;
use crate::ip::IpAddress;

verus! {

/// The record types the proxy distinguishes. Everything else is carried
/// opaquely by its wire code.
#[derive(PartialEq, Eq, Structural, Clone, Copy, Debug)]
pub enum RecordKind {
    A,
    Aaaa,
    Cname,
    Other(u16),
}

impl RecordKind {
    pub open spec fn spec_is_aaaa(&self) -> bool {
        *self == RecordKind::Aaaa
    }

    #[verifier::when_used_as_spec(spec_is_aaaa)]
    pub fn is_aaaa(&self) -> (r: bool)
        ensures
            r == self.spec_is_aaaa(),
    {
        match self {
            RecordKind::Aaaa => true,
            _ => false,
        }
    }

    pub open spec fn spec_is_cname_kind(&self) -> bool {
        *self == RecordKind::Cname
    }

    #[verifier::when_used_as_spec(spec_is_cname_kind)]
    pub fn is_cname_kind(&self) -> (r: bool)
        ensures
            r == self.spec_is_cname_kind(),
    {
        match self {
            RecordKind::Cname => true,
            _ => false,
        }
    }
}

/// One tracked record: for address records, the upstream (original) address
/// paired with the synthetic (mapped) address; for CNAMEs, the target name
/// and no addresses. `cleanup_at == None` means live; `Some(t)` marks the
/// record for removal at instant `t` (soft delete).
#[derive(Debug)]
pub struct ProxyRecord {
    pub name: String,
    pub kind: RecordKind,
    pub cname_target: Option<String>,
    pub original_addr: Option<IpAddress>,
    pub mapped_addr: Option<IpAddress>,
    pub cleanup_at: Option<u64>,
}

impl ProxyRecord {
    pub fn new(
        name: String,
        kind: RecordKind,
        cname_target: Option<String>,
        original_addr: Option<IpAddress>,
        mapped_addr: Option<IpAddress>,
    ) -> (r: ProxyRecord)
        ensures
            r == (ProxyRecord { name, kind, cname_target, original_addr, mapped_addr, cleanup_at: None::<u64> }),
    {
        ProxyRecord { name, kind, cname_target, original_addr, mapped_addr, cleanup_at: None }
    }

    pub open spec fn spec_is_cname(&self) -> bool {
        self.kind == RecordKind::Cname
    }

    #[verifier::when_used_as_spec(spec_is_cname)]
    pub fn is_cname(&self) -> (r: bool)
        ensures
            r == self.spec_is_cname(),
    {
        match self.kind {
            RecordKind::Cname => true,
            _ => false,
        }
    }

    /// A record is routable when both its addresses are set: exactly then a
    /// destination-NAT rule can stand for it.
    pub open spec fn spec_is_routable(&self) -> bool {
        self.original_addr is Some && self.mapped_addr is Some
    }

    #[verifier::when_used_as_spec(spec_is_routable)]
    pub fn is_routable(&self) -> (r: bool)
        ensures
            r == self.spec_is_routable(),
    {
        if self.original_addr.is_none() {
            return false;
        }
        if self.mapped_addr.is_none() {
            return false;
        }
        true
    }

    pub open spec fn spec_is_live(&self) -> bool {
        self.cleanup_at is None
    }

    #[verifier::when_used_as_spec(spec_is_live)]
    pub fn is_live(&self) -> (r: bool)
        ensures
            r == self.spec_is_live(),
    {
        self.cleanup_at.is_none()
    }

    /// Whether the soft-delete instant has passed.
    pub open spec fn spec_is_past_due(&self, now: u64) -> bool {
        match self.cleanup_at {
            Some(t) => t <= now,
            None => false,
        }
    }

    #[verifier::when_used_as_spec(spec_is_past_due)]
    pub fn is_past_due(&self, now: u64) -> (r: bool)
        ensures
            r == self.spec_is_past_due(now),
    {
        match self.cleanup_at {
            Some(t) => t <= now,
            None => false,
        }
    }

    /// Marks the record for removal `after_secs` from `now`, saturating at
    /// the largest representable instant.
    pub fn mark_for_cleanup(&mut self, now: u64, after_secs: u64)
        ensures
            *final(self) == (ProxyRecord { cleanup_at: Some(spec_saturating_add(now, after_secs)), ..*old(self) }),
    {
        self.cleanup_at = Some(saturating_add(now, after_secs));
    }

    pub fn unmark_for_cleanup(&mut self)
        ensures
            *final(self) == (ProxyRecord { cleanup_at: None::<u64>, ..*old(self) }),
    {
        self.cleanup_at = None;
    }

    /// The CNAME target carried by this record, if it is a CNAME.
    pub fn rdata(&self) -> (r: Option<&String>)
        ensures
            match r {
                Some(s) => self.cname_target == Some(*s),
                None => self.cname_target is None,
            },
    {
        self.cname_target.as_ref()
    }

    /// A field-for-field copy.
    pub fn duplicate(&self) -> (r: ProxyRecord)
        ensures
            r == *self,
    {
        ProxyRecord {
            name: self.name.clone(),
            kind: self.kind,
            cname_target: match &self.cname_target {
                Some(s) => Some(s.clone()),
                None => None,
            },
            original_addr: self.original_addr,
            mapped_addr: self.mapped_addr,
            cleanup_at: self.cleanup_at,
        }
    }
}

pub open spec fn spec_saturating_add(a: u64, b: u64) -> u64 {
    if a + b > u64::MAX {
        u64::MAX
    } else {
        (a + b) as u64
    }
}

fn saturating_add(a: u64, b: u64) -> (r: u64)
    ensures
        r == spec_saturating_add(a, b),
{
    if a <= u64::MAX - b {
        a + b
    } else {
        u64::MAX
    }
}

/// Whether two records are CNAMEs carrying the same target name.
pub open spec fn same_cname_target(a: ProxyRecord, b: ProxyRecord) -> bool {
    a.spec_is_cname() && b.spec_is_cname() && a.cname_target is Some && b.cname_target is Some
        && a.cname_target.unwrap()@ == b.cname_target.unwrap()@
}

/// Two records collide when they share a set original address, share a set
/// mapped address, or are CNAMEs with the same target.
pub open spec fn record_conflicts(a: ProxyRecord, b: ProxyRecord) -> bool {
    ||| (a.original_addr is Some && b.original_addr is Some && a.original_addr == b.original_addr)
    ||| (a.mapped_addr is Some && b.mapped_addr is Some && a.mapped_addr == b.mapped_addr)
    ||| same_cname_target(a, b)
}

/// The error `ProxyRecordSet::push` answers for a colliding record.
#[derive(PartialEq, Eq, Structural, Clone, Copy, Debug)]
pub enum PushError {
    OriginalAddrExists,
    MappedAddrExists,
    CnameExists,
}

/// Which error, if any, pushing `rec` against the existing `records` yields:
/// the first colliding record decides, a shared original address before a
/// shared mapped address before a duplicate CNAME target.
pub open spec fn push_check(records: Seq<ProxyRecord>, rec: ProxyRecord) -> Option<PushError>
    decreases records.len(),
{
    if records.len() == 0 {
        None
    } else {
        let r = records[0];
        if r.original_addr is Some && rec.original_addr is Some && r.original_addr == rec.original_addr {
            Some(PushError::OriginalAddrExists)
        } else if r.mapped_addr is Some && rec.mapped_addr is Some && r.mapped_addr == rec.mapped_addr {
            Some(PushError::MappedAddrExists)
        } else if same_cname_target(r, rec) {
            Some(PushError::CnameExists)
        } else {
            push_check(records.drop_first(), rec)
        }
    }
}

pub proof fn lemma_push_check_none_iff_no_conflict(records: Seq<ProxyRecord>, rec: ProxyRecord)
    ensures
        push_check(records, rec) is None <==> (forall|i: int| 0 <= i < records.len()
            ==> !record_conflicts(records[i], rec)),
    decreases records.len(),
{
    if records.len() > 0 {
        lemma_push_check_none_iff_no_conflict(records.drop_first(), rec);
        assert forall|i: int| 0 <= i < records.len() && i != 0 implies
            records.drop_first()[i - 1] == records[i] by {}
    }
}

/// Per (domain, record type) bundle of proxy records, with the instant of
/// the last upstream resolution and the TTL handed to clients.
#[derive(Debug)]
pub struct ProxyRecordSet {
    pub domain: String,
    pub records: Vec<ProxyRecord>,
    pub resolved_at: u64,
    pub ttl: u64,
}

impl ProxyRecordSet {
    /// No two records collide: original addresses are unique, mapped
    /// addresses are unique, and at most one CNAME carries a given target.
    pub open spec fn wf(self) -> bool {
        forall|i: int, j: int| 0 <= i < j < self.records@.len()
            ==> !record_conflicts(self.records@[i], self.records@[j])
    }

    pub open spec fn records_seq(self) -> Seq<ProxyRecord> {
        self.records@
    }

    pub open spec fn ttl_secs(self) -> u64 {
        self.ttl
    }

    pub fn new(domain: &String, lookup_time: u64, ttl: u64) -> (r: ProxyRecordSet)
        ensures
            r.domain == domain,
            r.records_seq() == Seq::<ProxyRecord>::empty(),
            r.resolved_at == lookup_time,
            r.ttl_secs() == ttl,
            r.wf(),
    {
        ProxyRecordSet { domain: domain.clone(), records: Vec::new(), resolved_at: lookup_time, ttl }
    }

    pub fn records(&self) -> (r: &Vec<ProxyRecord>)
        ensures
            r@ == self.records_seq(),
    {
        &self.records
    }

    /// A field-for-field copy.
    pub fn duplicate(&self) -> (r: ProxyRecordSet)
        ensures
            r.domain == self.domain,
            r.records_seq() == self.records_seq(),
            r.resolved_at == self.resolved_at,
            r.ttl_secs() == self.ttl_secs(),
    {
        let mut records: Vec<ProxyRecord> = Vec::new();
        let mut i: usize = 0;
        while i < self.records.len()
            invariant
                i <= self.records@.len(),
                records@ == self.records@.subrange(0, i as int),
            decreases self.records@.len() - i,
        {
            records.push(self.records[i].duplicate());
            proof {
                assert(records@ =~= self.records@.subrange(0, i + 1 as int));
            }
            i = i + 1;
        }
        proof {
            assert(records@ =~= self.records@);
        }
        ProxyRecordSet {
            domain: self.domain.clone(),
            records,
            resolved_at: self.resolved_at,
            ttl: self.ttl,
        }
    }

    /// Adds a record unless it collides with one already present; the
    /// answer is exactly what `push_check` says.
    pub fn push(&mut self, record: &ProxyRecord) -> (r: Result<(), PushError>)
        ensures
            match push_check(old(self).records_seq(), *record) {
                None => r is Ok && final(self).records_seq() == old(self).records_seq().push(*record),
                Some(e) => r == Err::<(), PushError>(e) && *final(self) == *old(self),
            },
            final(self).domain == old(self).domain,
            final(self).resolved_at == old(self).resolved_at,
            final(self).ttl_secs() == old(self).ttl_secs(),
            old(self).wf() && push_check(old(self).records_seq(), *record) is None
                ==> final(self).wf(),
    {
        let ghost orig = self.records@;
        proof {
            assert(orig.subrange(0, orig.len() as int) =~= orig);
        }
        let mut i: usize = 0;
        while i < self.records.len()
            invariant
                i <= self.records@.len(),
                self.records@ == orig,
                push_check(orig.subrange(i as int, orig.len() as int), *record)
                    == push_check(orig, *record),
            decreases self.records@.len() - i,
        {
            let r = &self.records[i];
            let ghost rest = orig.subrange(i as int, orig.len() as int);
            proof {
                assert(rest[0] == orig[i as int]);
                assert(rest.drop_first() =~= orig.subrange(i as int + 1, orig.len() as int));
            }
            if r.original_addr.is_some() && record.original_addr.is_some()
                && ip_opt_eq(&r.original_addr, &record.original_addr) {
                proof {
                    assert(push_check(rest, *record) == Some(PushError::OriginalAddrExists));
                }
                return Err(PushError::OriginalAddrExists);
            }
            if r.mapped_addr.is_some() && record.mapped_addr.is_some()
                && ip_opt_eq(&r.mapped_addr, &record.mapped_addr) {
                proof {
                    assert(push_check(rest, *record) == Some(PushError::MappedAddrExists));
                }
                return Err(PushError::MappedAddrExists);
            }
            if r.is_cname() && record.is_cname()
                && both_targets_eq(&r.cname_target, &record.cname_target) {
                proof {
                    assert(same_cname_target(orig[i as int], *record));
                    assert(push_check(rest, *record) == Some(PushError::CnameExists));
                }
                return Err(PushError::CnameExists);
            }
            proof {
                assert(!same_cname_target(orig[i as int], *record));
                assert(push_check(rest, *record) == push_check(rest.drop_first(), *record));
            }
            i = i + 1;
        }
        proof {
            assert(orig.subrange(orig.len() as int, orig.len() as int) =~= Seq::<ProxyRecord>::empty());
            lemma_push_check_none_iff_no_conflict(orig, *record);
        }
        self.records.push(record.duplicate());
        proof {
            let s = self.records@;
            assert(s.drop_last() =~= orig);
            assert forall|i2: int, j2: int| 0 <= i2 < j2 < s.len() && old(self).wf() implies
                !record_conflicts(s[i2], s[j2]) by {
                if j2 < s.len() - 1 {
                    assert(!record_conflicts(orig[i2], orig[j2]));
                }
            }
        }
        Ok(())
    }

    /// Removes the first record carrying the same address pair, if any.
    pub fn remove_record(&mut self, record: &ProxyRecord)
        ensures
            final(self).domain == old(self).domain,
            final(self).resolved_at == old(self).resolved_at,
            final(self).ttl_secs() == old(self).ttl_secs(),
            match first_pair_index(old(self).records_seq(), *record) {
                Some(i) => final(self).records_seq() == old(self).records_seq().remove(i),
                None => final(self).records_seq() == old(self).records_seq(),
            },
    {
        let mut i: usize = 0;
        let ghost orig = self.records@;
        while i < self.records.len()
            invariant
                i <= orig.len(),
                self.records@ == orig,
                self.domain == old(self).domain,
                self.resolved_at == old(self).resolved_at,
                self.ttl == old(self).ttl,
                orig == old(self).records@,
                forall|k: int| 0 <= k < i ==> !same_pair(orig[k], *record),
            decreases orig.len() - i,
        {
            let r = &self.records[i];
            if ip_opt_eq(&r.original_addr, &record.original_addr)
                && ip_opt_eq(&r.mapped_addr, &record.mapped_addr) {
                proof {
                    lemma_first_pair_found(orig, *record, i as int);
                }
                self.records.remove(i);
                return;
            }
            i = i + 1;
        }
        proof {
            lemma_first_pair_none(orig, *record);
        }
    }

    /// Seconds since the last upstream resolution, clamped below at zero.
    pub open spec fn resolved_secs_ago_spec(self, now: u64) -> u64 {
        if now >= self.resolved_at {
            (now - self.resolved_at) as u64
        } else {
            0
        }
    }

    pub fn resolved_secs_ago(&self, now: u64) -> (r: u64)
        ensures
            r == self.resolved_secs_ago_spec(now),
    {
        if now >= self.resolved_at {
            now - self.resolved_at
        } else {
            0
        }
    }

    /// The TTL emitted to clients: the configured TTL less the record set's
    /// age, clamped below at zero and saturating at `u32::MAX`.
    pub open spec fn ttl_spec(self, now: u64) -> u32 {
        let ago = self.resolved_secs_ago_spec(now);
        let remaining: u64 = if self.ttl > ago {
            (self.ttl - ago) as u64
        } else {
            0
        };
        if remaining > u32::MAX {
            u32::MAX
        } else {
            remaining as u32
        }
    }

    pub fn ttl(&self, now: u64) -> (r: u32)
        ensures
            r == self.ttl_spec(now),
    {
        let ago = self.resolved_secs_ago(now);
        let remaining: u64 = if self.ttl > ago {
            self.ttl - ago
        } else {
            0
        };
        if remaining > u32::MAX as u64 {
            u32::MAX
        } else {
            remaining as u32
        }
    }
}

/// For a fixed record set, the TTL emitted to a client never increases as
/// time passes, until a re-resolution refreshes `resolved_at`.
pub proof fn lemma_ttl_monotonic(set: ProxyRecordSet, t1: u64, t2: u64)
    requires
        t1 <= t2,
    ensures
        set.ttl_spec(t2) <= set.ttl_spec(t1),
{
}

/// The payload of one record in a synthetic response.
#[derive(Debug)]
pub enum ResponseData {
    A(u32),
    Aaaa(u128),
    Cname(String),
}

/// One record of a synthetic response: the mapped address (or CNAME target)
/// under the upstream record's name, with the recomputed TTL.
#[derive(Debug)]
pub struct ResponseRecord {
    pub name: String,
    pub kind: RecordKind,
    pub ttl: u32,
    pub data: Option<ResponseData>,
}

/// The response record a live proxy record yields: a CNAME carries its
/// target, an address record carries its mapped (synthetic) address.
pub open spec fn response_of(r: ProxyRecord, ttl: u32) -> ResponseRecord {
    let data = if r.spec_is_cname() && r.cname_target is Some {
        Some(ResponseData::Cname(r.cname_target.unwrap()))
    } else {
        match r.mapped_addr {
            Some(IpAddress::V4(v)) => Some(ResponseData::A(v)),
            Some(IpAddress::V6(v)) => Some(ResponseData::Aaaa(v)),
            None => None,
        }
    };
    ResponseRecord { name: r.name, kind: r.kind, ttl, data }
}

impl ProxyRecordSet {
    /// The records a client is shown at instant `now`: the live records,
    /// each with the recomputed TTL.
    pub open spec fn response_seq(self, now: u64) -> Seq<ResponseRecord> {
        self.records@.filter(|r: ProxyRecord| r.spec_is_live()).map_values(
            |r: ProxyRecord| response_of(r, self.ttl_spec(now)),
        )
    }

    pub fn records_for_response(&self, now: u64) -> (r: Vec<ResponseRecord>)
        ensures
            r@ == self.response_seq(now),
    {
        let ttl = self.ttl(now);
        let mut out: Vec<ResponseRecord> = Vec::new();
        let mut i: usize = 0;
        while i < self.records.len()
            invariant
                i <= self.records@.len(),
                ttl == self.ttl_spec(now),
                out@ == self.records@.subrange(0, i as int).filter(|r: ProxyRecord| r.spec_is_live())
                    .map_values(|r: ProxyRecord| response_of(r, ttl)),
            decreases self.records@.len() - i,
        {
            let ghost prefix = self.records@.subrange(0, i as int);
            let ghost prefix1 = self.records@.subrange(0, i as int + 1);
            proof {
                assert(prefix1.drop_last() =~= prefix);
                reveal(Seq::filter);
            }
            let rec = &self.records[i];
            if rec.is_live() {
                let data = if rec.is_cname() && rec.cname_target.is_some() {
                    match &rec.cname_target {
                        Some(t) => Some(ResponseData::Cname(t.clone())),
                        None => None,
                    }
                } else {
                    match rec.mapped_addr {
                        Some(IpAddress::V4(v)) => Some(ResponseData::A(v)),
                        Some(IpAddress::V6(v)) => Some(ResponseData::Aaaa(v)),
                        None => None,
                    }
                };
                out.push(ResponseRecord { name: rec.name.clone(), kind: rec.kind, ttl, data });
                proof {
                    assert(out@.last() == response_of(self.records@[i as int], ttl));
                    assert(out@ =~= prefix1.filter(|r: ProxyRecord| r.spec_is_live())
                        .map_values(|r: ProxyRecord| response_of(r, ttl)));
                }
            } else {
                proof {
                    assert(out@ =~= prefix1.filter(|r: ProxyRecord| r.spec_is_live())
                        .map_values(|r: ProxyRecord| response_of(r, ttl)));
                }
            }
            i = i + 1;
        }
        proof {
            assert(self.records@.subrange(0, self.records@.len() as int) =~= self.records@);
        }
        out
    }

    /// Splits off the records whose soft-delete instant has passed: they are
    /// removed from the set and returned, in order.
    pub fn extract_past_due(&mut self, now: u64) -> (r: Vec<ProxyRecord>)
        ensures
            final(self).domain == old(self).domain,
            final(self).resolved_at == old(self).resolved_at,
            final(self).ttl_secs() == old(self).ttl_secs(),
            final(self).records_seq()
                == old(self).records_seq().filter(|x: ProxyRecord| !x.spec_is_past_due(now)),
            r@ == old(self).records_seq().filter(|x: ProxyRecord| x.spec_is_past_due(now)),
            old(self).wf() ==> final(self).wf(),
    {
        let ghost orig = self.records@;
        let mut kept: Vec<ProxyRecord> = Vec::new();
        let mut gone: Vec<ProxyRecord> = Vec::new();
        let mut i: usize = 0;
        while i < self.records.len()
            invariant
                i <= orig.len(),
                self.records@ == orig,
                kept@ == orig.subrange(0, i as int).filter(|x: ProxyRecord| !x.spec_is_past_due(now)),
                gone@ == orig.subrange(0, i as int).filter(|x: ProxyRecord| x.spec_is_past_due(now)),
            decreases orig.len() - i,
        {
            let ghost prefix = orig.subrange(0, i as int);
            let ghost prefix1 = orig.subrange(0, i as int + 1);
            proof {
                assert(prefix1.drop_last() =~= prefix);
                reveal(Seq::filter);
            }
            let rec = &self.records[i];
            if rec.is_past_due(now) {
                gone.push(rec.duplicate());
            } else {
                kept.push(rec.duplicate());
            }
            proof {
                assert(kept@ =~= prefix1.filter(|x: ProxyRecord| !x.spec_is_past_due(now)));
                assert(gone@ =~= prefix1.filter(|x: ProxyRecord| x.spec_is_past_due(now)));
            }
            i = i + 1;
        }
        proof {
            assert(orig.subrange(0, orig.len() as int) =~= orig);
            if old(self).wf() {
                lemma_filter_keeps_wf(orig, |x: ProxyRecord| !x.spec_is_past_due(now));
            }
        }
        self.records = kept;
        gone
    }
}

/// Filtering a record sequence cannot introduce a collision.
pub proof fn lemma_filter_keeps_wf(s: Seq<ProxyRecord>, p: spec_fn(ProxyRecord) -> bool)
    requires
        forall|i: int, j: int| 0 <= i < j < s.len() ==> !record_conflicts(s[i], s[j]),
    ensures
        forall|i: int, j: int| 0 <= i < j < s.filter(p).len()
            ==> !record_conflicts(s.filter(p)[i], s.filter(p)[j]),
{
    let f = s.filter(p);
    assert forall|i: int, j: int| 0 <= i < j < f.len() implies !record_conflicts(f[i], f[j]) by {
        lemma_filter_pair_from_source(s, p, i, j);
    }
}

proof fn lemma_filter_pair_from_source(
    s: Seq<ProxyRecord>,
    p: spec_fn(ProxyRecord) -> bool,
    i: int,
    j: int,
)
    requires
        0 <= i < j < s.filter(p).len(),
        forall|a: int, b: int| 0 <= a < b < s.len() ==> !record_conflicts(s[a], s[b]),
    ensures
        !record_conflicts(s.filter(p)[i], s.filter(p)[j]),
    decreases s.len(),
{
    reveal(Seq::filter);
    if s.len() > 0 {
        let butlast = s.drop_last();
        let f = s.filter(p);
        if p(s.last()) {
            if j == f.len() - 1 {
                lemma_filter_elem_from_source(butlast, p, i);
            } else {
                lemma_filter_pair_from_source(butlast, p, i, j);
            }
        } else {
            lemma_filter_pair_from_source(butlast, p, i, j);
        }
    }
}

pub proof fn lemma_filter_elem_from_source(s: Seq<ProxyRecord>, p: spec_fn(ProxyRecord) -> bool, i: int)
    requires
        0 <= i < s.filter(p).len(),
    ensures
        exists|k: int| 0 <= k < s.len() && s[k] == s.filter(p)[i],
    decreases s.len(),
{
    reveal(Seq::filter);
    if s.len() > 0 {
        let butlast = s.drop_last();
        let f = s.filter(p);
        if p(s.last()) && i == f.len() - 1 {
            assert(s[s.len() - 1] == f[i]);
        } else {
            lemma_filter_elem_from_source(butlast, p, i);
            let k = choose|k: int| 0 <= k < butlast.len() && butlast[k] == butlast.filter(p)[i];
            assert(s[k] == s.filter(p)[i]);
        }
    }
}

/// The multiset of synthetic IPv4 addresses bound by a record sequence:
/// one occurrence per record whose mapped address is a v4 address.
pub open spec fn mapped_v4_ms(s: Seq<ProxyRecord>) -> vstd::multiset::Multiset<u32>
    decreases s.len(),
{
    if s.len() == 0 {
        vstd::multiset::Multiset::empty()
    } else {
        let rest = mapped_v4_ms(s.drop_last());
        match s.last().mapped_addr {
            Some(IpAddress::V4(v)) => rest.insert(v),
            _ => rest,
        }
    }
}

pub proof fn lemma_mapped_v4_ms_push(s: Seq<ProxyRecord>, r: ProxyRecord)
    ensures
        mapped_v4_ms(s.push(r)) == (match r.mapped_addr {
            Some(IpAddress::V4(v)) => mapped_v4_ms(s).insert(v),
            _ => mapped_v4_ms(s),
        }),
{
    assert(s.push(r).drop_last() =~= s);
}

/// Splitting a record sequence by the soft-delete deadline splits its bound
/// addresses accordingly.
pub proof fn lemma_mapped_v4_ms_split_past_due(s: Seq<ProxyRecord>, now: u64)
    ensures
        mapped_v4_ms(s) == mapped_v4_ms(s.filter(|x: ProxyRecord| x.spec_is_past_due(now))).add(
            mapped_v4_ms(s.filter(|x: ProxyRecord| !x.spec_is_past_due(now))),
        ),
    decreases s.len(),
{
    broadcast use vstd::multiset::group_multiset_axioms;

    reveal(Seq::filter);
    let due = |x: ProxyRecord| x.spec_is_past_due(now);
    let live = |x: ProxyRecord| !x.spec_is_past_due(now);
    if s.len() == 0 {
        assert(mapped_v4_ms(s) =~= mapped_v4_ms(s.filter(due)).add(mapped_v4_ms(s.filter(live))));
    } else {
        let butlast = s.drop_last();
        lemma_mapped_v4_ms_split_past_due(butlast, now);
        if due(s.last()) {
            assert(s.filter(due) == butlast.filter(due).push(s.last()));
            lemma_mapped_v4_ms_push(butlast.filter(due), s.last());
        } else {
            assert(s.filter(live) == butlast.filter(live).push(s.last()));
            lemma_mapped_v4_ms_push(butlast.filter(live), s.last());
        }
        assert(mapped_v4_ms(s) =~= mapped_v4_ms(s.filter(due)).add(mapped_v4_ms(s.filter(live))));
    }
}

/// Two record sequences with the same mapped addresses, record for record,
/// bind the same multiset of synthetic addresses.
pub proof fn lemma_mapped_v4_ms_pointwise(s1: Seq<ProxyRecord>, s2: Seq<ProxyRecord>)
    requires
        s1.len() == s2.len(),
        forall|i: int| 0 <= i < s1.len() ==> s1[i].mapped_addr == s2[i].mapped_addr,
    ensures
        mapped_v4_ms(s1) == mapped_v4_ms(s2),
    decreases s1.len(),
{
    if s1.len() > 0 {
        lemma_mapped_v4_ms_pointwise(s1.drop_last(), s2.drop_last());
    }
}

pub open spec fn same_pair(a: ProxyRecord, b: ProxyRecord) -> bool {
    a.original_addr == b.original_addr && a.mapped_addr == b.mapped_addr
}

/// Index of the first record sharing `rec`'s address pair.
pub open spec fn first_pair_index(records: Seq<ProxyRecord>, rec: ProxyRecord) -> Option<int>
    decreases records.len(),
{
    if records.len() == 0 {
        None
    } else if same_pair(records[0], rec) {
        Some(0)
    } else {
        match first_pair_index(records.drop_first(), rec) {
            Some(i) => Some(i + 1),
            None => None,
        }
    }
}

proof fn lemma_first_pair_found(records: Seq<ProxyRecord>, rec: ProxyRecord, i: int)
    requires
        0 <= i < records.len(),
        same_pair(records[i], rec),
        forall|k: int| 0 <= k < i ==> !same_pair(records[k], rec),
    ensures
        first_pair_index(records, rec) == Some(i),
    decreases i,
{
    if i == 0 {
    } else {
        assert(!same_pair(records[0], rec));
        let rest = records.drop_first();
        assert(rest[i - 1] == records[i]);
        assert forall|k: int| 0 <= k < i - 1 implies !same_pair(rest[k], rec) by {
            assert(rest[k] == records[k + 1]);
        }
        lemma_first_pair_found(rest, rec, i - 1);
    }
}

proof fn lemma_first_pair_none(records: Seq<ProxyRecord>, rec: ProxyRecord)
    requires
        forall|k: int| 0 <= k < records.len() ==> !same_pair(records[k], rec),
    ensures
        first_pair_index(records, rec) is None,
    decreases records.len(),
{
    if records.len() > 0 {
        let rest = records.drop_first();
        assert forall|k: int| 0 <= k < rest.len() implies !same_pair(rest[k], rec) by {
            assert(rest[k] == records[k + 1]);
        }
        lemma_first_pair_none(rest, rec);
    }
}

fn both_targets_eq(a: &Option<String>, b: &Option<String>) -> (r: bool)
    ensures
        r == (a is Some && b is Some && a.unwrap()@ == b.unwrap()@),
{
    match a {
        Some(x) => match b {
            Some(y) => *x == *y,
            None => false,
        },
        None => false,
    }
}

fn ip_opt_eq(a: &Option<IpAddress>, b: &Option<IpAddress>) -> (r: bool)
    ensures
        r == (a == b),
{
    match (a, b) {
        (Some(x), Some(y)) => ip_eq(x, y),
        (None, None) => true,
        _ => false,
    }
}

fn ip_eq(a: &IpAddress, b: &IpAddress) -> (r: bool)
    ensures
        r == (a == b),
{
    match (a, b) {
        (IpAddress::V4(x), IpAddress::V4(y)) => x == y,
        (IpAddress::V6(x), IpAddress::V6(y)) => x == y,
        _ => false,
    }
}

} // verus!
