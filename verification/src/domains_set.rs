//! Blocklist membership: the three domain collections and the wildcard
//! matching rule that decides whether a queried name is blocked.

use vstd::prelude::*;
use crate::domain::{contains_name, fold_case, fold_char, fold_char_exec, Domains};

verus! {

/// Whether `s` is `n` or a proper dot-suffix of `n`: the labels of `s` end
/// `n` right after a dot.
pub open spec fn is_dot_suffix(s: Seq<char>, n: Seq<char>) -> bool {
    ||| s == n
    ||| (n.len() > s.len() && n[n.len() - s.len() - 1] == '.'
        && n.skip(n.len() - s.len()) == s)
}

/// Whether a blocklist entry matches a (normalized) queried name: an exact
/// entry matches only itself; the entry `*` matches everything; a wildcard
/// entry `*.suffix` matches `suffix` itself and every subdomain of it.
pub open spec fn entry_matches(e: Seq<char>, n: Seq<char>) -> bool {
    ||| e == n
    ||| e == seq!['*']
    ||| (e.len() >= 2 && e[0] == '*' && e[1] == '.' && is_dot_suffix(e.skip(2), n))
}

/// Whether any entry of the collection matches the name; case is ignored,
/// for ASCII and Cyrillic letters alike, so entries and queries match in
/// their lowercase forms.
pub open spec fn any_matches(entries: Seq<Seq<char>>, n: Seq<char>) -> bool {
    exists|i: int| 0 <= i < entries.len()
        && entry_matches(fold_case(#[trigger] entries[i]), fold_case(n))
}

/// Folding to lowercase moves no character in or out of the structural
/// markers of an entry: the star and the dot fold to themselves only.
proof fn lemma_fold_keeps_markers(c: char)
    ensures
        fold_char(c) == '*' <==> c == '*',
        fold_char(c) == '.' <==> c == '.',
{
}

/// The name with every trailing dot removed.
pub open spec fn trim_trailing_dots(s: Seq<char>) -> Seq<char>
    decreases s.len(),
{
    if s.len() > 0 && s.last() == '.' {
        trim_trailing_dots(s.drop_last())
    } else {
        s
    }
}

/// Whether one entry matches the name, ignoring case; compares character
/// by character.
pub fn entry_matches_exec(entry: &str, name: &str) -> (r: bool)
    ensures
        r == entry_matches(fold_case(entry@), fold_case(name@)),
{
    let ghost fe = fold_case(entry@);
    let ghost fname = fold_case(name@);
    if folded_eq(entry, name) {
        return true;
    }
    let el = entry.unicode_len();
    let nl = name.unicode_len();
    if el == 1 && entry.get_char(0) == '*' {
        proof {
            lemma_fold_keeps_markers(entry@[0]);
            assert(fe =~= seq!['*']);
        }
        return true;
    }
    proof {
        if fe == seq!['*'] {
            assert(fe.len() == 1 && fe[0] == '*');
            lemma_fold_keeps_markers(entry@[0]);
        }
    }
    if el >= 2 && entry.get_char(0) == '*' && entry.get_char(1) == '.' {
        proof {
            lemma_fold_keeps_markers(entry@[0]);
            lemma_fold_keeps_markers(entry@[1]);
        }
        let sl = el - 2;
        let ghost suffix = fe.skip(2);
        proof {
            assert(suffix.len() == sl);
        }
        if sl == nl {
            // the suffix must equal the whole name
            let mut k: usize = 0;
            while k < sl
                invariant
                    k <= sl,
                    entry@.len() >= 2,
                    entry@.len() <= usize::MAX,
                    sl == entry@.len() - 2,
                    sl == name@.len(),
                    fe == fold_case(entry@),
                    fname == fold_case(name@),
                    suffix == fe.skip(2),
                    forall|j: int| 0 <= j < k ==> suffix[j] == fname[j],
                decreases sl - k,
            {
                if fold_char_exec(entry.get_char(2 + k)) != fold_char_exec(name.get_char(k)) {
                    proof {
                        assert(suffix[k as int] == fold_char(entry@[2 + k as int]));
                        assert(fname[k as int] == fold_char(name@[k as int]));
                        assert(suffix != fname);
                        assert(!is_dot_suffix(suffix, fname));
                    }
                    return false;
                }
                proof {
                    assert(suffix[k as int] == fold_char(entry@[2 + k as int]));
                }
                k = k + 1;
            }
            proof {
                assert(suffix =~= fname);
            }
            return true;
        } else if nl > sl {
            if fold_char_exec(name.get_char(nl - sl - 1)) != '.' {
                proof {
                    assert(fname[nl - sl - 1] != '.');
                    assert(!is_dot_suffix(suffix, fname));
                }
                return false;
            }
            let off = nl - sl;
            let mut k: usize = 0;
            while k < sl
                invariant
                    k <= sl,
                    entry@.len() >= 2,
                    entry@.len() <= usize::MAX,
                    sl == entry@.len() - 2,
                    off >= 1,
                    name@.len() <= usize::MAX,
                    name@.len() == off + sl,
                    off == name@.len() - sl,
                    fe == fold_case(entry@),
                    fname == fold_case(name@),
                    suffix == fe.skip(2),
                    forall|j: int| 0 <= j < k ==> suffix[j] == fname[off + j],
                decreases sl - k,
            {
                if fold_char_exec(entry.get_char(2 + k))
                    != fold_char_exec(name.get_char(off + k)) {
                    proof {
                        assert(suffix[k as int] == fold_char(entry@[2 + k as int]));
                        assert(fname[off + k as int] == fold_char(name@[off + k as int]));
                        assert(fname.skip(off as int)[k as int] == fname[off + k as int]);
                        assert(suffix != fname.skip(off as int));
                        assert(suffix.len() != fname.len());
                        assert(!is_dot_suffix(suffix, fname));
                    }
                    return false;
                }
                proof {
                    assert(suffix[k as int] == fold_char(entry@[2 + k as int]));
                }
                k = k + 1;
            }
            proof {
                assert(suffix =~= fname.skip(off as int));
                assert(is_dot_suffix(suffix, fname));
            }
            return true;
        } else {
            proof {
                assert(suffix.len() > fname.len());
                assert(!is_dot_suffix(suffix, fname));
            }
            return false;
        }
    }
    proof {
        if fe.len() >= 2 && fe[0] == '*' && fe[1] == '.' {
            lemma_fold_keeps_markers(entry@[0]);
            lemma_fold_keeps_markers(entry@[1]);
        }
    }
    false
}

/// Character-for-character equality of the lowercase forms.
fn folded_eq(a: &str, b: &str) -> (r: bool)
    ensures
        r == (fold_case(a@) == fold_case(b@)),
{
    let la = a.unicode_len();
    let lb = b.unicode_len();
    if la != lb {
        proof {
            assert(fold_case(a@).len() != fold_case(b@).len());
        }
        return false;
    }
    let mut i: usize = 0;
    while i < la
        invariant
            i <= la,
            la == a@.len(),
            la == b@.len(),
            forall|k: int| 0 <= k < i ==> fold_case(a@)[k] == fold_case(b@)[k],
        decreases la - i,
    {
        if fold_char_exec(a.get_char(i)) != fold_char_exec(b.get_char(i)) {
            proof {
                assert(fold_case(a@)[i as int] != fold_case(b@)[i as int]);
            }
            return false;
        }
        i = i + 1;
    }
    proof {
        assert(fold_case(a@) =~= fold_case(b@));
    }
    true
}

/// Whether any entry of `domains` matches the name.
pub fn is_domain_in_domains(name: &str, domains: &Domains) -> (r: bool)
    ensures
        r == any_matches(domains@, name@),
{
    let entries = domains.entries();
    let mut i: usize = 0;
    while i < entries.len()
        invariant
            i <= entries@.len(),
            entries@.map_values(|d: crate::domain::Domain| d@) == domains@,
            forall|k: int| 0 <= k < i
                ==> !entry_matches(fold_case(#[trigger] domains@[k]), fold_case(name@)),
        decreases entries@.len() - i,
    {
        proof {
            assert(domains@[i as int] == entries@[i as int]@);
        }
        if entry_matches_exec(entries[i].as_str(), name) {
            return true;
        }
        i = i + 1;
    }
    false
}

/// Strips every trailing dot of the queried name.
fn trim_dots_exec(name: &str) -> (r: &str)
    ensures
        r@ == trim_trailing_dots(name@),
{
    let mut end: usize = name.unicode_len();
    proof {
        assert(name@.subrange(0, name@.len() as int) =~= name@);
    }
    while end > 0 && name.get_char(end - 1) == '.'
        invariant
            end <= name@.len(),
            trim_trailing_dots(name@.subrange(0, end as int)) == trim_trailing_dots(name@),
        decreases end,
    {
        proof {
            assert(name@.subrange(0, end as int).drop_last()
                =~= name@.subrange(0, end as int - 1));
        }
        end = end - 1;
    }
    let r = name.substring_char(0, end);
    proof {
        let prefix = name@.subrange(0, end as int);
        assert(r@ == prefix);
        if prefix.len() > 0 {
            assert(prefix.last() != '.');
        }
    }
    r
}

/// The three collections the blocklist is made of: operator-blocked names,
/// operator-allowed names (which win), and the imported feeds.
#[derive(Debug)]
pub struct DomainsSet {
    pub included_domains: Domains,
    pub excluded_domains: Domains,
    pub imported_domains: Domains,
}

/// Whether the blocklist blocks a name: no exclusion matches, and an
/// inclusion or an imported entry matches. Trailing dots of the queried
/// name are ignored, and so is case, of ASCII and Cyrillic letters alike.
pub open spec fn blocked_spec(ds: DomainsSet, name: Seq<char>) -> bool {
    let n = trim_trailing_dots(name);
    &&& !any_matches(ds.excluded_domains@, n)
    &&& (any_matches(ds.included_domains@, n) || any_matches(ds.imported_domains@, n))
}

impl DomainsSet {
    pub fn new() -> (r: DomainsSet)
        ensures
            r.included_domains@ == Seq::<Seq<char>>::empty(),
            r.excluded_domains@ == Seq::<Seq<char>>::empty(),
            r.imported_domains@ == Seq::<Seq<char>>::empty(),
            r.included_domains.wf() && r.excluded_domains.wf() && r.imported_domains.wf(),
    {
        DomainsSet {
            included_domains: Domains::new(),
            excluded_domains: Domains::new(),
            imported_domains: Domains::new(),
        }
    }

    /// Decides membership per the blocklist rule.
    pub fn is_domain_blocked(&self, name: &str) -> (r: bool)
        ensures
            r == blocked_spec(*self, name@),
    {
        let name = trim_dots_exec(name);
        if is_domain_in_domains(name, &self.excluded_domains) {
            return false;
        }
        if is_domain_in_domains(name, &self.included_domains) {
            return true;
        }
        if is_domain_in_domains(name, &self.imported_domains) {
            return true;
        }
        false
    }

    /// Adds an operator override blocking `domain`.
    pub fn add_blocked_domain(&mut self, domain: &str)
        ensures
            contains_name(final(self).included_domains@, domain@),
            !contains_name(old(self).included_domains@, domain@)
                ==> final(self).included_domains@ == old(self).included_domains@.push(domain@),
            contains_name(old(self).included_domains@, domain@)
                ==> final(self).included_domains@ == old(self).included_domains@,
            final(self).excluded_domains == old(self).excluded_domains,
            final(self).imported_domains == old(self).imported_domains,
            old(self).included_domains.wf() ==> final(self).included_domains.wf(),
    {
        let added = self.included_domains.set(domain);
        proof {
            if added {
                let s = self.included_domains@;
                assert(s[s.len() - 1] == domain@);
            }
        }
    }

    /// Adds an operator override allowing `domain`.
    pub fn add_excluded_domain(&mut self, domain: &str)
        ensures
            contains_name(final(self).excluded_domains@, domain@),
            !contains_name(old(self).excluded_domains@, domain@)
                ==> final(self).excluded_domains@ == old(self).excluded_domains@.push(domain@),
            contains_name(old(self).excluded_domains@, domain@)
                ==> final(self).excluded_domains@ == old(self).excluded_domains@,
            final(self).included_domains == old(self).included_domains,
            final(self).imported_domains == old(self).imported_domains,
            old(self).excluded_domains.wf() ==> final(self).excluded_domains.wf(),
    {
        let added = self.excluded_domains.set(domain);
        proof {
            if added {
                let s = self.excluded_domains@;
                assert(s[s.len() - 1] == domain@);
            }
        }
    }
}

/// After blocking a normalized name, the name is blocked, provided no
/// exclusion matches it.
pub proof fn lemma_insert_then_blocked(before: DomainsSet, after: DomainsSet, d: Seq<char>)
    requires
        trim_trailing_dots(d) == d,
        !any_matches(before.excluded_domains@, d),
        after.excluded_domains == before.excluded_domains,
        contains_name(after.included_domains@, d),
    ensures
        blocked_spec(after, d),
{
    let i = choose|i: int| 0 <= i < after.included_domains@.len()
        && after.included_domains@[i] == d;
    assert(entry_matches(fold_case(after.included_domains@[i]), fold_case(d)));
}

} // verus!
