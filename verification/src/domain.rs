//! Domain names and collections of them: normalization of names read from
//! blocklist feeds, and an insertion-ordered set of domains.

use vstd::prelude::*;

verus! {

/// Characters a domain entry may hold: ASCII letters and digits, Cyrillic
/// letters, hyphen, underscore, dot and the wildcard star.
pub open spec fn valid_domain_char(c: char) -> bool {
    ||| ('a' <= c && c <= 'z')
    ||| ('A' <= c && c <= 'Z')
    ||| ('0' <= c && c <= '9')
    ||| ('\u{0430}' <= c && c <= '\u{044f}')
    ||| ('\u{0410}' <= c && c <= '\u{042f}')
    ||| c == '-'
    ||| c == '_'
    ||| c == '.'
    ||| c == '*'
}

pub open spec fn all_valid_domain_chars(s: Seq<char>) -> bool {
    forall|i: int| 0 <= i < s.len() ==> valid_domain_char(#[trigger] s[i])
}

/// What normalizing a feed line yields: the empty string for a name holding
/// a backslash or a character outside the allowed set, else the name with
/// one trailing dot stripped. A wildcard marker `*.` is preserved.
pub open spec fn prepare_domain_spec(s: Seq<char>) -> Seq<char> {
    if s.contains('\\') {
        Seq::empty()
    } else if !all_valid_domain_chars(s) {
        Seq::empty()
    } else if s.len() > 0 && s.last() == '.' {
        s.drop_last()
    } else {
        s
    }
}

fn char_at(s: &str, i: usize) -> (c: char)
    requires
        i < s@.len(),
    ensures
        c == s@[i as int],
{
    s.get_char(i)
}

fn valid_char(c: char) -> (r: bool)
    ensures
        r == valid_domain_char(c),
{
    ('a' <= c && c <= 'z') || ('A' <= c && c <= 'Z') || ('0' <= c && c <= '9')
        || ('\u{0430}' <= c && c <= '\u{044f}') || ('\u{0410}' <= c && c <= '\u{042f}')
        || c == '-' || c == '_' || c == '.' || c == '*'
}

/// Normalizes one name from a feed: rejects names with characters outside
/// the allowed set (yielding the empty string), and strips one trailing dot.
pub fn prepare_domain_name(domain: &String) -> (r: String)
    ensures
        r@ == prepare_domain_spec(domain@),
{
    let s = domain.as_str();
    let n = s.unicode_len();
    let mut i: usize = 0;
    while i < n
        invariant
            i <= n,
            n == s@.len(),
            s@ == domain@,
            forall|k: int| 0 <= k < i ==> s@[k] != '\\' && valid_domain_char(#[trigger] s@[k]),
        decreases n - i,
    {
        let c = char_at(s, i);
        if c == '\\' {
            proof {
                assert(domain@.contains('\\'));
            }
            return String::new();
        }
        if !valid_char(c) {
            proof {
                assert(!all_valid_domain_chars(domain@));
            }
            return String::new();
        }
        i = i + 1;
    }
    proof {
        if domain@.contains('\\') {
            let k = choose|k: int| 0 <= k < domain@.len() && domain@[k] == '\\';
            assert(valid_domain_char(domain@[k]));
        }
    }
    if n > 0 && char_at(s, n - 1) == '.' {
        let stripped = s.substring_char(0, n - 1);
        proof {
            assert(stripped@ =~= domain@.drop_last());
        }
        stripped.to_owned()
    } else {
        domain.clone()
    }
}

/// A normalized domain name.
#[derive(Debug)]
pub struct Domain {
    pub domain: String,
}

impl View for Domain {
    type V = Seq<char>;

    open spec fn view(&self) -> Seq<char> {
        self.domain@
    }
}

impl Domain {
    pub fn new(domain: &str) -> (r: Domain)
        ensures
            r@ == domain@,
    {
        Domain { domain: domain.to_owned() }
    }

    pub fn as_str(&self) -> (r: &str)
        ensures
            r@ == self@,
    {
        self.domain.as_str()
    }

    pub fn duplicate(&self) -> (r: Domain)
        ensures
            r@ == self@,
    {
        Domain { domain: self.domain.clone() }
    }
}


/// The lowercase form of one character: ASCII and Cyrillic uppercase
/// letters fold to their lowercase forms, everything else is itself.
pub open spec fn fold_char(c: char) -> char {
    match c {
        'A' => 'a',
        'B' => 'b',
        'C' => 'c',
        'D' => 'd',
        'E' => 'e',
        'F' => 'f',
        'G' => 'g',
        'H' => 'h',
        'I' => 'i',
        'J' => 'j',
        'K' => 'k',
        'L' => 'l',
        'M' => 'm',
        'N' => 'n',
        'O' => 'o',
        'P' => 'p',
        'Q' => 'q',
        'R' => 'r',
        'S' => 's',
        'T' => 't',
        'U' => 'u',
        'V' => 'v',
        'W' => 'w',
        'X' => 'x',
        'Y' => 'y',
        'Z' => 'z',
        'А' => 'а',
        'Б' => 'б',
        'В' => 'в',
        'Г' => 'г',
        'Д' => 'д',
        'Е' => 'е',
        'Ж' => 'ж',
        'З' => 'з',
        'И' => 'и',
        'Й' => 'й',
        'К' => 'к',
        'Л' => 'л',
        'М' => 'м',
        'Н' => 'н',
        'О' => 'о',
        'П' => 'п',
        'Р' => 'р',
        'С' => 'с',
        'Т' => 'т',
        'У' => 'у',
        'Ф' => 'ф',
        'Х' => 'х',
        'Ц' => 'ц',
        'Ч' => 'ч',
        'Ш' => 'ш',
        'Щ' => 'щ',
        'Ъ' => 'ъ',
        'Ы' => 'ы',
        'Ь' => 'ь',
        'Э' => 'э',
        'Ю' => 'ю',
        'Я' => 'я',
        _ => c,
    }
}

/// The lowercase form of a name, character for character.
pub open spec fn fold_case(s: Seq<char>) -> Seq<char> {
    Seq::new(s.len(), |i: int| fold_char(s[i]))
}

/// Folds one character to lowercase.
pub fn fold_char_exec(c: char) -> (r: char)
    ensures
        r == fold_char(c),
{
    match c {
        'A' => 'a',
        'B' => 'b',
        'C' => 'c',
        'D' => 'd',
        'E' => 'e',
        'F' => 'f',
        'G' => 'g',
        'H' => 'h',
        'I' => 'i',
        'J' => 'j',
        'K' => 'k',
        'L' => 'l',
        'M' => 'm',
        'N' => 'n',
        'O' => 'o',
        'P' => 'p',
        'Q' => 'q',
        'R' => 'r',
        'S' => 's',
        'T' => 't',
        'U' => 'u',
        'V' => 'v',
        'W' => 'w',
        'X' => 'x',
        'Y' => 'y',
        'Z' => 'z',
        'А' => 'а',
        'Б' => 'б',
        'В' => 'в',
        'Г' => 'г',
        'Д' => 'д',
        'Е' => 'е',
        'Ж' => 'ж',
        'З' => 'з',
        'И' => 'и',
        'Й' => 'й',
        'К' => 'к',
        'Л' => 'л',
        'М' => 'м',
        'Н' => 'н',
        'О' => 'о',
        'П' => 'п',
        'Р' => 'р',
        'С' => 'с',
        'Т' => 'т',
        'У' => 'у',
        'Ф' => 'ф',
        'Х' => 'х',
        'Ц' => 'ц',
        'Ч' => 'ч',
        'Ш' => 'ш',
        'Щ' => 'щ',
        'Ъ' => 'ъ',
        'Ы' => 'ы',
        'Ь' => 'ь',
        'Э' => 'э',
        'Ю' => 'ю',
        'Я' => 'я',
        _ => c,
    }
}

/// Whether the collection holds an entry spelled exactly `x`.
pub open spec fn contains_name(s: Seq<Seq<char>>, x: Seq<char>) -> bool {
    exists|i: int| 0 <= i < s.len() && s[i] == x
}

/// An insertion-ordered collection of distinct domain entries.
#[derive(Debug)]
pub struct Domains {
    pub domains: Vec<Domain>,
}

impl View for Domains {
    type V = Seq<Seq<char>>;

    open spec fn view(&self) -> Seq<Seq<char>> {
        Seq::new(self.domains@.len(), |i: int| self.domains@[i]@)
    }
}

impl Domains {
    /// Entries are pairwise distinct.
    pub open spec fn wf(&self) -> bool {
        forall|i: int, j: int| 0 <= i < j < self@.len() ==> self@[i] != self@[j]
    }

    pub fn new() -> (r: Domains)
        ensures
            r@ == Seq::<Seq<char>>::empty(),
            r.wf(),
    {
        Domains { domains: Vec::new() }
    }

    pub fn count(&self) -> (r: usize)
        ensures
            r == self@.len(),
    {
        self.domains.len()
    }

    /// The entry spelled exactly `domain`, if present.
    pub fn get(&self, domain: &str) -> (r: Option<&Domain>)
        ensures
            match r {
                Some(d) => d@ == domain@ && contains_name(self@, domain@),
                None => !contains_name(self@, domain@),
            },
    {
        let mut i: usize = 0;
        while i < self.domains.len()
            invariant
                i <= self.domains@.len(),
                forall|k: int| 0 <= k < i ==> self@[k] != domain@,
            decreases self.domains@.len() - i,
        {
            let d = &self.domains[i];
            if str_eq(d.as_str(), domain) {
                proof {
                    assert(self@[i as int] == domain@);
                }
                return Some(d);
            }
            i = i + 1;
        }
        None
    }

    /// A copy of the entry spelled exactly `domain`, if present.
    pub fn get_copy(&self, domain: &str) -> (r: Option<Domain>)
        ensures
            match r {
                Some(d) => d@ == domain@ && contains_name(self@, domain@),
                None => !contains_name(self@, domain@),
            },
    {
        match self.get(domain) {
            Some(d) => Some(d.duplicate()),
            None => None,
        }
    }

    pub fn contains(&self, domain: &str) -> (r: bool)
        ensures
            r == contains_name(self@, domain@),
    {
        match self.get(domain) {
            Some(_) => true,
            None => false,
        }
    }

    /// Adds an entry unless it is already present; answers whether it was
    /// newly added.
    pub fn set(&mut self, domain: &str) -> (r: bool)
        ensures
            r == !contains_name(old(self)@, domain@),
            r ==> final(self)@ == old(self)@.push(domain@),
            !r ==> final(self)@ == old(self)@,
            old(self).wf() ==> final(self).wf(),
    {
        if self.contains(domain) {
            false
        } else {
            let ghost olds = self@;
            self.domains.push(Domain::new(domain));
            proof {
                assert(self@ =~= olds.push(domain@));
                if old(self).wf() {
                    assert forall|i: int, j: int| 0 <= i < j < self@.len() implies
                        self@[i] != self@[j] by {
                        if j == self@.len() - 1 {
                            assert(!contains_name(olds, domain@));
                            assert(olds[i] != domain@);
                        }
                    }
                }
            }
            true
        }
    }

    /// Adds an entry given as a `Domain`, deduplicating.
    pub fn insert(&mut self, domain: Domain) -> (r: bool)
        ensures
            r == !contains_name(old(self)@, domain@),
            r ==> final(self)@ == old(self)@.push(domain@),
            !r ==> final(self)@ == old(self)@,
            old(self).wf() ==> final(self).wf(),
    {
        self.set(domain.as_str())
    }

    /// Drops the first entry spelled exactly `domain`, if present; answers
    /// whether one was dropped.
    pub fn remove(&mut self, domain: &str) -> (r: bool)
        ensures
            r == contains_name(old(self)@, domain@),
            final(self)@ == remove_name(old(self)@, domain@),
            forall|x: Seq<char>| x != domain@
                ==> contains_name(final(self)@, x) == contains_name(old(self)@, x),
            !contains_name(final(self)@, domain@) || !old(self).wf(),
            old(self).wf() ==> final(self).wf(),
    {
        let ghost olds = self@;
        let mut i: usize = 0;
        while i < self.domains.len()
            invariant
                i <= self.domains@.len(),
                self@ == olds,
                olds == old(self)@,
                forall|k: int| 0 <= k < i ==> olds[k] != domain@,
            decreases self.domains@.len() - i,
        {
            let d = &self.domains[i];
            if str_eq(d.as_str(), domain) {
                proof {
                    assert(olds[i as int] == domain@);
                    lemma_first_name_found(olds, domain@, i as int);
                }
                self.domains.remove(i);
                proof {
                    assert(self@ =~= olds.remove(i as int));
                    let s = self@;
                    assert forall|x: Seq<char>| x != domain@ implies
                        contains_name(s, x) == contains_name(olds, x) by {
                        if contains_name(s, x) {
                            let a = choose|a: int| 0 <= a < s.len() && s[a] == x;
                            let oa = if a < i as int { a } else { a + 1 };
                            assert(olds[oa] == x);
                        }
                        if contains_name(olds, x) {
                            let a = choose|a: int| 0 <= a < olds.len() && olds[a] == x;
                            if a < i as int {
                                assert(s[a] == x);
                            } else {
                                assert(s[a - 1] == x);
                            }
                        }
                    }
                    if old(self).wf() {
                        assert forall|a: int, b: int| 0 <= a < b < s.len() implies
                            s[a] != s[b] by {
                            let oa = if a < i as int { a } else { a + 1 };
                            let ob = if b < i as int { b } else { b + 1 };
                            assert(s[a] == olds[oa] && s[b] == olds[ob]);
                        }
                        if contains_name(s, domain@) {
                            let a = choose|a: int| 0 <= a < s.len() && s[a] == domain@;
                            let oa = if a < i as int { a } else { a + 1 };
                            assert(olds[oa] == domain@ && olds[i as int] == domain@);
                        }
                    }
                }
                return true;
            }
            i = i + 1;
        }
        proof {
            lemma_first_name_none(olds, domain@);
        }
        false
    }

    /// Adds every entry of `domains`, deduplicating.
    pub fn extend(&mut self, domains: Vec<Domain>)
        ensures
            forall|x: Seq<char>| contains_name(final(self)@, x)
                == (contains_name(old(self)@, x) || contains_name(domains@.map_values(
                    |d: Domain| d@), x)),
            old(self).wf() ==> final(self).wf(),
    {
        let ghost arg = domains@.map_values(|d: Domain| d@);
        let mut i: usize = 0;
        while i < domains.len()
            invariant
                i <= domains@.len(),
                arg == domains@.map_values(|d: Domain| d@),
                forall|x: Seq<char>| contains_name(self@, x)
                    == (contains_name(old(self)@, x)
                        || contains_name(arg.subrange(0, i as int), x)),
                old(self).wf() ==> self.wf(),
            decreases domains@.len() - i,
        {
            let ghost prev = self@;
            let ghost prefix = arg.subrange(0, i as int);
            let added = self.set(domains[i].as_str());
            proof {
                assert(arg[i as int] == domains@[i as int]@);
                assert(arg.subrange(0, i as int + 1) =~= prefix.push(arg[i as int]));
                lemma_contains_after_insert(prev, self@, old(self)@, prefix, arg[i as int], added);
            }
            i = i + 1;
        }
        proof {
            assert(arg.subrange(0, arg.len() as int) =~= arg);
        }
    }

    /// Empties the collection.
    pub fn cleanup(&mut self)
        ensures
            final(self)@ == Seq::<Seq<char>>::empty(),
            final(self).wf(),
    {
        self.domains = Vec::new();
        proof {
            assert(self@ =~= Seq::<Seq<char>>::empty());
        }
    }

    /// The entries, for iteration from the outside.
    pub fn entries(&self) -> (r: &Vec<Domain>)
        ensures
            r@.map_values(|d: Domain| d@) == self@,
    {
        proof {
            assert(self.domains@.map_values(|d: Domain| d@) =~= self@);
        }
        &self.domains
    }
}

proof fn lemma_contains_after_insert(
    prev: Seq<Seq<char>>,
    now: Seq<Seq<char>>,
    base: Seq<Seq<char>>,
    prefix: Seq<Seq<char>>,
    d: Seq<char>,
    added: bool,
)
    requires
        added ==> now == prev.push(d),
        !added ==> now == prev && contains_name(prev, d),
        forall|x: Seq<char>| contains_name(prev, x)
            == (contains_name(base, x) || contains_name(prefix, x)),
    ensures
        forall|x: Seq<char>| contains_name(now, x)
            == (contains_name(base, x) || contains_name(prefix.push(d), x)),
{
    assert forall|x: Seq<char>| contains_name(now, x)
        == (contains_name(base, x) || contains_name(prefix.push(d), x)) by {
        let ext = prefix.push(d);
        if contains_name(now, x) {
            let a = choose|a: int| 0 <= a < now.len() && now[a] == x;
            if added {
                if a < prev.len() {
                    assert(prev[a] == x);
                    assert(contains_name(prev, x));
                } else {
                    assert(x == d);
                    assert(ext[ext.len() - 1] == x);
                }
            } else {
                assert(contains_name(prev, x));
            }
            if contains_name(prefix, x) {
                let b = choose|b: int| 0 <= b < prefix.len() && prefix[b] == x;
                assert(ext[b] == x);
            }
            if x == d {
                assert(ext[ext.len() - 1] == x);
            }
        }
        if contains_name(base, x) {
            assert(contains_name(prev, x));
            let a = choose|a: int| 0 <= a < prev.len() && prev[a] == x;
            assert(now[a] == x);
        }
        if contains_name(ext, x) {
            let a = choose|a: int| 0 <= a < ext.len() && ext[a] == x;
            if a < prefix.len() {
                assert(prefix[a] == x);
                assert(contains_name(prefix, x));
                assert(contains_name(prev, x));
                let b = choose|b: int| 0 <= b < prev.len() && prev[b] == x;
                assert(now[b] == x);
            } else {
                assert(x == d);
                if added {
                    assert(now[now.len() - 1] == x);
                } else {
                    let b = choose|b: int| 0 <= b < prev.len() && prev[b] == d;
                    assert(now[b] == x);
                }
            }
        }
    }
}

/// Index of the first entry spelled exactly `x`.
pub open spec fn first_name_index(s: Seq<Seq<char>>, x: Seq<char>) -> Option<int>
    decreases s.len(),
{
    if s.len() == 0 {
        None
    } else if s[0] == x {
        Some(0)
    } else {
        match first_name_index(s.drop_first(), x) {
            Some(i) => Some(i + 1),
            None => None,
        }
    }
}

/// What dropping the first entry spelled `x` leaves.
pub open spec fn remove_name(s: Seq<Seq<char>>, x: Seq<char>) -> Seq<Seq<char>> {
    match first_name_index(s, x) {
        Some(i) => s.remove(i),
        None => s,
    }
}

proof fn lemma_first_name_found(s: Seq<Seq<char>>, x: Seq<char>, i: int)
    requires
        0 <= i < s.len(),
        s[i] == x,
        forall|k: int| 0 <= k < i ==> s[k] != x,
    ensures
        first_name_index(s, x) == Some(i),
    decreases i,
{
    if i > 0 {
        let rest = s.drop_first();
        assert(rest[i - 1] == s[i]);
        assert forall|k: int| 0 <= k < i - 1 implies rest[k] != x by {
            assert(rest[k] == s[k + 1]);
        }
        lemma_first_name_found(rest, x, i - 1);
    }
}

proof fn lemma_first_name_none(s: Seq<Seq<char>>, x: Seq<char>)
    requires
        forall|k: int| 0 <= k < s.len() ==> s[k] != x,
    ensures
        first_name_index(s, x) is None,
    decreases s.len(),
{
    if s.len() > 0 {
        let rest = s.drop_first();
        assert forall|k: int| 0 <= k < rest.len() implies rest[k] != x by {
            assert(rest[k] == s[k + 1]);
        }
        lemma_first_name_none(rest, x);
    }
}

/// Character-for-character string equality.
pub fn str_eq(a: &str, b: &str) -> (r: bool)
    ensures
        r == (a@ == b@),
{
    let la = a.unicode_len();
    let lb = b.unicode_len();
    if la != lb {
        return false;
    }
    let mut i: usize = 0;
    while i < la
        invariant
            i <= la,
            la == a@.len(),
            la == b@.len(),
            forall|k: int| 0 <= k < i ==> a@[k] == b@[k],
        decreases la - i,
    {
        if char_at(a, i) != char_at(b, i) {
            return false;
        }
        i = i + 1;
    }
    proof {
        assert(a@ =~= b@);
    }
    true
}

} // verus!
