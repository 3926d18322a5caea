//! Streaming parsers for the two blocklist feeds: a semicolon-delimited CSV
//! in Windows-1251 whose third field is a domain, and a newline-delimited
//! UTF-8 list of names that no longer resolve. Both are fed chunk by chunk,
//! so the body is never buffered whole.

use vstd::prelude::*;
use vstd::utf8::encode_utf8;
use crate::domain::{contains_name, prepare_domain_name, prepare_domain_spec, remove_name, Domains};

verus! {

/// A line of a feed that could not be decoded.
#[derive(PartialEq, Eq, Structural, Clone, Copy, Debug)]
pub enum FeedError {
    DecodeFailed,
}

/// What decoding a byte sequence as Windows-1251 yields: the characters and
/// whether malformed sequences were met.
pub uninterp spec fn windows1251_decode(bytes: Seq<u8>) -> (Seq<char>, bool);

/// Relies on encoding_rs's `WINDOWS_1251.decode`: the decoded characters and
/// the malformed-input flag, a function of the input bytes alone.
#[verifier::external_body]
fn decode_windows1251(buf: &Vec<u8>) -> (r: (String, bool))
    requires
        buf@.len() < usize::MAX / 4,
    ensures
        (r.0@, r.1) == windows1251_decode(buf@),
{
    let (decoded, _, had_errors) = encoding_rs::WINDOWS_1251.decode(buf.as_slice());
    (decoded.into_owned(), had_errors)
}

/// What decoding a byte sequence as UTF-8 yields, when the bytes are valid.
pub uninterp spec fn utf8_decode(bytes: Seq<u8>) -> Option<Seq<char>>;

/// Relies on `String::from_utf8`: the string whose UTF-8 encoding is the
/// given bytes, if the bytes are valid UTF-8; its result depends on the
/// bytes alone, and encoding it back gives the bytes.
#[verifier::external_body]
fn bytes_to_string(buf: &Vec<u8>) -> (r: Option<String>)
    ensures
        match r {
            Some(s) => utf8_decode(buf@) == Some(s@) && encode_utf8(s@) == buf@,
            None => utf8_decode(buf@) is None,
        },
{
    String::from_utf8(buf.clone()).ok()
}

/// What one CSV field yields once its line ends: the normalized domain, or
/// a decode failure.
pub open spec fn csv_field_domain(field: Seq<u8>) -> Result<Seq<char>, FeedError> {
    let (chars, bad) = windows1251_decode(field);
    if bad {
        Err(FeedError::DecodeFailed)
    } else {
        Ok(prepare_domain_spec(chars))
    }
}

/// Decodes one raw CSV field into a normalized domain name.
pub fn prepare_csv_domain(buf: &Vec<u8>) -> (r: Result<String, FeedError>)
    requires
        buf@.len() < usize::MAX / 4,
    ensures
        match r {
            Ok(s) => csv_field_domain(buf@) == Ok::<Seq<char>, FeedError>(s@),
            Err(e) => csv_field_domain(buf@) == Err::<Seq<char>, FeedError>(e),
        },
{
    let (decoded, had_errors) = decode_windows1251(buf);
    if had_errors {
        return Err(FeedError::DecodeFailed);
    }
    Ok(prepare_domain_name(&decoded))
}

/// What finishing a CSV line does to the imported collection: a field that
/// does not decode counts as one error; an empty or duplicate name is
/// skipped; a new name is appended.
pub open spec fn csv_line_effect(domains: Seq<Seq<char>>, field: Seq<u8>)
    -> (Seq<Seq<char>>, nat) {
    match csv_field_domain(field) {
        Err(_) => (domains, 1nat),
        Ok(d) => {
            if d.len() == 0 || contains_name(domains, d) {
                (domains, 0nat)
            } else {
                (domains.push(d), 0nat)
            }
        },
    }
}

/// The column that carries the domain, counting from one.
pub open spec fn spec_domain_column() -> u32 {
    3
}

/// What one byte does to the CSV parser and the imported collection.
pub open spec fn csv_step(col: u32, buf: Seq<u8>, domains: Seq<Seq<char>>, errors: u64, b: u8)
    -> (u32, Seq<u8>, Seq<Seq<char>>, u64) {
    if b == 10u8 {
        let (d2, e) = csv_line_effect(domains, buf);
        (1u32, Seq::empty(), d2, if errors + e > u64::MAX { u64::MAX } else { (errors + e) as u64 })
    } else if b == 59u8 {
        (if col < u32::MAX { (col + 1) as u32 } else { col }, buf, domains, errors)
    } else if col == spec_domain_column() {
        (col, buf.push(b), domains, errors)
    } else {
        (col, buf, domains, errors)
    }
}

/// `csv_step` iterated over a chunk.
pub open spec fn csv_fold(col: u32, buf: Seq<u8>, domains: Seq<Seq<char>>, errors: u64,
    bytes: Seq<u8>) -> (u32, Seq<u8>, Seq<Seq<char>>, u64)
    decreases bytes.len(),
{
    if bytes.len() == 0 {
        (col, buf, domains, errors)
    } else {
        let (c1, b1, d1, e1) = csv_step(col, buf, domains, errors, bytes[0]);
        csv_fold(c1, b1, d1, e1, bytes.drop_first())
    }
}

proof fn lemma_csv_fold_snoc(col: u32, buf: Seq<u8>, domains: Seq<Seq<char>>, errors: u64,
    bytes: Seq<u8>, b: u8)
    ensures
        csv_fold(col, buf, domains, errors, bytes.push(b)) == ({
            let (c1, b1, d1, e1) = csv_fold(col, buf, domains, errors, bytes);
            csv_step(c1, b1, d1, e1, b)
        }),
    decreases bytes.len(),
{
    reveal_with_fuel(csv_fold, 3);
    if bytes.len() == 0 {
        assert(bytes.push(b)[0] == b);
        assert(bytes.push(b).drop_first() =~= Seq::<u8>::empty());
    } else {
        assert(bytes.push(b)[0] == bytes[0]);
        assert(bytes.push(b).drop_first() =~= bytes.drop_first().push(b));
        let (c1, b1, d1, e1) = csv_step(col, buf, domains, errors, bytes[0]);
        lemma_csv_fold_snoc(c1, b1, d1, e1, bytes.drop_first(), b);
    }
}

/// The streaming parser of the CSV feed: it tracks the current column,
/// buffers the bytes of the domain column, and finishes a line at each
/// newline.
pub struct CsvDomainParser {
    pub column: u32,
    pub field: Vec<u8>,
}

impl CsvDomainParser {
    pub fn new() -> (r: CsvDomainParser)
        ensures
            r.column == 1u32,
            r.field@ == Seq::<u8>::empty(),
    {
        CsvDomainParser { column: 1, field: Vec::new() }
    }

    /// Feeds one chunk of the body; every completed line's domain column is
    /// normalized and added to `domains`, and the undecodable lines are
    /// counted into the answer.
    pub fn consume_chunk(&mut self, chunk: &Vec<u8>, domains: &mut Domains) -> (errors: u64)
        requires
            old(self).field@.len() + chunk@.len() < usize::MAX / 4,
        ensures
            (final(self).column, final(self).field@, final(domains)@, errors)
                == csv_fold(old(self).column, old(self).field@, old(domains)@, 0u64, chunk@),
            old(domains).wf() ==> final(domains).wf(),
    {
        let ghost col0 = self.column;
        let ghost buf0 = self.field@;
        let ghost doms0 = domains@;
        let mut errors: u64 = 0;
        let mut i: usize = 0;
        proof {
            assert(chunk@.subrange(0, 0) =~= Seq::<u8>::empty());
        }
        while i < chunk.len()
            invariant
                i <= chunk@.len(),
                col0 == old(self).column,
                buf0 == old(self).field@,
                doms0 == old(domains)@,
                (self.column, self.field@, domains@, errors)
                    == csv_fold(col0, buf0, doms0, 0u64, chunk@.subrange(0, i as int)),
                self.field@.len() <= buf0.len() + i,
                buf0.len() + chunk@.len() < usize::MAX / 4,
                chunk@.len() == chunk.len(),
                old(domains).wf() ==> domains.wf(),
            decreases chunk@.len() - i,
        {
            let ghost prefix = chunk@.subrange(0, i as int);
            proof {
                assert(chunk@.subrange(0, i as int + 1) =~= prefix.push(chunk@[i as int]));
                lemma_csv_fold_snoc(col0, buf0, doms0, 0u64, prefix, chunk@[i as int]);
            }
            let b = chunk[i];
            if b == 10u8 {
                proof {
                    assert(self.field@.len() <= buf0.len() + i);
                    assert(buf0.len() + i < buf0.len() + chunk@.len());
                    assert(self.field@.len() < usize::MAX / 4);
                }
                match prepare_csv_domain(&self.field) {
                    Err(_) => {
                        if errors < u64::MAX {
                            errors = errors + 1;
                        }
                    },
                    Ok(domain) => {
                        if domain.as_str().unicode_len() != 0 {
                            let _added = domains.set(domain.as_str());
                        }
                    },
                }
                self.column = 1;
                self.field = Vec::new();
            } else if b == 59u8 {
                if self.column < u32::MAX {
                    self.column = self.column + 1;
                }
            } else if self.column == 3 {
                self.field.push(b);
            }
            i = i + 1;
        }
        proof {
            assert(chunk@.subrange(0, chunk@.len() as int) =~= chunk@);
        }
        errors
    }
}

/// What finishing an NXDOMAIN line does to the imported collection: a line
/// that is not UTF-8 counts as one error; otherwise the first entry spelled
/// like the normalized name is removed.
pub open spec fn nx_line_effect(domains: Seq<Seq<char>>, line: Seq<u8>)
    -> (Seq<Seq<char>>, nat) {
    match utf8_decode(line) {
        None => (domains, 1nat),
        Some(chars) => (remove_name(domains, prepare_domain_spec(chars)), 0nat),
    }
}

/// What one byte does to the NXDOMAIN parser and the imported collection.
pub open spec fn nx_step(line: Seq<u8>, domains: Seq<Seq<char>>, errors: u64, b: u8)
    -> (Seq<u8>, Seq<Seq<char>>, u64) {
    if b == 10u8 {
        let (d2, e) = nx_line_effect(domains, line);
        (Seq::empty(), d2, if errors + e > u64::MAX { u64::MAX } else { (errors + e) as u64 })
    } else if line.len() < usize::MAX {
        (line.push(b), domains, errors)
    } else {
        (line, domains, errors)
    }
}

/// `nx_step` iterated over a chunk.
pub open spec fn nx_fold(line: Seq<u8>, domains: Seq<Seq<char>>, errors: u64, bytes: Seq<u8>)
    -> (Seq<u8>, Seq<Seq<char>>, u64)
    decreases bytes.len(),
{
    if bytes.len() == 0 {
        (line, domains, errors)
    } else {
        let (l1, d1, e1) = nx_step(line, domains, errors, bytes[0]);
        nx_fold(l1, d1, e1, bytes.drop_first())
    }
}

proof fn lemma_nx_fold_snoc(line: Seq<u8>, domains: Seq<Seq<char>>, errors: u64,
    bytes: Seq<u8>, b: u8)
    ensures
        nx_fold(line, domains, errors, bytes.push(b)) == ({
            let (l1, d1, e1) = nx_fold(line, domains, errors, bytes);
            nx_step(l1, d1, e1, b)
        }),
    decreases bytes.len(),
{
    reveal_with_fuel(nx_fold, 3);
    if bytes.len() == 0 {
        assert(bytes.push(b)[0] == b);
        assert(bytes.push(b).drop_first() =~= Seq::<u8>::empty());
    } else {
        assert(bytes.push(b)[0] == bytes[0]);
        assert(bytes.push(b).drop_first() =~= bytes.drop_first().push(b));
        let (l1, d1, e1) = nx_step(line, domains, errors, bytes[0]);
        lemma_nx_fold_snoc(l1, d1, e1, bytes.drop_first(), b);
    }
}

/// The streaming parser of the NXDOMAIN feed: plain newline-delimited UTF-8
/// names, removed from the imported collection.
pub struct NxDomainParser {
    pub line: Vec<u8>,
}

impl NxDomainParser {
    pub fn new() -> (r: NxDomainParser)
        ensures
            r.line@ == Seq::<u8>::empty(),
    {
        NxDomainParser { line: Vec::new() }
    }

    /// Feeds one chunk of the body; every completed line is decoded,
    /// normalized and removed from `domains`; lines that are not UTF-8 are
    /// counted into the answer.
    pub fn consume_chunk(&mut self, chunk: &Vec<u8>, domains: &mut Domains) -> (errors: u64)
        ensures
            (final(self).line@, final(domains)@, errors)
                == nx_fold(old(self).line@, old(domains)@, 0u64, chunk@),
            old(domains).wf() ==> final(domains).wf(),
    {
        let ghost line0 = self.line@;
        let ghost doms0 = domains@;
        let mut errors: u64 = 0;
        let mut i: usize = 0;
        proof {
            assert(chunk@.subrange(0, 0) =~= Seq::<u8>::empty());
        }
        while i < chunk.len()
            invariant
                i <= chunk@.len(),
                line0 == old(self).line@,
                doms0 == old(domains)@,
                (self.line@, domains@, errors)
                    == nx_fold(line0, doms0, 0u64, chunk@.subrange(0, i as int)),
                chunk@.len() == chunk.len(),
                old(domains).wf() ==> domains.wf(),
            decreases chunk@.len() - i,
        {
            let ghost prefix = chunk@.subrange(0, i as int);
            proof {
                assert(chunk@.subrange(0, i as int + 1) =~= prefix.push(chunk@[i as int]));
                lemma_nx_fold_snoc(line0, doms0, 0u64, prefix, chunk@[i as int]);
            }
            let b = chunk[i];
            if b == 10u8 {
                match bytes_to_string(&self.line) {
                    Some(text) => {
                        let domain = prepare_domain_name(&text);
                        let _removed = domains.remove(domain.as_str());
                    },
                    None => {
                        if errors < u64::MAX {
                            errors = errors + 1;
                        }
                    },
                }
                self.line = Vec::new();
            } else {
                if self.line.len() < usize::MAX {
                    self.line.push(b);
                }
            }
            i = i + 1;
        }
        proof {
            assert(chunk@.subrange(0, chunk@.len() as int) =~= chunk@);
        }
        errors
    }
}

} // verus!
