use vstd::prelude::*;
use vstd::string::{StrSliceExecFns, StringExecFns};

use crate::alphabet::{alphabet_index, alphabet_pos};

verus! {

/// Length of the fixed chunk header: version, index, message id and one check character.
pub const HEADER_LEN: usize = 16;

/// Why a query label was not accepted as a chunk.
#[derive(Debug, Clone, Copy, PartialEq, Eq)]
pub enum ChunkError {
    /// The root domain could not be turned into a pattern.
    BadDomain,
    /// The normalized label is shorter than the header.
    TooShort,
    /// The version character is neither 'A' nor 'B'.
    BadVersion,
    /// The index character is not in the base32 alphabet.
    BadIndex,
    /// The header does not fold to zero.
    BadChecksum,
}

/// Exclusive-or fold of the alphabet positions of `s`; `None` if a character is not in the alphabet.
pub open spec fn header_fold(s: Seq<char>) -> Option<u8>
    decreases s.len(),
{
    if s.len() == 0 {
        Some(0u8)
    } else {
        match (header_fold(s.drop_last()), alphabet_pos(s.last())) {
            (Some(a), Some(p)) => Some(a ^ (p as u8)),
            _ => None,
        }
    }
}

/// A header passes the check when every character is in the alphabet and the fold is zero.
pub open spec fn checksum_ok(header: Seq<char>) -> bool {
    header_fold(header) == Some(0u8)
}

/// Upper-cases an ASCII letter and leaves every other character alone.
pub open spec fn ascii_upper(c: char) -> char {
    if 'a' <= c && c <= 'z' {
        ((c as u32) - 32) as char
    } else {
        c
    }
}

/// The decoding surface of a label: its dots removed, then upper-cased.
pub open spec fn normalize(s: Seq<char>) -> Seq<char> {
    s.filter(|c: char| c != '.').map_values(|c: char| ascii_upper(c))
}

/// The error that a normalized label gives, if any.
pub open spec fn label_error(s: Seq<char>) -> Option<ChunkError> {
    if s.len() < HEADER_LEN {
        Some(ChunkError::TooShort)
    } else if s[0] != 'A' && s[0] != 'B' {
        Some(ChunkError::BadVersion)
    } else if alphabet_pos(s[1]) is None {
        Some(ChunkError::BadIndex)
    } else if !checksum_ok(s.take(HEADER_LEN as int)) {
        Some(ChunkError::BadChecksum)
    } else {
        None
    }
}

/// Computes the header check over the characters of `header`.
pub fn checksum(header: &str) -> (r: bool)
    ensures
        r == checksum_ok(header@),
{
    let n = header.unicode_len();
    let mut check: u8 = 0;
    let mut i: usize = 0;
    while i < n
        invariant
            n == header@.len(),
            i <= n,
            header_fold(header@.take(i as int)) == Some(check),
        decreases n - i,
    {
        let h = header.get_char(i);
        assert(header@.take(i as int + 1).drop_last() == header@.take(i as int));
        match alphabet_index(h) {
            Some(p) => {
                check = check ^ p;
            },
            None => {
                proof {
                    lemma_fold_none_extends(header@, i as int + 1);
                }
                return false;
            },
        }
        i = i + 1;
    }
    assert(header@.take(n as int) == header@);
    check == 0
}

/// Replacing one alphabet character by another changes the fold by both positions.
proof fn lemma_fold_update(h: Seq<char>, k: int, c: char)
    requires
        0 <= k < h.len(),
        header_fold(h) is Some,
        alphabet_pos(c) is Some,
    ensures
        alphabet_pos(h[k]) is Some,
        header_fold(h.update(k, c)) == Some(
            header_fold(h).unwrap() ^ (alphabet_pos(h[k]).unwrap() as u8) ^ (alphabet_pos(c).unwrap() as u8),
        ),
    decreases h.len(),
{
    let u = h.update(k, c);
    let x = header_fold(h.drop_last()).unwrap();
    if k == h.len() - 1 {
        assert(u.drop_last() == h.drop_last());
        let p = alphabet_pos(h[k]).unwrap() as u8;
        let q = alphabet_pos(c).unwrap() as u8;
        assert((x ^ p) ^ p ^ q == x ^ q) by (bit_vector);
    } else {
        assert(u.drop_last() == h.drop_last().update(k, c));
        lemma_fold_update(h.drop_last(), k, c);
        let l = alphabet_pos(h.last()).unwrap() as u8;
        let p = alphabet_pos(h[k]).unwrap() as u8;
        let q = alphabet_pos(c).unwrap() as u8;
        assert((x ^ p ^ q) ^ l == (x ^ l) ^ p ^ q) by (bit_vector);
    }
}

/// A header that passes the check fails it once any one character is replaced
/// by a different alphabet character.
pub proof fn lemma_single_substitution_detected(header: Seq<char>, k: int, c: char)
    requires
        header.len() == HEADER_LEN,
        checksum_ok(header),
        0 <= k < HEADER_LEN,
        alphabet_pos(c) is Some,
        c != header[k],
    ensures
        !checksum_ok(header.update(k, c)),
{
    lemma_fold_update(header, k, c);
    let p = alphabet_pos(header[k]).unwrap() as u8;
    let q = alphabet_pos(c).unwrap() as u8;
    assert(p != q);
    assert(p != q ==> (0u8 ^ p) ^ q != 0) by (bit_vector);
}

/// Once a prefix has no fold, no longer prefix has one.
proof fn lemma_fold_none_extends(s: Seq<char>, k: int)
    requires
        0 <= k <= s.len(),
        header_fold(s.take(k)) is None,
    ensures
        header_fold(s) is None,
    decreases s.len() - k,
{
    if k < s.len() {
        assert(s.take(k + 1).drop_last() == s.take(k));
        lemma_fold_none_extends(s, k + 1);
    } else {
        assert(s.take(k) == s);
    }
}

/// What removing the first match of the regular expression `pattern` leaves
/// of `text`, or `None` where `pattern` does not compile.
pub uninterp spec fn pattern_removed(text: Seq<char>, pattern: Seq<char>) -> Option<Seq<char>>;

/// The pattern of the root domain, anchored at the end of the name.
pub open spec fn root_pattern(domain: Seq<char>) -> Seq<char> {
    domain.push('$')
}

/// What the root-domain pattern leaves of a query name.
pub open spec fn without_root(name: Seq<char>, domain: Seq<char>) -> Option<Seq<char>> {
    pattern_removed(name, root_pattern(domain))
}

/// Relies on regex::Regex::new and Regex::replace with an empty replacement:
/// `pattern` is compiled and its first match in `text` removed.
#[verifier::external_body]
fn remove_first_match(text: &str, pattern: &str) -> (r: Option<String>)
    ensures
        match r {
            Some(t) => pattern_removed(text@, pattern@) == Some(t@),
            None => pattern_removed(text@, pattern@) is None,
        },
{
    match regex::Regex::new(pattern) {
        Ok(rg) => Some(rg.replace(text, "").into_owned()),
        Err(_) => None,
    }
}

/// Relies on regex::Regex::replace_all with the pattern `\.+` and an empty
/// replacement: every run of dots is removed.
#[verifier::external_body]
fn remove_dots(s: &str) -> (r: String)
    ensures
        r@ == s@.filter(|c: char| c != '.'),
{
    regex::Regex::new(r"\.+").unwrap().replace_all(s, "").into_owned()
}

/// Relies on str::to_ascii_uppercase: ASCII letters are upper-cased, all else is kept.
#[verifier::external_body]
fn to_upper(s: &str) -> (r: String)
    ensures
        r@ == s@.map_values(|c: char| ascii_upper(c)),
{
    s.to_ascii_uppercase()
}

/// One decoded label: `source` is the normalized label, the rest is read from its header.
#[derive(Debug)]
pub struct MessageChunk {
    pub source: String,
    pub idx: u8,
    pub version: char,
    pub last: bool,
}

impl MessageChunk {
    /// The fields agree with a normalized label that passed every check.
    pub open spec fn wf(&self) -> bool {
        &&& label_error(self.source@) is None
        &&& self.version == self.source@[0]
        &&& alphabet_pos(self.source@[1]) == Some(self.idx as nat)
        &&& self.last == (self.version == 'B')
    }

    /// Characters 2 to 14 of the label: the message id.
    pub open spec fn id_spec(&self) -> Seq<char> {
        self.source@.subrange(2, 15)
    }

    /// Characters from 16 on: this chunk's part of the payload text.
    pub open spec fn content_spec(&self) -> Seq<char> {
        self.source@.subrange(HEADER_LEN as int, self.source@.len() as int)
    }

    /// Decodes a label that is already normalized (no dots, upper case).
    pub fn from_normalized(source: String) -> (r: Result<MessageChunk, ChunkError>)
        ensures
            match r {
                Ok(c) => label_error(source@) is None && c.wf() && c.source@ == source@,
                Err(e) => label_error(source@) == Some(e),
            },
    {
        let n = source.unicode_len();
        if n < HEADER_LEN {
            return Err(ChunkError::TooShort);
        }
        let version = source.get_char(0);
        if !(version == 'A' || version == 'B') {
            return Err(ChunkError::BadVersion);
        }
        let idx = match alphabet_index(source.get_char(1)) {
            Some(i) => i,
            None => {
                return Err(ChunkError::BadIndex);
            },
        };
        if !checksum(source.as_str().substring_char(0, HEADER_LEN)) {
            return Err(ChunkError::BadChecksum);
        }
        let last = version == 'B';
        Ok(MessageChunk { source, idx, version, last })
    }

    /// Decodes a query name whose root domain was already removed.
    pub fn from_trimmed(trimmed: &str) -> (r: Result<MessageChunk, ChunkError>)
        ensures
            match r {
                Ok(c) => label_error(normalize(trimmed@)) is None && c.wf() && c.source@ == normalize(trimmed@),
                Err(e) => label_error(normalize(trimmed@)) == Some(e),
            },
    {
        let joined = remove_dots(trimmed);
        let source = to_upper(joined.as_str());
        Self::from_normalized(source)
    }

    /// Decodes a query name under the root domain `domain` into a chunk.
    pub fn from(raw_question: &str, domain: &str) -> (r: Result<MessageChunk, ChunkError>)
        ensures
            match without_root(raw_question@, domain@) {
                None => r == Err::<MessageChunk, ChunkError>(ChunkError::BadDomain),
                Some(t) => match r {
                    Ok(c) => label_error(normalize(t)) is None && c.wf() && c.source@ == normalize(t),
                    Err(e) => label_error(normalize(t)) == Some(e),
                },
            },
    {
        let pattern = String::from_str(domain).concat("$");
        proof {
            reveal_strlit("$");
            assert(pattern@ == root_pattern(domain@));
        }
        match remove_first_match(raw_question, pattern.as_str()) {
            Some(t) => Self::from_trimmed(t.as_str()),
            None => Err(ChunkError::BadDomain),
        }
    }

    /// The message id.
    pub fn id(&self) -> (r: String)
        requires
            self.wf(),
        ensures
            r@ == self.id_spec(),
    {
        String::from_str(self.source.as_str().substring_char(2, 15))
    }

    /// The payload fragment.
    pub fn content(&self) -> (r: String)
        requires
            self.wf(),
        ensures
            r@ == self.content_spec(),
    {
        let n = self.source.unicode_len();
        String::from_str(self.source.as_str().substring_char(HEADER_LEN, n))
    }
}

} // verus!
