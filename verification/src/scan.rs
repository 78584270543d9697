//! Wordlist preimage scanner.
//!
//! Each candidate line is trimmed of surrounding ASCII whitespace, digested
//! by a fresh engine, and its 40-character lowercase hexadecimal digest is
//! compared against the target by exact string equality. The scanner reports
//! the first match together with the one-based attempt count, or exhaustion
//! with the total count. A target that is not exactly 40 lowercase
//! hexadecimal characters is rejected before any scanning starts.

use vstd::prelude::*;
use vstd::pervasive::unreached;
use vstd::string::StrSliceExecFns;
use crate::sha1::MAX_MESSAGE_LEN;
use crate::sha1::Sha1;
use crate::sha1::digest_hex;
use crate::sha1::is_hex_digit_char;

verus! {

/// Whether `b` is an ASCII whitespace byte: space, tab, line feed or
/// carriage return.
pub open spec fn is_space_byte(b: u8) -> bool {
    b == 32 || b == 9 || b == 10 || b == 13
}

/// `s` without its leading whitespace bytes.
pub open spec fn trim_start_spec(s: Seq<u8>) -> Seq<u8>
    decreases s.len(),
{
    if s.len() > 0 && is_space_byte(s[0]) {
        trim_start_spec(s.skip(1))
    } else {
        s
    }
}

/// `s` without its trailing whitespace bytes.
pub open spec fn trim_end_spec(s: Seq<u8>) -> Seq<u8>
    decreases s.len(),
{
    if s.len() > 0 && is_space_byte(s[s.len() - 1]) {
        trim_end_spec(s.take(s.len() - 1))
    } else {
        s
    }
}

/// `s` without leading and trailing whitespace bytes.
pub open spec fn trim_spec(s: Seq<u8>) -> Seq<u8> {
    trim_end_spec(trim_start_spec(s))
}

/// Dropping `k` leading whitespace bytes, up to the first non-whitespace
/// byte, is exactly what `trim_start_spec` does.
proof fn lemma_trim_start_at(s: Seq<u8>, k: int)
    requires
        0 <= k <= s.len(),
        forall|j: int| 0 <= j < k ==> is_space_byte(#[trigger] s[j]),
        k < s.len() ==> !is_space_byte(s[k]),
    ensures
        trim_start_spec(s) == s.skip(k),
    decreases k,
{
    if k == 0 {
        assert(s.skip(0) =~= s);
    } else {
        lemma_trim_start_at(s.skip(1), k - 1);
        assert(s.skip(1).skip(k - 1) =~= s.skip(k));
    }
}

/// Keeping the first `k` bytes, back to the last non-whitespace byte, is
/// exactly what `trim_end_spec` does.
proof fn lemma_trim_end_at(s: Seq<u8>, k: int)
    requires
        0 <= k <= s.len(),
        forall|j: int| k <= j < s.len() ==> is_space_byte(#[trigger] s[j]),
        k > 0 ==> !is_space_byte(s[k - 1]),
    ensures
        trim_end_spec(s) == s.take(k),
    decreases s.len(),
{
    if k == s.len() {
        assert(s.take(k) =~= s);
    } else {
        lemma_trim_end_at(s.take(s.len() - 1), k);
        assert(s.take(s.len() - 1).take(k) =~= s.take(k));
    }
}

/// Trimming never lengthens a sequence.
pub proof fn lemma_trim_len(s: Seq<u8>)
    ensures
        trim_spec(s).len() <= s.len(),
{
    lemma_trim_start_len(s);
    lemma_trim_end_len(trim_start_spec(s));
}

proof fn lemma_trim_start_len(s: Seq<u8>)
    ensures
        trim_start_spec(s).len() <= s.len(),
    decreases s.len(),
{
    if s.len() > 0 && is_space_byte(s[0]) {
        lemma_trim_start_len(s.skip(1));
    }
}

proof fn lemma_trim_end_len(s: Seq<u8>)
    ensures
        trim_end_spec(s).len() <= s.len(),
    decreases s.len(),
{
    if s.len() > 0 && is_space_byte(s[s.len() - 1]) {
        lemma_trim_end_len(s.take(s.len() - 1));
    }
}

/// Whether `b` is an ASCII whitespace byte.
fn is_space(b: u8) -> (r: bool)
    ensures
        r == is_space_byte(b),
{
    b == 32 || b == 9 || b == 10 || b == 13
}

/// Copies `s` without its leading and trailing ASCII whitespace bytes.
pub fn trim_bytes(s: &[u8]) -> (r: Vec<u8>)
    ensures
        r@ == trim_spec(s@),
{
    let mut lo: usize = 0;
    while lo < s.len() && is_space(s[lo])
        invariant
            lo <= s@.len(),
            forall|j: int| 0 <= j < lo ==> is_space_byte(#[trigger] s@[j]),
        decreases s@.len() - lo,
    {
        lo += 1;
    }
    let mut hi: usize = s.len();
    while hi > lo && is_space(s[hi - 1])
        invariant
            lo <= hi <= s@.len(),
            forall|j: int| hi <= j < s@.len() ==> is_space_byte(#[trigger] s@[j]),
        decreases hi,
    {
        hi -= 1;
    }
    proof {
        lemma_trim_start_at(s@, lo as int);
        lemma_trim_end_at(s@.skip(lo as int), hi - lo);
        assert(s@.skip(lo as int).take(hi - lo) =~= s@.subrange(lo as int, hi as int));
    }
    let mut out: Vec<u8> = Vec::new();
    let mut i: usize = lo;
    while i < hi
        invariant
            lo <= i <= hi <= s@.len(),
            out@ == s@.subrange(lo as int, i as int),
        decreases hi - i,
    {
        out.push(s[i]);
        proof {
            assert(s@.subrange(lo as int, i as int).push(s@[i as int]) =~= s@.subrange(
                lo as int,
                i + 1,
            ));
        }
        i += 1;
    }
    out
}

/// Whether `t` is a well-formed target digest: exactly 40 lowercase
/// hexadecimal characters.
pub open spec fn valid_target(t: Seq<char>) -> bool {
    t.len() == 40 && forall|i: int| 0 <= i < t.len() ==> is_hex_digit_char(#[trigger] t[i])
}

/// Checks that a target digest string is exactly 40 lowercase hexadecimal
/// characters.
pub fn validate_target(target: &String) -> (r: bool)
    ensures
        r == valid_target(target@),
{
    let t = target.as_str();
    let len = t.unicode_len();
    if len != 40 {
        return false;
    }
    let mut i: usize = 0;
    while i < 40
        invariant
            t@ == target@,
            t@.len() == 40,
            i <= 40,
            forall|j: int| 0 <= j < i ==> is_hex_digit_char(#[trigger] t@[j]),
        decreases 40 - i,
    {
        let c = t.get_char(i);
        let v = c as u32;
        if !((48 <= v && v <= 57) || (97 <= v && v <= 102)) {
            return false;
        }
        i += 1;
    }
    true
}

/// Whether the digest of `line`, after trimming, is exactly `target`.
pub open spec fn candidate_matches(line: Seq<u8>, target: Seq<char>) -> bool
    recommends
        line.len() <= MAX_MESSAGE_LEN,
{
    digest_hex(trim_spec(line)) == target
}

/// Trims one candidate line and digests the remaining bytes with a fresh
/// engine: the trimmed candidate and its lowercase hexadecimal digest.
pub fn hash_candidate(line: &[u8]) -> (r: (Vec<u8>, String))
    requires
        line@.len() <= MAX_MESSAGE_LEN,
    ensures
        r.0@ == trim_spec(line@),
        r.1@ == digest_hex(trim_spec(line@)),
{
    let word = trim_bytes(line);
    proof {
        lemma_trim_len(line@);
    }
    let mut hasher = Sha1::new();
    let _absorbed = hasher.update(word.as_slice());
    match hasher.finalize() {
        Ok(digest) => (word, digest),
        Err(_) => unreached(),
    }
}

/// Examines one candidate line: the trimmed candidate if its digest equals
/// the target, and nothing otherwise.
pub fn scan_step(line: &Vec<u8>, target: &String) -> (r: Option<Vec<u8>>)
    requires
        line@.len() <= MAX_MESSAGE_LEN,
    ensures
        match r {
            Some(c) => candidate_matches(line@, target@) && c@ == trim_spec(line@),
            None => !candidate_matches(line@, target@),
        },
{
    let (word, digest) = hash_candidate(line.as_slice());
    if digest == *target {
        Some(word)
    } else {
        None
    }
}

/// Reported when the target digest is not exactly 40 lowercase hexadecimal
/// characters.
#[derive(Clone, Copy, Debug, PartialEq, Eq, Structural)]
pub enum ScanError {
    InvalidTarget,
}

/// The terminal outcome of a scan: the first matching candidate with its
/// one-based position, or exhaustion with the total attempt count.
#[derive(Clone, Debug, PartialEq, Eq)]
pub enum ScanOutcome {
    Found { candidate: Vec<u8>, attempts: u64 },
    NotFound { attempts: u64 },
}

/// Scans the wordlist in order and reports the first candidate whose digest
/// equals the target, or exhaustion. A malformed target fails before any
/// candidate is examined.
pub fn scan_wordlist(lines: &Vec<Vec<u8>>, target: &String) -> (r: Result<ScanOutcome, ScanError>)
    requires
        lines@.len() <= u64::MAX,
        forall|i: int| 0 <= i < lines@.len() ==> (#[trigger] lines@[i])@.len() <= MAX_MESSAGE_LEN,
    ensures
        r is Err <==> !valid_target(target@),
        match r {
            Ok(outcome) => match outcome {
                ScanOutcome::Found { candidate, attempts } => {
                    &&& 1 <= attempts <= lines@.len()
                    &&& candidate_matches(lines@[attempts - 1]@, target@)
                    &&& candidate@ == trim_spec(lines@[attempts - 1]@)
                    &&& forall|j: int|
                        0 <= j < attempts - 1 ==> !candidate_matches(
                            (#[trigger] lines@[j])@,
                            target@,
                        )
                },
                ScanOutcome::NotFound { attempts } => {
                    &&& attempts == lines@.len()
                    &&& forall|j: int|
                        0 <= j < lines@.len() ==> !candidate_matches(
                            (#[trigger] lines@[j])@,
                            target@,
                        )
                },
            },
            Err(e) => e == ScanError::InvalidTarget,
        },
{
    if !validate_target(target) {
        return Err(ScanError::InvalidTarget);
    }
    let mut attempts: u64 = 0;
    let mut idx: usize = 0;
    while idx < lines.len()
        invariant
            idx <= lines@.len() <= u64::MAX,
            attempts == idx,
            valid_target(target@),
            forall|i: int| 0 <= i < lines@.len() ==> (#[trigger] lines@[i])@.len()
                <= MAX_MESSAGE_LEN,
            forall|j: int| 0 <= j < idx ==> !candidate_matches((#[trigger] lines@[j])@, target@),
        decreases lines@.len() - idx,
    {
        let line = &lines[idx];
        attempts = attempts + 1;
        idx += 1;
        if let Some(word) = scan_step(line, target) {
            return Ok(ScanOutcome::Found { candidate: word, attempts });
        }
    }
    Ok(ScanOutcome::NotFound { attempts })
}

} // verus!
