//! Which files are read as text.

use vstd::prelude::*;

use crate::types::FileDescription;

verus! {

/// Number of leading bytes searched for a NUL byte.
pub const BINARY_PROBE_LEN: usize = 8192;

/// Content that is read as text: not empty, and no NUL byte among its first
/// `BINARY_PROBE_LEN` bytes.
pub open spec fn text_content(bytes: Seq<u8>) -> bool {
    &&& bytes.len() > 0
    &&& forall|k: int| 0 <= k < bytes.len() && k < BINARY_PROBE_LEN ==> bytes[k] != 0
}

/// True when a file with these bytes is read as text; empty and binary files
/// are skipped.
pub fn is_text(bytes: &[u8]) -> (b: bool)
    ensures
        b == text_content(bytes@),
{
    let n = bytes.len();
    if n == 0 {
        return false;
    }
    let limit = if n < BINARY_PROBE_LEN {
        n
    } else {
        BINARY_PROBE_LEN
    };
    let mut k: usize = 0;
    while k < limit
        invariant
            n == bytes@.len(),
            limit <= n,
            limit <= BINARY_PROBE_LEN,
            limit == n || limit == BINARY_PROBE_LEN,
            k <= limit,
            forall|j: int| 0 <= j < k ==> bytes@[j] != 0,
        decreases limit - k,
    {
        if bytes[k] == 0 {
            return false;
        }
        k += 1;
    }
    true
}


/// The text `s` without its leading and trailing whitespace, as `str::trim`
/// gives it.
pub uninterp spec fn trimmed(s: Seq<char>) -> Seq<char>;

/// The hash of the text `s`, as `BuildHasher::hash_one` with the standard
/// library's default hasher (`DefaultHasher`, created unseeded) gives it.
pub uninterp spec fn line_hash(s: Seq<char>) -> u64;

/// Calls `str::trim`. The contract claims only that the result is `trimmed`
/// of the text, a function of the text alone; which characters count as
/// whitespace (Unicode's White_Space property) is left unsaid.
#[verifier::external_body]
fn trim_text<'a>(s: &'a str) -> (r: &'a str)
    ensures
        r@ == trimmed(s@),
{
    s.trim()
}

/// Calls `BuildHasher::hash_one` on a `BuildHasherDefault<DefaultHasher>`.
/// That hasher starts from fixed keys, so the hash is a function of the text
/// alone within one build; the contract claims only that it is `line_hash` of
/// the text, and leaves the algorithm unsaid, as the standard library does.
#[verifier::external_body]
fn hash_text(s: &str) -> (h: u64)
    ensures
        h == line_hash(s@),
{
    std::hash::BuildHasher::hash_one(
        &std::hash::BuildHasherDefault::<std::collections::hash_map::DefaultHasher>::default(),
        s,
    )
}

/// The description of a file with these lines: each line is hashed after
/// its leading and trailing whitespace is removed, so that lines differing
/// only in indentation compare equal.
pub fn describe(filename: String, lines: Vec<String>) -> (d: FileDescription)
    ensures
        d.filename@ == filename@,
        d.lines@ == lines@,
        d.hashes@.len() == lines@.len(),
        forall|i: int| 0 <= i < lines@.len() ==> d.hashes@[i] == line_hash(trimmed(#[trigger] lines@[i]@)),
{
    let n = lines.len();
    let mut hashes: Vec<u64> = Vec::with_capacity(n);
    let mut i: usize = 0;
    while i < n
        invariant
            n == lines@.len(),
            i <= n,
            hashes@.len() == i,
            forall|k: int| 0 <= k < i ==> hashes@[k] == line_hash(trimmed(#[trigger] lines@[k]@)),
        decreases n - i,
    {
        let h = hash_text(trim_text(lines[i].as_str()));
        hashes.push(h);
        i += 1;
    }
    FileDescription { filename, hashes, lines }
}

} // verus!
