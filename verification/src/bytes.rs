//! Little-endian integers and substring searches over byte sequences.

use vstd::prelude::*;

verus! {

/// The unsigned value of two little-endian bytes.
pub open spec fn u16_le(b0: u8, b1: u8) -> u16 {
    (b0 as int + 256 * b1 as int) as u16
}

/// The unsigned value of four little-endian bytes.
pub open spec fn u32_le(b0: u8, b1: u8, b2: u8, b3: u8) -> u32 {
    (b0 as int + 256 * b1 as int + 65536 * b2 as int + 16777216 * b3 as int) as u32
}

/// The two's-complement value of a 32-bit word.
pub open spec fn i32_of(u: u32) -> i32 {
    if u < 0x8000_0000 {
        u as i32
    } else {
        (u - 0x1_0000_0000) as i32
    }
}

/// The two's-complement value of a 16-bit word.
pub open spec fn i16_of(u: u16) -> i16 {
    if u < 0x8000 {
        u as i16
    } else {
        (u - 0x1_0000) as i16
    }
}

/// The little-endian `u16` at `off` in `s`.
pub open spec fn u16_at(s: Seq<u8>, off: int) -> u16 {
    u16_le(s[off], s[off + 1])
}

/// The little-endian `u32` at `off` in `s`.
pub open spec fn u32_at(s: Seq<u8>, off: int) -> u32 {
    u32_le(s[off], s[off + 1], s[off + 2], s[off + 3])
}

/// The little-endian `i32` at `off` in `s`.
pub open spec fn i32_at(s: Seq<u8>, off: int) -> i32 {
    i32_of(u32_at(s, off))
}

/// The little-endian `i16` at `off` in `s`.
pub open spec fn i16_at(s: Seq<u8>, off: int) -> i16 {
    i16_of(u16_at(s, off))
}

/// Reads the little-endian `u16` at `off`.
pub fn read_u16(s: &[u8], off: usize) -> (r: u16)
    requires
        off + 2 <= s@.len(),
    ensures
        r == u16_at(s@, off as int),
{
    s[off] as u16 + (s[off + 1] as u16) * 256
}

/// Reads the little-endian `u32` at `off`.
pub fn read_u32(s: &[u8], off: usize) -> (r: u32)
    requires
        off + 4 <= s@.len(),
    ensures
        r == u32_at(s@, off as int),
{
    s[off] as u32 + (s[off + 1] as u32) * 256 + (s[off + 2] as u32) * 65536 + (s[off + 3] as u32)
        * 16777216
}

/// Reads the little-endian `i32` at `off`.
pub fn read_i32(s: &[u8], off: usize) -> (r: i32)
    requires
        off + 4 <= s@.len(),
    ensures
        r == i32_at(s@, off as int),
{
    let u = read_u32(s, off);
    if u < 0x8000_0000 {
        u as i32
    } else {
        ((u - 0x8000_0000) as i32) - 0x4000_0000 - 0x4000_0000
    }
}

/// Reads the little-endian `i16` at `off`.
pub fn read_i16(s: &[u8], off: usize) -> (r: i16)
    requires
        off + 2 <= s@.len(),
    ensures
        r == i16_at(s@, off as int),
{
    let u = read_u16(s, off);
    if u < 0x8000 {
        u as i16
    } else {
        ((u - 0x8000) as i16) - 0x4000 - 0x4000
    }
}

/// `pat` occurs in `s` at position `i`.
pub open spec fn occurs_at(s: Seq<u8>, pat: Seq<u8>, i: int) -> bool {
    0 <= i && i + pat.len() <= s.len() && s.subrange(i, i + pat.len()) == pat
}

/// The last position at or before `i` where `pat` occurs in `s`.
pub open spec fn rfind_from(s: Seq<u8>, pat: Seq<u8>, i: int) -> Option<int>
    decreases i + 1,
{
    if i < 0 {
        None
    } else if occurs_at(s, pat, i) {
        Some(i)
    } else {
        rfind_from(s, pat, i - 1)
    }
}

/// The last position where `pat` occurs in `s`.
pub open spec fn rfind(s: Seq<u8>, pat: Seq<u8>) -> Option<int> {
    rfind_from(s, pat, s.len() - pat.len())
}

/// `pat` occurs somewhere in `s`.
pub open spec fn contains(s: Seq<u8>, pat: Seq<u8>) -> bool {
    exists|i: int| occurs_at(s, pat, i)
}

/// What `rfind_from` finds is an occurrence, and no later one exists.
pub proof fn lemma_rfind_from(s: Seq<u8>, pat: Seq<u8>, i: int)
    ensures
        rfind_from(s, pat, i) matches Some(p) ==> occurs_at(s, pat, p) && p <= i,
        forall|j: int| #![auto]
            occurs_at(s, pat, j) && j <= i && rfind_from(s, pat, i) is Some ==> j <= rfind_from(
                s,
                pat,
                i,
            )->Some_0,
        rfind_from(s, pat, i) is None ==> forall|j: int| #![auto] j <= i ==> !occurs_at(s, pat, j),
    decreases i + 1,
{
    if i >= 0 && !occurs_at(s, pat, i) {
        lemma_rfind_from(s, pat, i - 1);
    }
}

/// `pat` occurs at position `i` of `s` (checked byte by byte).
pub fn matches_at(s: &[u8], pat: &[u8], i: usize) -> (r: bool)
    ensures
        r == occurs_at(s@, pat@, i as int),
{
    if pat.len() > s.len() || i > s.len() - pat.len() {
        return false;
    }
    let mut k: usize = 0;
    while k < pat.len()
        invariant
            k <= pat@.len(),
            i + pat@.len() <= s@.len(),
            s@.len() <= usize::MAX,
            forall|j: int| 0 <= j < k ==> s@[i + j] == pat@[j],
        decreases pat@.len() - k,
    {
        if s[i + k] != pat[k] {
            assert(s@.subrange(i as int, i + pat@.len())[k as int] != pat@[k as int]);
            return false;
        }
        k += 1;
    }
    assert(s@.subrange(i as int, i + pat@.len()) =~= pat@);
    true
}

/// The last position where `pat` occurs in `s`, searching from the end
/// like `windows(n).rposition(..)`.
pub fn rfind_bytes(s: &[u8], pat: &[u8]) -> (r: Option<usize>)
    requires
        pat@.len() > 0,
    ensures
        r matches Some(p) ==> rfind(s@, pat@) == Some(p as int),
        r is None ==> rfind(s@, pat@) is None,
{
    if pat.len() > s.len() {
        assert(rfind(s@, pat@) is None);
        return None;
    }
    let mut i: usize = s.len() - pat.len() + 1;
    while i > 0
        invariant
            i <= s@.len() - pat@.len() + 1,
            pat@.len() <= s@.len(),
            rfind(s@, pat@) == rfind_from(s@, pat@, i - 1),
        decreases i,
    {
        if matches_at(s, pat, i - 1) {
            return Some(i - 1);
        }
        i -= 1;
    }
    None
}

/// `pat` occurs somewhere in `s` (like `windows(n).any(..)`).
pub fn contains_bytes(s: &[u8], pat: &[u8]) -> (r: bool)
    requires
        pat@.len() > 0,
    ensures
        r == contains(s@, pat@),
{
    let found = rfind_bytes(s, pat);
    proof {
        lemma_rfind_from(s@, pat@, s@.len() - pat@.len());
        if found is None {
            assert forall|j: int| !occurs_at(s@, pat@, j) by {
                if j > s@.len() - pat@.len() {
                }
            }
        }
    }
    found.is_some()
}

/// `s` starts with `pat`.
pub fn starts_with(s: &[u8], pat: &[u8]) -> (r: bool)
    ensures
        r == occurs_at(s@, pat@, 0),
{
    matches_at(s, pat, 0)
}

} // verus!
