//! Little-endian field readers and small byte-sequence helpers used by the
//! archive parser.

use vstd::prelude::*;

verus! {

/// The unsigned 16-bit value stored little-endian at `i` in `s`.
pub open spec fn le16(s: Seq<u8>, i: int) -> nat {
    (s[i] as nat) + (s[i + 1] as nat) * 0x100
}

/// The unsigned 32-bit value stored little-endian at `i` in `s`.
pub open spec fn le32(s: Seq<u8>, i: int) -> nat {
    (s[i] as nat) + (s[i + 1] as nat) * 0x100 + (s[i + 2] as nat) * 0x10000 + (s[i
        + 3] as nat) * 0x1000000
}

/// The unsigned 64-bit value stored little-endian at `i` in `s`.
pub open spec fn le64(s: Seq<u8>, i: int) -> nat {
    le32(s, i) + le32(s, i + 4) * 0x100000000
}

pub fn read_le16(s: &[u8], i: usize) -> (r: u16)
    requires
        i + 2 <= s@.len(),
    ensures
        r as nat == le16(s@, i as int),
{
    let b0 = s[i];
    let b1 = s[i + 1];
    (b0 as u16) + (b1 as u16) * 0x100
}

pub fn read_le32(s: &[u8], i: usize) -> (r: u32)
    requires
        i + 4 <= s@.len(),
    ensures
        r as nat == le32(s@, i as int),
{
    let b0 = s[i];
    let b1 = s[i + 1];
    let b2 = s[i + 2];
    let b3 = s[i + 3];
    (b0 as u32) + (b1 as u32) * 0x100 + (b2 as u32) * 0x10000 + (b3 as u32) * 0x1000000
}

pub fn read_le64(s: &[u8], i: usize) -> (r: u64)
    requires
        i + 8 <= s@.len(),
    ensures
        r as nat == le64(s@, i as int),
{
    let n = s.len();
    assert(i + 8 <= n);
    let lo = read_le32(s, i);
    let hi = read_le32(s, i + 4);
    (lo as u64) + (hi as u64) * 0x100000000
}

/// True when `s` ends with `suffix`.
pub open spec fn seq_ends_with(s: Seq<u8>, suffix: Seq<u8>) -> bool {
    s.len() >= suffix.len() && s.skip(s.len() - suffix.len()) == suffix
}

pub fn ends_with(s: &[u8], suffix: &[u8]) -> (r: bool)
    ensures
        r == seq_ends_with(s@, suffix@),
{
    let n = s.len();
    let m = suffix.len();
    if m > n {
        assert(!seq_ends_with(s@, suffix@));
        return false;
    }
    let start = n - m;
    let mut j: usize = 0;
    while j < m
        invariant
            m <= n == s@.len(),
            m == suffix@.len(),
            start == n - m,
            j <= m,
            forall|k: int| 0 <= k < j ==> s@[start + k] == suffix@[k],
        decreases m - j,
    {
        if s[start + j] != suffix[j] {
            assert(s@.skip(start as int)[j as int] != suffix@[j as int]);
            return false;
        }
        j += 1;
    }
    assert(s@.skip(start as int) =~= suffix@);
    true
}

} // verus!
