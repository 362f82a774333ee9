//! Big-endian integers inside octet sequences.

use vstd::prelude::*;

verus! {

/// The 16-bit big-endian number stored at `at`.
pub open spec fn be16(s: Seq<u8>, at: int) -> int {
    s[at] as int * 256 + s[at + 1] as int
}

/// The 32-bit big-endian number stored at `at`.
pub open spec fn be32(s: Seq<u8>, at: int) -> int {
    be16(s, at) * 65536 + be16(s, at + 2)
}

/// `s` with the 16-bit number `value` stored big-endian at `at`.
pub open spec fn with_be16(s: Seq<u8>, at: int, value: int) -> Seq<u8> {
    s.update(at, (value / 256) as u8).update(at + 1, (value % 256) as u8)
}

pub fn read_be16(b: &[u8], at: usize) -> (v: u16)
    requires
        at + 2 <= b@.len(),
    ensures
        v as int == be16(b@, at as int),
{
    (b[at] as u16) * 256 + (b[at + 1] as u16)
}

pub fn read_be32(b: &[u8], at: usize) -> (v: u32)
    requires
        at + 4 <= b@.len(),
    ensures
        v as int == be32(b@, at as int),
{
    assert(b@.len() == b.len());
    (read_be16(b, at) as u32) * 65536 + (read_be16(b, at + 2) as u32)
}

pub fn write_be16(b: &mut [u8], at: usize, value: u16)
    requires
        at + 2 <= old(b)@.len(),
    ensures
        final(b)@ == with_be16(old(b)@, at as int, value as int),
{
    b[at] = (value / 256) as u8;
    b[at + 1] = (value % 256) as u8;
}

/// Reading back what was stored yields the stored number, and the octets
/// around it are untouched.
pub proof fn lemma_with_be16(s: Seq<u8>, at: int, value: int)
    requires
        0 <= at,
        at + 2 <= s.len(),
        0 <= value < 65536,
    ensures
        with_be16(s, at, value).len() == s.len(),
        be16(with_be16(s, at, value), at) == value,
        forall|i: int|
            0 <= i < s.len() && i != at && i != at + 1 ==> with_be16(s, at, value)[i] == s[i],
{
}

} // verus!
