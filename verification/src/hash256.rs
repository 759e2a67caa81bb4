//! The 32-byte digests that identify aggregates.
use vstd::prelude::*;

verus! {

/// A 32-byte digest.
pub type Hash256 = [u8; 32];

/// Whether two digests hold the same bytes.
pub fn hash_eq(a: &Hash256, b: &Hash256) -> (same: bool)
    ensures
        same == (*a == *b),
{
    let mut i: usize = 0;
    while i < 32
        invariant
            i <= 32,
            forall|j: int| 0 <= j < i ==> a[j] == b[j],
        decreases 32 - i,
    {
        if a[i] != b[i] {
            return false;
        }
        i += 1;
    }
    assert(*a =~= *b);
    true
}

/// The number that the first eight bytes stand for, least significant first.
pub open spec fn spec_u64_from_le_prefix(bytes: Seq<u8>) -> u64 {
    (bytes[0] + 0x100 * bytes[1] + 0x1_0000 * bytes[2] + 0x100_0000 * bytes[3] + 0x1_0000_0000
        * bytes[4] + 0x100_0000_0000 * bytes[5] + 0x1_0000_0000_0000 * bytes[6]
        + 0x100_0000_0000_0000 * bytes[7]) as u64
}

/// The number that the first eight bytes of a digest stand for, least
/// significant first.
pub fn u64_from_le_prefix(digest: &[u8; 32]) -> (n: u64)
    ensures
        n == spec_u64_from_le_prefix(digest@),
{
    let b0 = digest[0] as u64;
    let b1 = digest[1] as u64;
    let b2 = digest[2] as u64;
    let b3 = digest[3] as u64;
    let b4 = digest[4] as u64;
    let b5 = digest[5] as u64;
    let b6 = digest[6] as u64;
    let b7 = digest[7] as u64;
    b0 + 0x100 * b1 + 0x1_0000 * b2 + 0x100_0000 * b3 + 0x1_0000_0000 * b4 + 0x100_0000_0000 * b5
        + 0x1_0000_0000_0000 * b6 + 0x100_0000_0000_0000 * b7
}

} // verus!
