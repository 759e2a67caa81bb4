//! Merkle roots of the small structures that key the observed aggregates.
use crate::hash256::Hash256;
use vstd::prelude::*;

verus! {

/// The most leaves of any tree that this library hashes.
pub const MAX_LEAVES: usize = 8;

/// The number of bytes in a leaf.
pub const BYTES_PER_LEAF: usize = 32;

/// The Merkle root of `bytes`, cut into leaves of 32 bytes and padded with
/// zero leaves up to `minimum_leaf_count` leaves and then up to a power of two.
pub uninterp spec fn merkle_root_of(bytes: Seq<u8>, minimum_leaf_count: nat) -> [u8; 32];

/// Calls `tree_hash::merkle_root`, which hashes the leaves pairwise with
/// SHA-256 up to the root. The contract claims no more than that the result is
/// a function of the bytes and the leaf count, and it keeps to trees of at most
/// `MAX_LEAVES` leaves, where the call cannot fail.
#[verifier::external_body]
fn merkle_root(bytes: &Vec<u8>, minimum_leaf_count: usize) -> (root: Hash256)
    requires
        bytes@.len() <= MAX_LEAVES * BYTES_PER_LEAF,
        minimum_leaf_count <= MAX_LEAVES,
    ensures
        root == merkle_root_of(bytes@, minimum_leaf_count as nat),
{
    tree_hash::merkle_root(bytes.as_slice(), minimum_leaf_count).0
}

/// 256 to the power `e`.
pub open spec fn pow256(e: nat) -> nat
    decreases e,
{
    if e == 0 {
        1
    } else {
        256 * pow256((e - 1) as nat)
    }
}

/// The leaf of a 64-bit number: its eight bytes, least significant first, and
/// then zeros.
pub open spec fn leaf_of_u64(n: u64) -> Seq<u8> {
    Seq::new(
        32,
        |i: int|
            if i < 8 {
                ((n as nat / pow256(i as nat)) % 256) as u8
            } else {
                0u8
            },
    )
}

/// The root of a container whose fields have the given leaves: the Merkle root
/// of the leaves in order, one leaf for each field.
pub open spec fn container_root(leaves: Seq<Seq<u8>>) -> Hash256 {
    merkle_root_of(leaves.flatten(), leaves.len())
}

/// The leaf of a 64-bit number.
pub fn u64_leaf(n: u64) -> (leaf: Hash256)
    ensures
        leaf@ == leaf_of_u64(n),
{
    let mut leaf: Hash256 = [0u8; 32];
    let mut rest: u64 = n;
    let mut i: usize = 0;
    assert(pow256(0) == 1);
    while i < 8
        invariant
            i <= 8,
            rest == n as nat / pow256(i as nat),
            forall|j: int| 0 <= j < i ==> leaf@[j] == leaf_of_u64(n)[j],
            forall|j: int| i <= j < 32 ==> leaf@[j] == 0u8,
        decreases 8 - i,
    {
        proof {
            lemma_pow256_positive(i as nat);
            vstd::arithmetic::div_mod::lemma_div_denominator(n as int, pow256(i as nat) as int, 256);
            assert(pow256((i + 1) as nat) == 256 * pow256(i as nat));
            assert(pow256(i as nat) * 256 == 256 * pow256(i as nat)) by (nonlinear_arith);
        }
        leaf[i] = (rest % 256) as u8;
        rest = rest / 256;
        i += 1;
    }
    assert(leaf@ =~= leaf_of_u64(n));
    leaf
}

proof fn lemma_pow256_positive(e: nat)
    ensures
        pow256(e) > 0,
    decreases e,
{
    if e > 0 {
        lemma_pow256_positive((e - 1) as nat);
        assert(256 * pow256((e - 1) as nat) > 0) by (nonlinear_arith)
            requires
                pow256((e - 1) as nat) > 0,
        ;
    }
}

/// The root of a container with the given leaves, one for each of its fields,
/// of which there are at most `MAX_LEAVES`.
pub fn hash_container(leaves: &Vec<Hash256>) -> (root: Hash256)
    requires
        leaves@.len() <= MAX_LEAVES,
    ensures
        root == container_root(leaves@.map_values(|leaf: Hash256| leaf@)),
{
    let ghost views = leaves@.map_values(|leaf: Hash256| leaf@);
    let mut bytes: Vec<u8> = Vec::with_capacity(leaves.len() * BYTES_PER_LEAF);
    let mut i: usize = 0;
    while i < leaves.len()
        invariant
            i <= leaves@.len() <= MAX_LEAVES,
            views == leaves@.map_values(|leaf: Hash256| leaf@),
            bytes@ == views.take(i as int).flatten(),
            bytes@.len() == i * BYTES_PER_LEAF,
        decreases leaves.len() - i,
    {
        let leaf = &leaves[i];
        let ghost before = bytes@;
        let mut j: usize = 0;
        while j < 32
            invariant
                j <= 32,
                bytes@ == before + leaf@.take(j as int),
            decreases 32 - j,
        {
            bytes.push(leaf[j]);
            assert(leaf@.take(j as int + 1) =~= leaf@.take(j as int).push(leaf@[j as int]));
            j += 1;
        }
        proof {
            assert(leaf@.take(32) =~= leaf@);
            assert(views.take(i as int + 1) =~= views.take(i as int).push(views[i as int]));
            lemma_flatten_push(views.take(i as int), views[i as int]);
        }
        i += 1;
    }
    assert(views.take(i as int) =~= views);
    merkle_root(&bytes, leaves.len())
}

/// Flattening after one more sequence is appending that sequence.
proof fn lemma_flatten_push(s: Seq<Seq<u8>>, last: Seq<u8>)
    ensures
        s.push(last).flatten() == s.flatten() + last,
    decreases s.len(),
{
    if s.len() == 0 {
        assert(s.push(last).drop_first() =~= Seq::<Seq<u8>>::empty());
        assert(s.push(last).flatten() =~= last + Seq::<Seq<u8>>::empty().flatten());
        assert(s.push(last).flatten() =~= s.flatten() + last);
    } else {
        assert(s.push(last).drop_first() =~= s.drop_first().push(last));
        lemma_flatten_push(s.drop_first(), last);
        assert(s.push(last).flatten() =~= s.flatten() + last);
    }
}

} // verus!
