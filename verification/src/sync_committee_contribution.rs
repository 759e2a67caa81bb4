//! Sync-committee contributions as far as the store of observed aggregates
//! reads them.
use crate::bitfield::Bitfield;
use crate::eth_spec::EthSpec;
use crate::hash256::Hash256;
use crate::merkle::{container_root, hash_container, leaf_of_u64, u64_leaf};
use crate::observed_aggregates::{AsReference, Consts, Error, SubsetItem};
use crate::slot::Slot;
use std::marker::PhantomData;
use vstd::prelude::*;

verus! {

/// The number of sync-committee subnets.
pub const SYNC_COMMITTEE_SUBNET_COUNT: u64 = 4;

/// The number of aggregators that each sync subcommittee aims for.
pub const TARGET_AGGREGATORS_PER_SYNC_SUBCOMMITTEE: u64 = 16;

/// An aggregation of `SyncCommitteeMessage`s, used in creating a `SignedContributionAndProof`.
#[derive(Debug)]
pub struct SyncCommitteeContribution<E: EthSpec> {
    pub slot: Slot,
    pub beacon_block_root: Hash256,
    pub subcommittee_index: u64,
    pub aggregation_bits: Bitfield,
    pub _phantom: PhantomData<E>,
}

impl<E: EthSpec> SyncCommitteeContribution<E> {
    /// The contribution with these fields.
    pub fn new(
        slot: Slot,
        beacon_block_root: Hash256,
        subcommittee_index: u64,
        aggregation_bits: Bitfield,
    ) -> (contribution: Self)
        ensures
            contribution.slot == slot,
            contribution.beacon_block_root == beacon_block_root,
            contribution.subcommittee_index == subcommittee_index,
            contribution.aggregation_bits == aggregation_bits,
    {
        Self { slot, beacon_block_root, subcommittee_index, aggregation_bits, _phantom: PhantomData }
    }
}

/// What a sync contribution is about: this is hashed and used to key the
/// observed sync contributions.
#[derive(Clone, Copy, Debug)]
pub struct SyncCommitteeData {
    pub root: Hash256,
    pub slot: Slot,
    pub subcommittee_index: u64,
}

impl SyncCommitteeData {
    /// The Merkle root of the three fields.
    pub open spec fn spec_tree_hash_root(&self) -> Hash256 {
        container_root(
            seq![self.root@, leaf_of_u64(self.slot.0), leaf_of_u64(self.subcommittee_index)],
        )
    }

    /// The Merkle root: that of a container of the three fields.
    pub fn tree_hash_root(&self) -> (root: Hash256)
        ensures
            root == self.spec_tree_hash_root(),
    {
        let mut leaves: Vec<Hash256> = Vec::with_capacity(3);
        leaves.push(self.root);
        leaves.push(u64_leaf(self.slot.as_u64()));
        leaves.push(u64_leaf(self.subcommittee_index));
        assert(leaves@.map_values(|leaf: Hash256| leaf@) =~= seq![
            self.root@,
            leaf_of_u64(self.slot.0),
            leaf_of_u64(self.subcommittee_index),
        ]);
        hash_container(&leaves)
    }
}

impl<E: EthSpec> Consts for SyncCommitteeContribution<E> {
    /// Set to `TARGET_AGGREGATORS_PER_SYNC_SUBCOMMITTEE * SYNC_COMMITTEE_SUBNET_COUNT`. This is the
    /// expected number of aggregators per slot across all subcommittees.
    const DEFAULT_PER_SLOT_CAPACITY: usize = (SYNC_COMMITTEE_SUBNET_COUNT
        * TARGET_AGGREGATORS_PER_SYNC_SUBCOMMITTEE) as usize;

    proof fn lemma_max_slot_capacity_fits() {
    }

    open spec fn spec_max_slot_capacity() -> usize {
        1
    }

    open spec fn spec_max_per_slot_capacity() -> usize {
        E::spec_sync_committee_size()
    }

    /// We only need to keep contributions related to the current slot.
    fn max_slot_capacity() -> usize {
        1
    }

    /// We should never receive more aggregates than there are sync committee participants.
    fn max_per_slot_capacity() -> usize {
        E::sync_committee_size()
    }
}

impl<'a, E: EthSpec> SubsetItem for &'a SyncCommitteeContribution<E> {
    open spec fn slot_view(&self) -> Slot {
        self.slot
    }

    open spec fn item_view(&self) -> Option<Seq<bool>> {
        Some(self.aggregation_bits@)
    }

    open spec fn root_view(&self) -> Option<Hash256> {
        Some(
            (SyncCommitteeData {
                root: self.beacon_block_root,
                slot: self.slot,
                subcommittee_index: self.subcommittee_index,
            }).spec_tree_hash_root(),
        )
    }

    fn get_slot(&self) -> Slot {
        self.slot
    }

    fn is_subset(&self, other: &Bitfield) -> bool {
        self.aggregation_bits.is_subset(other)
    }

    fn is_superset(&self, other: &Bitfield) -> bool {
        other.is_subset(&self.aggregation_bits)
    }

    /// Returns the sync contribution aggregation bits.
    fn get_item(&self) -> Result<Bitfield, Error> {
        Ok(self.aggregation_bits.clone())
    }

    /// Returns the hash tree root of the root, slot and subcommittee index
    /// of the sync contribution.
    fn root(&self) -> Result<Hash256, Error> {
        Ok(
            (SyncCommitteeData {
                root: self.beacon_block_root,
                slot: self.slot,
                subcommittee_index: self.subcommittee_index,
            }).tree_hash_root(),
        )
    }
}

impl<E: EthSpec> AsReference for SyncCommitteeContribution<E> {
    type Reference<'a> = &'a Self;

    fn as_reference(&self) -> (r: &Self)
        ensures
            *r == *self,
    {
        self
    }
}

} // verus!
