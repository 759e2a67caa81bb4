//! Attestations as far as the store of observed aggregates reads them.
use crate::bitfield::{spec_first_set_bit, Bitfield};
use crate::eth_spec::EthSpec;
use crate::hash256::Hash256;
use crate::merkle::{container_root, hash_container, leaf_of_u64, u64_leaf};
use crate::observed_aggregates::{
    AsReference, Consts, Error, ObservedAttestationKey, SubsetItem,
};
use crate::slot::Slot;
use std::marker::PhantomData;
use vstd::prelude::*;

verus! {

/// Casper FFG checkpoint, used in attestations.
#[derive(Clone, Copy, Debug)]
pub struct Checkpoint {
    pub epoch: u64,
    pub root: Hash256,
}

impl Checkpoint {
    /// The checkpoint's Merkle root.
    pub open spec fn spec_tree_hash_root(&self) -> Hash256 {
        container_root(seq![leaf_of_u64(self.epoch), self.root@])
    }

    /// The checkpoint's Merkle root: that of a container of its two fields.
    pub fn tree_hash_root(&self) -> (root: Hash256)
        ensures
            root == self.spec_tree_hash_root(),
    {
        let mut leaves: Vec<Hash256> = Vec::with_capacity(2);
        leaves.push(u64_leaf(self.epoch));
        leaves.push(self.root);
        assert(leaves@.map_values(|leaf: Hash256| leaf@) =~= seq![leaf_of_u64(self.epoch), self.root@]);
        hash_container(&leaves)
    }
}

/// The data upon which an attestation is based.
#[derive(Clone, Copy, Debug)]
pub struct AttestationData {
    pub slot: Slot,
    pub index: u64,
    pub beacon_block_root: Hash256,
    pub source: Checkpoint,
    pub target: Checkpoint,
}

impl AttestationData {
    /// The data's Merkle root.
    pub open spec fn spec_tree_hash_root(&self) -> Hash256 {
        container_root(
            seq![
                leaf_of_u64(self.slot.0),
                leaf_of_u64(self.index),
                self.beacon_block_root@,
                self.source.spec_tree_hash_root()@,
                self.target.spec_tree_hash_root()@,
            ],
        )
    }

    /// The data's Merkle root: that of a container of its five fields.
    pub fn tree_hash_root(&self) -> (root: Hash256)
        ensures
            root == self.spec_tree_hash_root(),
    {
        let mut leaves: Vec<Hash256> = Vec::with_capacity(5);
        leaves.push(u64_leaf(self.slot.as_u64()));
        leaves.push(u64_leaf(self.index));
        leaves.push(self.beacon_block_root);
        leaves.push(self.source.tree_hash_root());
        leaves.push(self.target.tree_hash_root());
        assert(leaves@.map_values(|leaf: Hash256| leaf@) =~= seq![
            leaf_of_u64(self.slot.0),
            leaf_of_u64(self.index),
            self.beacon_block_root@,
            self.source.spec_tree_hash_root()@,
            self.target.spec_tree_hash_root()@,
        ]);
        hash_container(&leaves)
    }
}

/// The aggregation bits were longer than a slot has validators.
#[derive(Clone, Copy, Debug, PartialEq, Eq, Structural)]
pub struct OutOfBounds {
    pub len: usize,
    pub max_len: usize,
}

/// An attestation as it was before Electra: its bits stand for the members of
/// one committee, and its data names that committee.
#[derive(Debug)]
pub struct AttestationBase<E: EthSpec> {
    pub aggregation_bits: Bitfield,
    pub data: AttestationData,
    pub _phantom: PhantomData<E>,
}

impl<E: EthSpec> AttestationBase<E> {
    /// The attestation with these bits and this data.
    pub fn new(aggregation_bits: Bitfield, data: AttestationData) -> (att: Self)
        ensures
            att.aggregation_bits == aggregation_bits,
            att.data == data,
    {
        Self { aggregation_bits, data, _phantom: PhantomData }
    }

    /// The bits in the shape of a whole slot's bits: the same bits, where a
    /// slot can have that many validators.
    pub open spec fn spec_extend_aggregation_bits(&self) -> Option<Seq<bool>> {
        if self.aggregation_bits@.len() <= E::spec_max_validators_per_slot() {
            Some(self.aggregation_bits@)
        } else {
            None
        }
    }

    /// Widens the bits of one committee to the shape of a whole slot's bits.
    /// Fails where there are more bits than a slot has validators.
    pub fn extend_aggregation_bits(&self) -> (extended: Result<Bitfield, OutOfBounds>)
        ensures
            match extended {
                Ok(bits) => self.spec_extend_aggregation_bits() == Some(bits@),
                Err(e) => self.spec_extend_aggregation_bits() is None && e == (OutOfBounds {
                    len: self.aggregation_bits@.len() as usize,
                    max_len: E::spec_max_validators_per_slot(),
                }),
            },
    {
        let len = self.aggregation_bits.len();
        let max_len = E::max_validators_per_slot();
        if len > max_len {
            return Err(OutOfBounds { len, max_len });
        }
        let mut extended = Bitfield::with_capacity(len);
        let mut i: usize = 0;
        while i < len
            invariant
                i <= len,
                len == self.aggregation_bits@.len(),
                extended@.len() == len,
                forall|j: int| 0 <= j < i ==> extended@[j] == self.aggregation_bits@[j],
            decreases len - i,
        {
            let bit = match self.aggregation_bits.get(i) {
                Some(bit) => bit,
                None => false,
            };
            extended.set(i, bit);
            i += 1;
        }
        assert(extended@ =~= self.aggregation_bits@);
        Ok(extended)
    }
}

/// An attestation as it is since Electra: its bits stand for the validators of
/// the whole slot, and a second bitfield names the committees.
#[derive(Debug)]
pub struct AttestationElectra<E: EthSpec> {
    pub aggregation_bits: Bitfield,
    pub data: AttestationData,
    pub committee_bits: Bitfield,
    pub _phantom: PhantomData<E>,
}

/// The first committee that the committee bits name, if they name one.
pub open spec fn first_committee(committee_bits: Seq<bool>) -> Option<u64> {
    match spec_first_set_bit(committee_bits) {
        Some(i) => Some(i as u64),
        None => None,
    }
}

impl<E: EthSpec> AttestationElectra<E> {
    /// The attestation with these bits, this data and these committee bits.
    pub fn new(aggregation_bits: Bitfield, data: AttestationData, committee_bits: Bitfield) -> (att:
        Self)
        ensures
            att.aggregation_bits == aggregation_bits,
            att.data == data,
            att.committee_bits == committee_bits,
    {
        Self { aggregation_bits, data, committee_bits, _phantom: PhantomData }
    }

    /// The index of the first committee that the attestation names, if any.
    pub fn committee_index(&self) -> (index: Option<u64>)
        ensures
            index == first_committee(self.committee_bits@),
    {
        match self.committee_bits.first_set_bit() {
            Some(i) => Some(i as u64),
            None => None,
        }
    }
}

/// An attestation of either shape.
#[derive(Debug)]
pub enum Attestation<E: EthSpec> {
    Base(AttestationBase<E>),
    Electra(AttestationElectra<E>),
}

/// A reference to an attestation of either shape.
#[derive(Debug)]
pub enum AttestationRef<'a, E: EthSpec> {
    Base(&'a AttestationBase<E>),
    Electra(&'a AttestationElectra<E>),
}

impl<E: EthSpec> Attestation<E> {
    /// The attestation by reference.
    pub fn to_ref(&self) -> (r: AttestationRef<'_, E>)
        ensures
            r == self.spec_to_ref(),
    {
        match self {
            Attestation::Base(att) => AttestationRef::Base(att),
            Attestation::Electra(att) => AttestationRef::Electra(att),
        }
    }

    /// The attestation by reference.
    pub open spec fn spec_to_ref(&self) -> AttestationRef<'_, E> {
        match self {
            Attestation::Base(att) => AttestationRef::Base(att),
            Attestation::Electra(att) => AttestationRef::Electra(att),
        }
    }
}

impl<'a, E: EthSpec> AttestationRef<'a, E> {
    /// The data that the attestation is based on.
    pub open spec fn spec_data(&self) -> AttestationData {
        match self {
            AttestationRef::Base(att) => att.data,
            AttestationRef::Electra(att) => att.data,
        }
    }

    /// The committee that the attestation belongs to: before Electra the one
    /// that its data names, since Electra the first that its committee bits
    /// name.
    pub open spec fn spec_committee_index(&self) -> Option<u64> {
        match self {
            AttestationRef::Base(att) => Some(att.data.index),
            AttestationRef::Electra(att) => first_committee(att.committee_bits@),
        }
    }

    /// The data that the attestation is based on.
    pub fn data(&self) -> (data: &AttestationData)
        ensures
            *data == self.spec_data(),
    {
        match self {
            AttestationRef::Base(att) => &att.data,
            AttestationRef::Electra(att) => &att.data,
        }
    }

    /// The committee that the attestation belongs to, if it names one.
    pub fn committee_index(&self) -> (index: Option<u64>)
        ensures
            index == self.spec_committee_index(),
    {
        match self {
            AttestationRef::Base(att) => Some(att.data.index),
            AttestationRef::Electra(att) => att.committee_index(),
        }
    }
}

impl<E: EthSpec> Consts for Attestation<E> {
    /// Use 128 as it's the target committee size for the mainnet spec. This is perhaps a little
    /// wasteful for the minimal spec, but considering it's approx. 128 * 32 bytes we're not wasting
    /// much.
    const DEFAULT_PER_SLOT_CAPACITY: usize = 128;

    proof fn lemma_max_slot_capacity_fits() {
        E::lemma_preset_fits();
    }

    open spec fn spec_max_slot_capacity() -> usize {
        (2 * E::spec_slots_per_epoch()) as usize
    }

    open spec fn spec_max_per_slot_capacity() -> usize {
        524288
    }

    /// We need to keep attestations for each slot of the current epoch.
    fn max_slot_capacity() -> usize {
        2 * E::slots_per_epoch() as usize
    }

    /// As a DoS protection measure, the maximum number of distinct `Attestations` or
    /// `SyncCommitteeContributions` that will be recorded for each slot.
    ///
    /// Currently this is set to ~524k. If we say that each entry is 40 bytes (Hash256 (32 bytes) + an
    /// 8 byte hash) then this comes to about 20mb per slot. If we're storing 34 of these slots, then
    /// we're at 680mb. This is a lot of memory usage, but probably not a show-stopper for most
    /// reasonable hardware.
    ///
    /// Upstream conditions should strongly restrict the amount of attestations that can show up in
    /// this pool. The maximum size with respect to upstream restrictions is more likely on the order
    /// of the number of validators.
    fn max_per_slot_capacity() -> usize {
        524288
    }
}

impl<'a, E: EthSpec> SubsetItem for AttestationRef<'a, E> {
    open spec fn slot_view(&self) -> Slot {
        self.spec_data().slot
    }

    open spec fn item_view(&self) -> Option<Seq<bool>> {
        match self {
            AttestationRef::Base(att) => att.spec_extend_aggregation_bits(),
            AttestationRef::Electra(att) => Some(att.aggregation_bits@),
        }
    }

    open spec fn root_view(&self) -> Option<Hash256> {
        match self.spec_committee_index() {
            Some(committee_index) => Some(
                (ObservedAttestationKey {
                    committee_index,
                    attestation_data: self.spec_data(),
                }).spec_tree_hash_root(),
            ),
            None => None,
        }
    }

    fn get_slot(&self) -> Slot {
        self.data().slot
    }

    fn is_subset(&self, other: &Bitfield) -> bool {
        match self {
            AttestationRef::Base(att) => {
                if let Ok(extended_aggregation_bits) = att.extend_aggregation_bits() {
                    return extended_aggregation_bits.is_subset(other);
                }
                false
            },
            AttestationRef::Electra(att) => att.aggregation_bits.is_subset(other),
        }
    }

    fn is_superset(&self, other: &Bitfield) -> bool {
        match self {
            AttestationRef::Base(att) => {
                if let Ok(extended_aggregation_bits) = att.extend_aggregation_bits() {
                    return other.is_subset(&extended_aggregation_bits);
                }
                false
            },
            AttestationRef::Electra(att) => other.is_subset(&att.aggregation_bits),
        }
    }

    /// Returns the attestation's aggregation bits, in the shape of a whole slot's bits.
    fn get_item(&self) -> Result<Bitfield, Error> {
        match self {
            AttestationRef::Base(att) => match att.extend_aggregation_bits() {
                Ok(bits) => Ok(bits),
                Err(_) => Err(Error::GetItemError),
            },
            AttestationRef::Electra(att) => Ok(att.aggregation_bits.clone()),
        }
    }

    /// Returns the hash tree root of the attestation data augmented with the committee index.
    fn root(&self) -> Result<Hash256, Error> {
        let committee_index = match self.committee_index() {
            Some(committee_index) => committee_index,
            None => {
                return Err(Error::RootError);
            },
        };
        Ok(
            (ObservedAttestationKey {
                committee_index,
                attestation_data: *self.data(),
            }).tree_hash_root(),
        )
    }
}

impl<E: EthSpec> AsReference for Attestation<E> {
    type Reference<'a> = AttestationRef<'a, E>;

    fn as_reference(&self) -> (r: AttestationRef<'_, E>)
        ensures
            r == self.spec_to_ref(),
    {
        self.to_ref()
    }
}

} // verus!
