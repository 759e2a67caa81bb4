//! Provides an `ObservedAggregates` struct which allows us to reject aggregated
//! attestations or sync committee contributions if we've already seen them.
use crate::attestation::{Attestation, AttestationData};
use crate::merkle::{container_root, hash_container, leaf_of_u64, u64_leaf};
use crate::bitfield::{is_subset_of, Bitfield};
use crate::hash256::{hash_eq, spec_u64_from_le_prefix, u64_from_le_prefix, Hash256};
use crate::laws::{
    lemma_first_related_unique, lemma_pruned_all, lemma_pruned_valid, lemma_slot_position,
};
use crate::slot::{spec_saturating_sub, Slot};
use crate::sync_committee_contribution::SyncCommitteeContribution;
use std::collections::HashMap;
use std::marker::PhantomData;
use vstd::prelude::*;
use vstd::std_specs::hash::*;

verus! {

/// The store of the sync-committee contributions that were observed.
pub type ObservedSyncContributions<E> = ObservedAggregates<SyncCommitteeContribution<E>>;

/// The store of the aggregate attestations that were observed.
pub type ObservedAggregateAttestations<E> = ObservedAggregates<Attestation<E>>;

/// Attestation data augmented with committee index
///
/// This is hashed and used to key the map of observed aggregate attestations. This is important
/// post-Electra where the attestation data committee index is 0 and we want to avoid accidentally
/// comparing aggregation bits for *different* committees.
#[derive(Clone, Copy, Debug)]
pub struct ObservedAttestationKey {
    pub committee_index: u64,
    pub attestation_data: AttestationData,
}

impl ObservedAttestationKey {
    /// The key's Merkle root.
    pub open spec fn spec_tree_hash_root(&self) -> Hash256 {
        container_root(
            seq![leaf_of_u64(self.committee_index), self.attestation_data.spec_tree_hash_root()@],
        )
    }

    /// The key's Merkle root: that of a container of its two fields.
    pub fn tree_hash_root(&self) -> (root: Hash256)
        ensures
            root == self.spec_tree_hash_root(),
    {
        let mut leaves: Vec<Hash256> = Vec::with_capacity(2);
        leaves.push(u64_leaf(self.committee_index));
        leaves.push(self.attestation_data.tree_hash_root());
        assert(leaves@.map_values(|leaf: Hash256| leaf@) =~= seq![
            leaf_of_u64(self.committee_index),
            self.attestation_data.spec_tree_hash_root()@,
        ]);
        hash_container(&leaves)
    }
}

/// What a slot's store holds: for each identity, the aggregation bits kept
/// under it, in the order in which their places were first taken.
pub type Entries = Map<Hash256, Seq<Seq<bool>>>;

/// A trait used to associate capacity constants with the type being stored in
/// `ObservedAggregates`.
pub trait Consts {
    /// The default capacity of items stored per slot, in a single `SlotHashSet`.
    const DEFAULT_PER_SLOT_CAPACITY: usize;

    /// The maximum number of slots, as a value for contracts.
    spec fn spec_max_slot_capacity() -> usize;

    /// The maximum number of items stored per slot, as a value for contracts.
    spec fn spec_max_per_slot_capacity() -> usize;

    /// Two more slots than the maximum still fit the machine word: the store
    /// keeps one extra slot on either side.
    proof fn lemma_max_slot_capacity_fits()
        ensures
            Self::spec_max_slot_capacity() + 2 <= usize::MAX,
    ;

    /// The maximum number of slots. Two more must still fit the machine word,
    /// since the store keeps one extra slot on either side.
    fn max_slot_capacity() -> (n: usize)
        ensures
            n == Self::spec_max_slot_capacity(),
            n + 2 <= usize::MAX,
    ;

    /// The maximum number of items stored per slot, in a single `SlotHashSet`.
    fn max_per_slot_capacity() -> (n: usize)
        ensures
            n == Self::spec_max_per_slot_capacity(),
    ;
}

/// A trait for types that implement a behaviour where one object of that type
/// can be a subset/superset of another.
///
/// This trait allows us to be generic over the aggregate item that we store in
/// the cache that we want to prevent duplicates/subsets for.
pub trait SubsetItem {
    /// The slot that the aggregate belongs to.
    spec fn slot_view(&self) -> Slot;

    /// The aggregate's bits in the shape in which they are stored, or `None`
    /// where they cannot be brought into that shape.
    spec fn item_view(&self) -> Option<Seq<bool>>;

    /// The value that keys the aggregate, or `None` where it has none.
    spec fn root_view(&self) -> Option<Hash256>;

    /// Returns the slot that the aggregate belongs to.
    fn get_slot(&self) -> (slot: Slot)
        ensures
            slot == self.slot_view(),
    ;

    /// Returns `true` if `self` is a non-strict subset of `other` and `false` otherwise.
    fn is_subset(&self, other: &Bitfield) -> (subset: bool)
        ensures
            subset == item_is_subset(self.item_view(), other@),
    ;

    /// Returns `true` if `self` is a non-strict superset of `other` and `false` otherwise.
    fn is_superset(&self, other: &Bitfield) -> (superset: bool)
        ensures
            superset == item_is_superset(self.item_view(), other@),
    ;

    /// Returns the item that gets stored in `ObservedAggregates` for later subset
    /// comparison with incoming aggregates.
    fn get_item(&self) -> (item: Result<Bitfield, Error>)
        ensures
            match item {
                Ok(bits) => self.item_view() == Some(bits@),
                Err(e) => self.item_view() is None && e == Error::GetItemError,
            },
    ;

    /// Returns a unique value that keys the object to the item that is being stored
    /// in `ObservedAggregates`.
    fn root(&self) -> (root: Result<Hash256, Error>)
        ensures
            match root {
                Ok(hash) => self.root_view() == Some(hash),
                Err(e) => self.root_view() is None && e == Error::RootError,
            },
    ;
}

/// Whether an incoming aggregate with bits `item` is a non-strict subset of the
/// stored bits `stored`. An aggregate without bits is a subset of nothing.
pub open spec fn item_is_subset(item: Option<Seq<bool>>, stored: Seq<bool>) -> bool {
    item matches Some(bits) && is_subset_of(bits, stored)
}

/// Whether an incoming aggregate with bits `item` is a non-strict superset of
/// the stored bits `stored`. An aggregate without bits is a superset of nothing.
pub open spec fn item_is_superset(item: Option<Seq<bool>>, stored: Seq<bool>) -> bool {
    item matches Some(bits) && is_subset_of(stored, bits)
}

/// Whether the incoming aggregate is a subset or a superset of the stored bits.
pub open spec fn item_is_related(item: Option<Seq<bool>>, stored: Seq<bool>) -> bool {
    item_is_subset(item, stored) || item_is_superset(item, stored)
}

/// Whether `i` is the first position of `list` whose bits the incoming
/// aggregate is a subset or a superset of.
pub open spec fn is_first_related(item: Option<Seq<bool>>, list: Seq<Seq<bool>>, i: int) -> bool {
    &&& 0 <= i < list.len()
    &&& item_is_related(item, list[i])
    &&& forall|j: int| 0 <= j < i ==> !item_is_related(item, #[trigger] list[j])
}

/// The first position of `list` whose bits the incoming aggregate is a subset
/// or a superset of, if there is one.
pub open spec fn first_related(item: Option<Seq<bool>>, list: Seq<Seq<bool>>) -> Option<int> {
    if exists|i: int| is_first_related(item, list, i) {
        Some(choose|i: int| is_first_related(item, list, i))
    } else {
        None
    }
}

/// The bits stored under `root`, none where the identity is unknown.
pub open spec fn stored_under(entries: Entries, root: Hash256) -> Seq<Seq<bool>> {
    if entries.contains_key(root) {
        entries[root]
    } else {
        Seq::empty()
    }
}

/// Whether some bits stored under `root` cover the incoming aggregate.
pub open spec fn known_subset(entries: Entries, item: Option<Seq<bool>>, root: Hash256) -> bool {
    exists|i: int|
        0 <= i < stored_under(entries, root).len() && item_is_subset(
            item,
            #[trigger] stored_under(entries, root)[i],
        )
}

/// The verdict on an aggregate with bits `item` and identity `root`, offered to
/// a store for its slot that holds `entries` and admits `max_capacity`
/// identities.
///
/// The stored bits under `root` are gone through in order. At the first one
/// that the aggregate is a subset or a superset of, the aggregate is either
/// covered (a subset) or takes that place (a strict superset). Where there is
/// none, the aggregate is new, unless the store is full or the aggregate has no
/// bits to store.
pub open spec fn observe_outcome(
    entries: Entries,
    max_capacity: usize,
    item: Option<Seq<bool>>,
    root: Hash256,
) -> Result<ObserveOutcome, Error> {
    let list = stored_under(entries, root);
    match first_related(item, list) {
        Some(i) => if item_is_subset(item, list[i]) {
            Ok(ObserveOutcome::Subset)
        } else {
            Ok(ObserveOutcome::New)
        },
        None => if entries.dom().len() >= max_capacity {
            Err(Error::ReachedMaxObservationsPerSlot(max_capacity))
        } else if item is None {
            Err(Error::GetItemError)
        } else {
            Ok(ObserveOutcome::New)
        },
    }
}

/// What the store holds after that aggregate was offered to it.
pub open spec fn observe_entries(
    entries: Entries,
    max_capacity: usize,
    item: Option<Seq<bool>>,
    root: Hash256,
) -> Entries {
    let list = stored_under(entries, root);
    match first_related(item, list) {
        Some(i) => if item_is_subset(item, list[i]) {
            entries
        } else {
            entries.insert(root, list.update(i, item->0))
        },
        None => if entries.dom().len() >= max_capacity || item is None {
            entries
        } else {
            entries.insert(root, list.push(item->0))
        },
    }
}

#[derive(Debug, PartialEq, Eq, Structural, Clone, Copy)]
pub enum ObserveOutcome {
    /// This item is a non-strict subset of an already known item.
    Subset,
    /// This was the first time this item was observed.
    New,
}

#[derive(Debug, PartialEq, Eq, Structural, Clone, Copy)]
pub enum Error {
    /// The aggregate's slot lies below the lowest slot that is still kept.
    SlotTooLow { slot: Slot, lowest_permissible_slot: Slot },
    /// The function to obtain a set index failed, this is an internal error.
    InvalidSetIndex(usize),
    /// We have reached the maximum number of unique items that can be observed in a slot.
    /// This is a DoS protection function.
    ReachedMaxObservationsPerSlot(usize),
    /// The aggregate was handed to the store of another slot.
    IncorrectSlot { expected: Slot, attestation: Slot },
    /// The aggregate's bits could not be brought into the shape that is stored.
    GetItemError,
    /// The value that keys the aggregate could not be computed.
    RootError,
}

/// The bits kept under one identity.
struct Entry {
    root: Hash256,
    aggregates: Vec<Bitfield>,
}

/// The stored bits of one identity as plain sequences.
spec fn list_view(aggregates: Vec<Bitfield>) -> Seq<Seq<bool>> {
    aggregates@.map_values(|b: Bitfield| b@)
}

/// A store that contains the entries related to some `Slot`.
pub struct SlotHashSet {
    /// For each identity a vector of maximally-sized aggregation bitfields.
    entries: Vec<Entry>,
    /// For the number in the first eight bytes of an identity, the positions of
    /// the entries whose identities start with these bytes.
    index: HashMap<u64, Vec<usize>>,
    slot: Slot,
    /// The number of identities for which room was set aside at the start.
    initial_capacity: usize,
    max_capacity: usize,
}

impl View for SlotHashSet {
    type V = Entries;

    closed spec fn view(&self) -> Entries {
        Map::new(
            |r: Hash256| self.roots().contains(r),
            |r: Hash256| list_view(self.entries[self.roots().index_of(r)].aggregates),
        )
    }
}

impl SlotHashSet {
    /// The identities that the store holds, in the order of its entries.
    spec fn roots(&self) -> Seq<Hash256> {
        self.entries@.map_values(|e: Entry| e.root)
    }

    /// The slot whose aggregates the store holds.
    pub closed spec fn slot_view(&self) -> Slot {
        self.slot
    }

    /// The number of identities that the store admits.
    pub closed spec fn max_capacity_view(&self) -> usize {
        self.max_capacity
    }

    /// The number of identities for which room was set aside when the store was
    /// made.
    pub closed spec fn initial_capacity_view(&self) -> usize {
        self.initial_capacity
    }

    /// The store's invariant: no identity is held twice, and there are no more
    /// identities than the store admits.
    pub closed spec fn wf(&self) -> bool {
        &&& self.roots().no_duplicates()
        &&& self.entries.len() <= self.max_capacity
        &&& self.index_wf()
    }

    /// The index leads to every entry, and to no entry under a wrong number.
    spec fn index_wf(&self) -> bool {
        &&& forall|i: int|
            0 <= i < self.entries.len() ==> self.index@.contains_key(
                spec_u64_from_le_prefix((#[trigger] self.entries[i]).root@),
            ) && self.index@[spec_u64_from_le_prefix(self.entries[i].root@)]@.contains(i as usize)
        &&& forall|key: u64, j: int|
            self.index@.contains_key(key) && 0 <= j < self.index@[key]@.len() ==> (
            #[trigger] self.index@[key]@[j]) < self.entries.len() && spec_u64_from_le_prefix(
                self.entries[self.index@[key]@[j] as int].root@,
            ) == key
    }

    /// What the invariant says of the view: the identities are finitely many, at
    /// most as many as the store admits.
    pub proof fn lemma_wf_bounded(&self)
        requires
            self.wf(),
        ensures
            self@.dom().finite(),
            self@.dom().len() <= self.max_capacity_view(),
    {
        self.lemma_view();
    }

    /// How the view reads off the entries.
    proof fn lemma_view(&self)
        requires
            self.roots().no_duplicates(),
        ensures
            self@.dom().finite(),
            self@.dom().len() == self.entries.len(),
            forall|i: int|
                0 <= i < self.entries.len() ==> self@.contains_key(#[trigger] self.entries[i].root)
                    && self@[self.entries[i].root] == list_view(self.entries[i].aggregates),
            forall|r: Hash256|
                self@.contains_key(r) ==> exists|i: int|
                    0 <= i < self.entries.len() && #[trigger] self.entries[i].root == r,
    {
        let roots = self.roots();
        assert(self@.dom() =~= roots.to_set());
        roots.unique_seq_to_set();
        vstd::seq_lib::seq_to_set_is_finite(roots);
        assert forall|i: int| 0 <= i < self.entries.len() implies self@.contains_key(
            #[trigger] self.entries[i].root,
        ) && self@[self.entries[i].root] == list_view(self.entries[i].aggregates) by {
            assert(roots[i] == self.entries[i].root);
            let k = roots.index_of(self.entries[i].root);
            assert(roots[k] == roots[i]);
        }
        assert forall|r: Hash256| self@.contains_key(r) implies exists|i: int|
            0 <= i < self.entries.len() && #[trigger] self.entries[i].root == r by {
            let k = roots.index_of(r);
            assert(roots[k] == r);
            assert(self.entries[k].root == r);
        }
    }

    /// The view after the bits under one entry were changed.
    proof fn lemma_view_after_change(&self, after: SlotHashSet, idx: int)
        requires
            self.roots().no_duplicates(),
            0 <= idx < self.entries.len(),
            after.entries.len() == self.entries.len(),
            after.entries[idx].root == self.entries[idx].root,
            forall|k: int|
                0 <= k < self.entries.len() && k != idx ==> after.entries[k] == self.entries[k],
        ensures
            after.roots() == self.roots(),
            after@ == self@.insert(
                self.entries[idx].root,
                list_view(after.entries[idx].aggregates),
            ),
            after.index == self.index && self.index_wf() ==> after.index_wf(),
    {
        assert(after.roots() =~= self.roots());
        assert forall|k: int| 0 <= k < self.entries.len() implies (#[trigger] after.entries[k]).root
            == self.entries[k].root by {}
        self.lemma_view();
        after.lemma_view();
        let expected = self@.insert(
            self.entries[idx].root,
            list_view(after.entries[idx].aggregates),
        );
        assert forall|r: Hash256| after@.contains_key(r) implies expected.contains_key(r)
            && after@[r] == expected[r] by {
            let i = choose|i: int| 0 <= i < after.entries.len() && #[trigger] after.entries[i].root == r;
            assert(self.roots()[i] == r);
            if i != idx {
                assert(after.entries[i] == self.entries[i]);
                assert(self.entries[i].root == r);
            }
        }
        assert forall|r: Hash256| expected.contains_key(r) implies after@.contains_key(r) by {
            if r != self.entries[idx].root {
                let i = choose|i: int| 0 <= i < self.entries.len() && #[trigger] self.entries[i].root == r;
                assert(after.entries[i] == self.entries[i]);
                assert(after.entries[i].root == r);
            } else {
                assert(after.entries[idx].root == r);
            }
        }
        assert(after@ =~= expected);
    }

    /// The view after an entry for a new identity was added.
    proof fn lemma_view_after_push(&self, after: SlotHashSet)
        requires
            self.roots().no_duplicates(),
            after.entries.len() == self.entries.len() + 1,
            forall|k: int| 0 <= k < self.entries.len() ==> after.entries[k] == self.entries[k],
            forall|k: int|
                0 <= k < self.entries.len() ==> self.entries[k].root != after.entries[self.entries.len() as int].root,
        ensures
            after.roots().no_duplicates(),
            after@ == self@.insert(
                after.entries[self.entries.len() as int].root,
                list_view(after.entries[self.entries.len() as int].aggregates),
            ),
    {
        let n = self.entries.len() as int;
        let root = after.entries[n].root;
        assert(after.roots() =~= self.roots().push(root));
        assert(after.roots().no_duplicates()) by {
            assert forall|i: int, j: int|
                0 <= i < after.roots().len() && 0 <= j < after.roots().len() && i != j implies after.roots()[i]
                != after.roots()[j] by {
                if i < n {
                    assert(after.roots()[i] == self.entries[i].root);
                }
                if j < n {
                    assert(after.roots()[j] == self.entries[j].root);
                }
                if i < n && j < n {
                    assert(self.roots()[i] != self.roots()[j]);
                }
            }
        }
        self.lemma_view();
        after.lemma_view();
        let expected = self@.insert(root, list_view(after.entries[n].aggregates));
        assert forall|r: Hash256| after@.contains_key(r) implies expected.contains_key(r)
            && after@[r] == expected[r] by {
            let i = choose|i: int| 0 <= i < after.entries.len() && #[trigger] after.entries[i].root == r;
            if i < n {
                assert(after.entries[i] == self.entries[i]);
                assert(self.entries[i].root == r);
            }
        }
        assert forall|r: Hash256| expected.contains_key(r) implies after@.contains_key(r) by {
            if r != root {
                let i = choose|i: int| 0 <= i < self.entries.len() && #[trigger] self.entries[i].root == r;
                assert(after.entries[i] == self.entries[i]);
                assert(after.entries[i].root == r);
            } else {
                assert(after.entries[n].root == r);
            }
        }
        assert(after@ =~= expected);
    }

    /// The index after an entry was added at the end and its position was
    /// entered under the number that its identity starts with.
    proof fn lemma_index_after_push(&self, after: SlotHashSet)
        requires
            self.index_wf(),
            after.entries.len() == self.entries.len() + 1,
            forall|k: int| 0 <= k < self.entries.len() ==> after.entries[k] == self.entries[k],
            after.index@.dom() == self.index@.dom().insert(
                spec_u64_from_le_prefix(after.entries[self.entries.len() as int].root@),
            ),
            forall|key: u64|
                self.index@.contains_key(key) && key != spec_u64_from_le_prefix(
                    after.entries[self.entries.len() as int].root@,
                ) ==> after.index@[key] == self.index@[key],
            after.index@[spec_u64_from_le_prefix(after.entries[self.entries.len() as int].root@)]@
                == (if self.index@.contains_key(
                spec_u64_from_le_prefix(after.entries[self.entries.len() as int].root@),
            ) {
                self.index@[spec_u64_from_le_prefix(after.entries[self.entries.len() as int].root@)]@
            } else {
                Seq::<usize>::empty()
            }).push(self.entries.len() as usize),
        ensures
            after.index_wf(),
    {
        let n = self.entries.len() as int;
        let new_key = spec_u64_from_le_prefix(after.entries[n].root@);
        let old_list = if self.index@.contains_key(new_key) {
            self.index@[new_key]@
        } else {
            Seq::<usize>::empty()
        };
        assert(after.index@.contains_key(new_key));
        assert forall|i: int| 0 <= i < after.entries.len() implies after.index@.contains_key(
            spec_u64_from_le_prefix((#[trigger] after.entries[i]).root@),
        ) && after.index@[spec_u64_from_le_prefix(after.entries[i].root@)]@.contains(i as usize) by {
            let key = spec_u64_from_le_prefix(after.entries[i].root@);
            if i < n {
                assert(after.entries[i] == self.entries[i]);
                assert(self.index@.contains_key(key));
                assert(self.index@[key]@.contains(i as usize));
                if key == new_key {
                    let k = self.index@[key]@.index_of(i as usize);
                    assert(after.index@[key]@[k] == i as usize);
                } else {
                    assert(after.index@.dom().contains(key));
                }
            } else {
                assert(after.index@[key]@[old_list.len() as int] == n as usize);
            }
        }
        assert forall|key: u64, j: int|
            after.index@.contains_key(key) && 0 <= j < after.index@[key]@.len() implies (
        #[trigger] after.index@[key]@[j]) < after.entries.len() && spec_u64_from_le_prefix(
            after.entries[after.index@[key]@[j] as int].root@,
        ) == key by {
            if key == new_key {
                if j < old_list.len() {
                    assert(self.index@[key]@[j] < self.entries.len());
                    assert(after.entries[self.index@[key]@[j] as int]
                        == self.entries[self.index@[key]@[j] as int]);
                }
            } else {
                assert(self.index@.dom().insert(new_key).contains(key));
                assert(self.index@[key]@[j] < self.entries.len());
                assert(after.entries[self.index@[key]@[j] as int]
                    == self.entries[self.index@[key]@[j] as int]);
            }
        }
    }

    /// An empty store for `slot` that admits `max_capacity` identities, with
    /// room set aside for `initial_capacity` of them.
    pub fn new(slot: Slot, initial_capacity: usize, max_capacity: usize) -> (set: Self)
        ensures
            set.wf(),
            set@ == Map::<Hash256, Seq<Seq<bool>>>::empty(),
            set.slot_view() == slot,
            set.initial_capacity_view() == initial_capacity,
            set.max_capacity_view() == max_capacity,
    {
        let set = Self {
            slot,
            entries: Vec::with_capacity(initial_capacity),
            index: HashMap::with_capacity(initial_capacity),
            initial_capacity,
            max_capacity,
        };
        proof {
            set.lemma_view();
            assert(set@ =~= Map::<Hash256, Seq<Seq<bool>>>::empty());
        }
        set
    }

    /// The position of the entry for `root`, if the store has one.
    fn position(&self, root: &Hash256) -> (found: Option<usize>)
        requires
            self.index_wf(),
        ensures
            match found {
                Some(i) => i < self.entries.len() && self.entries[i as int].root == *root,
                None => forall|i: int| 0 <= i < self.entries.len() ==> self.entries[i].root != *root,
            },
    {
        broadcast use group_hash_axioms;

        let key = u64_from_le_prefix(root);
        match self.index.get(&key) {
            Some(candidates) => {
                let mut j: usize = 0;
                while j < candidates.len()
                    invariant
                        j <= candidates.len(),
                        self.index_wf(),
                        key == spec_u64_from_le_prefix(root@),
                        self.index@.contains_key(key),
                        *candidates == self.index@[key],
                        forall|k: int|
                            0 <= k < j ==> self.entries[candidates@[k] as int].root != *root,
                    decreases candidates.len() - j,
                {
                    let i = candidates[j];
                    assert(self.index@[key]@[j as int] < self.entries.len());
                    if hash_eq(&self.entries[i].root, root) {
                        return Some(i);
                    }
                    j += 1;
                }
                assert forall|i: int| 0 <= i < self.entries.len() implies self.entries[i].root
                    != *root by {
                    if self.entries[i].root == *root {
                        let k = candidates@.index_of(i as usize);
                        assert(candidates@[k] == i);
                    }
                }
                None
            },
            None => None,
        }
    }

    /// Store the items in self so future observations recognise its existence.
    ///
    /// An aggregate of another slot is refused with `IncorrectSlot`. Otherwise
    /// the verdict and the new contents are those of `observe_outcome` and
    /// `observe_entries`; on `Subset` and on every error nothing changes.
    #[verifier::loop_isolation(false)]
    pub fn observe_item<S: SubsetItem>(&mut self, item: S, root: Hash256) -> (outcome: Result<
        ObserveOutcome,
        Error,
    >)
        requires
            old(self).wf(),
        ensures
            final(self).wf(),
            final(self).slot_view() == old(self).slot_view(),
            final(self).initial_capacity_view() == old(self).initial_capacity_view(),
            final(self).max_capacity_view() == old(self).max_capacity_view(),
            item.slot_view() != old(self).slot_view() ==> final(self)@ == old(self)@ && outcome == Err::<
                ObserveOutcome,
                Error,
            >(
                Error::IncorrectSlot { expected: old(self).slot_view(), attestation: item.slot_view() },
            ),
            item.slot_view() == old(self).slot_view() ==> final(self)@ == observe_entries(
                old(self)@,
                old(self).max_capacity_view(),
                item.item_view(),
                root,
            ) && outcome == observe_outcome(
                old(self)@,
                old(self).max_capacity_view(),
                item.item_view(),
                root,
            ),
    {
        broadcast use group_hash_axioms;

        let item_slot = item.get_slot();
        if item_slot.as_u64() != self.slot.as_u64() {
            return Err(Error::IncorrectSlot { expected: self.slot, attestation: item_slot });
        }
        proof {
            self.lemma_view();
        }
        let ghost bits = item.item_view();
        let ghost list = stored_under(self@, root);
        let found = self.position(&root);
        if let Some(idx) = found {
            assert(list == list_view(self.entries[idx as int].aggregates));
            let n = self.entries[idx].aggregates.len();
            let mut j: usize = 0;
            while j < n
                invariant
                    j <= n,
                    *self == *old(self),
                    forall|k: int| 0 <= k < j ==> !item_is_related(bits, #[trigger] list[k]),
                decreases n - j,
            {
                assert(list[j as int] == self.entries[idx as int].aggregates[j as int]@);
                if item.is_subset(&self.entries[idx].aggregates[j]) {
                    proof {
                        lemma_first_related_unique(bits, list, j as int);
                    }
                    return Ok(ObserveOutcome::Subset);
                } else if item.is_superset(&self.entries[idx].aggregates[j]) {
                    proof {
                        lemma_first_related_unique(bits, list, j as int);
                    }
                    match item.get_item() {
                        Ok(new_bits) => {
                            let ghost before = *self;
                            self.entries[idx].aggregates[j] = new_bits;
                            proof {
                                assert(list_view(self.entries[idx as int].aggregates) =~= list.update(
                                    j as int,
                                    bits->0,
                                ));
                                before.lemma_view_after_change(*self, idx as int);
                            }
                            return Ok(ObserveOutcome::New);
                        },
                        Err(e) => {
                            return Err(e);
                        },
                    }
                }
                j += 1;
            }
        }
        proof {
            lemma_first_related_none(bits, list);
        }
        if self.entries.len() >= self.max_capacity {
            return Err(Error::ReachedMaxObservationsPerSlot(self.max_capacity));
        }
        let new_bits = match item.get_item() {
            Ok(new_bits) => new_bits,
            Err(e) => {
                return Err(e);
            },
        };
        let ghost before = *self;
        match found {
            Some(idx) => {
                self.entries[idx].aggregates.push(new_bits);
                proof {
                    assert(list_view(self.entries[idx as int].aggregates) =~= list.push(bits->0));
                    before.lemma_view_after_change(*self, idx as int);
                }
            },
            None => {
                let mut aggregates: Vec<Bitfield> = Vec::new();
                aggregates.push(new_bits);
                let position = self.entries.len();
                let key = u64_from_le_prefix(&root);
                self.entries.push(Entry { root, aggregates });
                let mut candidates = match self.index.remove(&key) {
                    Some(candidates) => candidates,
                    None => Vec::new(),
                };
                candidates.push(position);
                self.index.insert(key, candidates);
                proof {
                    assert(self.index@.dom() =~= before.index@.dom().insert(key));
                    before.lemma_index_after_push(*self);
                    assert(list =~= Seq::<Seq<bool>>::empty());
                    assert(list_view(self.entries[before.entries.len() as int].aggregates) =~= list.push(
                        bits->0,
                    ));
                    before.lemma_view_after_push(*self);
                }
            },
        }
        Ok(ObserveOutcome::New)
    }

    /// Check if `item` is a non-strict subset of any of the already observed aggregates for
    /// the given root and slot.
    #[verifier::loop_isolation(false)]
    pub fn is_known_subset<S: SubsetItem>(&self, item: S, root: Hash256) -> (known: Result<
        bool,
        Error,
    >)
        requires
            self.wf(),
        ensures
            known == if item.slot_view() == self.slot_view() {
                Ok::<bool, Error>(known_subset(self@, item.item_view(), root))
            } else {
                Err::<bool, Error>(
                    Error::IncorrectSlot { expected: self.slot_view(), attestation: item.slot_view() },
                )
            },
    {
        let item_slot = item.get_slot();
        if item_slot.as_u64() != self.slot.as_u64() {
            return Err(Error::IncorrectSlot { expected: self.slot, attestation: item_slot });
        }
        proof {
            self.lemma_view();
        }
        let ghost list = stored_under(self@, root);
        match self.position(&root) {
            Some(idx) => {
                let n = self.entries[idx].aggregates.len();
                let mut j: usize = 0;
                while j < n
                    invariant
                        j <= n,
                        idx < self.entries.len(),
                        n == self.entries[idx as int].aggregates.len(),
                        list == list_view(self.entries[idx as int].aggregates),
                        forall|k: int| 0 <= k < j ==> !item_is_subset(
                            item.item_view(),
                            #[trigger] list[k],
                        ),
                    decreases n - j,
                {
                    assert(list[j as int] == self.entries[idx as int].aggregates[j as int]@);
                    if item.is_subset(&self.entries[idx].aggregates[j]) {
                        return Ok(true);
                    }
                    j += 1;
                }
                Ok(false)
            },
            None => Ok(false),
        }
    }

    /// The number of observed items in `self`.
    pub fn len(&self) -> (n: usize)
        requires
            self.wf(),
        ensures
            n == self@.dom().len(),
    {
        proof {
            self.lemma_view();
        }
        self.entries.len()
    }
}

/// Where the incoming aggregate is related to no stored bits, there is no first
/// position.
proof fn lemma_first_related_none(item: Option<Seq<bool>>, list: Seq<Seq<bool>>)
    requires
        forall|k: int| 0 <= k < list.len() ==> !item_is_related(item, #[trigger] list[k]),
    ensures
        first_related(item, list) is None,
{
}

/// Trait for observable items that can be observed from their reference type.
///
/// This is used to make observations for `Attestation`s from `AttestationRef`s.
pub trait AsReference {
    type Reference<'a> where Self: 'a;

    fn as_reference(&self) -> Self::Reference<'_>;
}

/// One slot's store as the contracts see it.
pub ghost struct BucketView {
    pub slot: Slot,
    /// The number of identities for which room was set aside when the store
    /// was made.
    pub initial_capacity: usize,
    pub entries: Entries,
}

/// The number of slots that a store for aggregates of kind `T` keeps: two more
/// than the kind asks for, one slot either side of the range on account of
/// clock disparity.
pub open spec fn spec_max_capacity<T: Consts>() -> u64 {
    (T::spec_max_slot_capacity() + 2) as u64
}

/// The lowest slot that is admitted once an aggregate of `slot` was routed: a
/// slot at or beyond the end of the window moves the window so that it ends
/// with that slot.
pub open spec fn routed_floor(floor: Slot, capacity: u64, slot: Slot) -> Slot {
    if floor.0 + capacity <= slot.0 {
        Slot(spec_saturating_sub(slot.0, (capacity - 1) as u64))
    } else {
        floor
    }
}

/// The buckets that stay when every slot below `floor` is discarded.
pub open spec fn pruned(buckets: Seq<BucketView>, floor: Slot) -> Seq<BucketView> {
    buckets.filter(|b: BucketView| b.slot.0 >= floor.0)
}

/// Whether some bucket is for `slot`.
pub open spec fn has_slot(buckets: Seq<BucketView>, slot: Slot) -> bool {
    exists|i: int| 0 <= i < buckets.len() && #[trigger] buckets[i].slot == slot
}

/// The position of the bucket for `slot`.
pub open spec fn slot_position(buckets: Seq<BucketView>, slot: Slot) -> int {
    choose|i: int| 0 <= i < buckets.len() && #[trigger] buckets[i].slot == slot
}

/// Whether the bucket at position `i` has the smallest slot, and is the first
/// such.
pub open spec fn is_min_position(buckets: Seq<BucketView>, i: int) -> bool {
    &&& 0 <= i < buckets.len()
    &&& forall|j: int| 0 <= j < buckets.len() ==> buckets[i].slot.0 <= (#[trigger] buckets[j]).slot.0
    &&& forall|j: int| 0 <= j < i ==> buckets[i].slot.0 < (#[trigger] buckets[j]).slot.0
}

/// The position of the bucket with the smallest slot.
pub open spec fn min_position(buckets: Seq<BucketView>) -> int {
    choose|i: int| is_min_position(buckets, i)
}

/// A bucket for `slot` that holds nothing yet, with room set aside for
/// `initial_capacity` identities.
pub open spec fn empty_bucket(slot: Slot, initial_capacity: usize) -> BucketView {
    BucketView { slot, initial_capacity, entries: Map::empty() }
}

/// The buckets once an aggregate of `slot`, not below `floor`, was routed.
///
/// Stale buckets are discarded where the slot moves the window. Then the
/// bucket for `slot` is the one that is there, or a fresh one: added at the end
/// while there is room, else in the place of the bucket with the smallest slot.
pub open spec fn routed(
    buckets: Seq<BucketView>,
    floor: Slot,
    capacity: u64,
    default_capacity: usize,
    slot: Slot,
) -> Seq<BucketView> {
    let kept = pruned(buckets, routed_floor(floor, capacity, slot));
    if has_slot(kept, slot) {
        kept
    } else if kept.len() < capacity || kept.len() == 0 {
        kept.push(empty_bucket(slot, mean_earlier_len(kept, slot, default_capacity) as usize))
    } else {
        kept.update(
            min_position(kept),
            empty_bucket(slot, mean_earlier_len(kept, slot, default_capacity) as usize),
        )
    }
}

/// The invariants of the store over its buckets: there are at most `capacity`
/// of them, none is for a slot below `floor`, no two are for the same slot, and
/// none holds more than `max_per_slot` identities.
pub open spec fn buckets_valid(
    buckets: Seq<BucketView>,
    floor: Slot,
    capacity: u64,
    max_per_slot: usize,
) -> bool {
    &&& buckets.len() <= capacity
    &&& forall|i: int| 0 <= i < buckets.len() ==> (#[trigger] buckets[i]).slot.0 >= floor.0
    &&& forall|i: int, j: int|
        0 <= i < buckets.len() && 0 <= j < buckets.len() && i != j ==> (#[trigger] buckets[i]).slot
            != (#[trigger] buckets[j]).slot
    &&& forall|i: int|
        0 <= i < buckets.len() ==> (#[trigger] buckets[i]).entries.dom().finite()
            && buckets[i].entries.dom().len() <= max_per_slot
}

/// How many of the buckets are for a slot before `slot`.
pub open spec fn earlier_count(buckets: Seq<BucketView>, slot: Slot) -> nat
    decreases buckets.len(),
{
    if buckets.len() == 0 {
        0
    } else {
        earlier_count(buckets.drop_last(), slot) + if buckets.last().slot.0 < slot.0 {
            1nat
        } else {
            0nat
        }
    }
}

/// How many identities the buckets for a slot before `slot` hold together.
pub open spec fn earlier_sum(buckets: Seq<BucketView>, slot: Slot) -> nat
    decreases buckets.len(),
{
    if buckets.len() == 0 {
        0
    } else {
        earlier_sum(buckets.drop_last(), slot) + if buckets.last().slot.0 < slot.0 {
            buckets.last().entries.dom().len()
        } else {
            0nat
        }
    }
}

/// The room to set aside in a fresh bucket for `slot`: the integer mean of the
/// number of identities in the buckets for earlier slots, or `default` where
/// there is no such bucket.
pub open spec fn mean_earlier_len(buckets: Seq<BucketView>, slot: Slot, default: usize) -> int {
    if earlier_count(buckets, slot) == 0 {
        default as int
    } else {
        earlier_sum(buckets, slot) as int / earlier_count(buckets, slot) as int
    }
}

/// The identity under which an aggregate is observed: the one that the caller
/// computed beforehand, else the aggregate's own.
pub open spec fn root_or(root_opt: Option<Hash256>, own: Option<Hash256>) -> Option<Hash256> {
    if root_opt is Some {
        root_opt
    } else {
        own
    }
}

/// The lowest permissible slot once an aggregate of `slot` was offered. An
/// aggregate that is refused for its slot changes nothing.
pub open spec fn observed_floor(floor: Slot, capacity: u64, slot: Slot) -> Slot {
    if slot.0 < floor.0 {
        floor
    } else {
        routed_floor(floor, capacity, slot)
    }
}

/// The buckets once an aggregate of `slot` with bits `item` was offered under
/// the identity `root`, `None` where the aggregate has no identity.
///
/// Below the floor nothing changes. Otherwise the aggregate is routed first,
/// whatever comes of it afterwards, and then offered to the bucket for its slot.
pub open spec fn observed_buckets(
    buckets: Seq<BucketView>,
    floor: Slot,
    capacity: u64,
    max_per_slot: usize,
    default_capacity: usize,
    slot: Slot,
    item: Option<Seq<bool>>,
    root: Option<Hash256>,
) -> Seq<BucketView> {
    if slot.0 < floor.0 {
        buckets
    } else {
        let routed = routed(buckets, floor, capacity, default_capacity, slot);
        match root {
            None => routed,
            Some(root) => {
                let i = slot_position(routed, slot);
                routed.update(
                    i,
                    BucketView {
                        entries: observe_entries(routed[i].entries, max_per_slot, item, root),
                        ..routed[i]
                    },
                )
            },
        }
    }
}

/// The verdict on that aggregate.
pub open spec fn observed_outcome(
    buckets: Seq<BucketView>,
    floor: Slot,
    capacity: u64,
    max_per_slot: usize,
    default_capacity: usize,
    slot: Slot,
    item: Option<Seq<bool>>,
    root: Option<Hash256>,
) -> Result<ObserveOutcome, Error> {
    if slot.0 < floor.0 {
        Err(Error::SlotTooLow { slot, lowest_permissible_slot: floor })
    } else {
        match root {
            None => Err(Error::RootError),
            Some(root) => {
                let routed = routed(buckets, floor, capacity, default_capacity, slot);
                observe_outcome(
                    routed[slot_position(routed, slot)].entries,
                    max_per_slot,
                    item,
                    root,
                )
            },
        }
    }
}

/// Whether the buckets know an aggregate of `slot` with bits `item` and
/// identity `root` as covered: only the bucket for that very slot is asked.
pub open spec fn ring_known_subset(
    buckets: Seq<BucketView>,
    slot: Slot,
    item: Option<Seq<bool>>,
    root: Hash256,
) -> bool {
    has_slot(
        buckets,
        slot,
    ) && known_subset(buckets[slot_position(buckets, slot)].entries, item, root)
}

/// A store of observed aggregates as the contracts see it.
pub ghost struct StoreView {
    /// The lowest slot whose aggregates the store still admits.
    pub lowest_permissible_slot: Slot,
    /// The stores of the slots, in the order in which they stand.
    pub buckets: Seq<BucketView>,
}

/// What is fixed for a kind of aggregate.
pub ghost struct Limits {
    /// The number of slots that the store keeps.
    pub capacity: u64,
    /// The number of identities that one slot admits.
    pub max_per_slot: usize,
    /// The room to set aside in a slot's store where no earlier slot tells.
    pub default_per_slot: usize,
}

/// The limits of a store for aggregates of kind `T`.
pub open spec fn spec_limits<T: Consts>() -> Limits {
    Limits {
        capacity: spec_max_capacity::<T>(),
        max_per_slot: T::spec_max_per_slot_capacity(),
        default_per_slot: T::DEFAULT_PER_SLOT_CAPACITY,
    }
}

/// The invariants of a store: it keeps at least one slot, and its buckets are
/// valid.
pub open spec fn store_valid(store: StoreView, limits: Limits) -> bool {
    &&& limits.capacity >= 1
    &&& buckets_valid(
        store.buckets,
        store.lowest_permissible_slot,
        limits.capacity,
        limits.max_per_slot,
    )
}

/// The store once an aggregate of `slot` with bits `item` was offered under
/// the identity `root`, `None` where the aggregate has no identity.
pub open spec fn after_observe(
    store: StoreView,
    limits: Limits,
    slot: Slot,
    item: Option<Seq<bool>>,
    root: Option<Hash256>,
) -> StoreView {
    StoreView {
        lowest_permissible_slot: observed_floor(store.lowest_permissible_slot, limits.capacity, slot),
        buckets: observed_buckets(
            store.buckets,
            store.lowest_permissible_slot,
            limits.capacity,
            limits.max_per_slot,
            limits.default_per_slot,
            slot,
            item,
            root,
        ),
    }
}

/// The verdict on that aggregate.
pub open spec fn observe_verdict(
    store: StoreView,
    limits: Limits,
    slot: Slot,
    item: Option<Seq<bool>>,
    root: Option<Hash256>,
) -> Result<ObserveOutcome, Error> {
    observed_outcome(
        store.buckets,
        store.lowest_permissible_slot,
        limits.capacity,
        limits.max_per_slot,
        limits.default_per_slot,
        slot,
        item,
        root,
    )
}

/// The lowest permissible slot once the store was pruned for `current_slot`:
/// the first slot of the window that ends with `current_slot`.
pub open spec fn pruned_floor(limits: Limits, current_slot: Slot) -> Slot {
    Slot(spec_saturating_sub(current_slot.0, (limits.capacity - 1) as u64))
}

/// The store once it was pruned for `current_slot`: the floor is set, and every
/// bucket for a slot below it is discarded.
pub open spec fn after_prune(store: StoreView, limits: Limits, current_slot: Slot) -> StoreView {
    StoreView {
        lowest_permissible_slot: pruned_floor(limits, current_slot),
        buckets: pruned(store.buckets, pruned_floor(limits, current_slot)),
    }
}

/// The answer to the question whether the store knows an aggregate of `slot`
/// with bits `item` and identity `root` as covered. A slot below the lowest
/// permissible slot is refused; otherwise only the bucket for that very slot is
/// asked.
pub open spec fn known_subset_verdict(
    store: StoreView,
    slot: Slot,
    item: Option<Seq<bool>>,
    root: Hash256,
) -> Result<bool, Error> {
    if slot.0 < store.lowest_permissible_slot.0 {
        Err(Error::SlotTooLow { slot, lowest_permissible_slot: store.lowest_permissible_slot })
    } else {
        Ok(ring_known_subset(store.buckets, slot, item, root))
    }
}

/// Stores the roots of objects for some number of `Slots`, so we can determine if
/// these have previously been seen on the network.
pub struct ObservedAggregates<T: Consts + AsReference> {
    lowest_permissible_slot: Slot,
    sets: Vec<SlotHashSet>,
    _phantom: PhantomData<T>,
}

impl<T: Consts + AsReference> View for ObservedAggregates<T> {
    type V = StoreView;

    closed spec fn view(&self) -> StoreView {
        StoreView { lowest_permissible_slot: self.lowest_permissible_slot, buckets: self.buckets() }
    }
}

/// The stores as the contracts see them.
spec fn sets_view(sets: Seq<SlotHashSet>) -> Seq<BucketView> {
    sets.map_values(
        |set: SlotHashSet|
            BucketView { slot: set.slot, initial_capacity: set.initial_capacity, entries: set@ },
    )
}

impl<T: Consts + AsReference> ObservedAggregates<T> {
    /// The lowest slot whose aggregates the store still admits.
    spec fn floor(&self) -> Slot {
        self.lowest_permissible_slot
    }

    /// The stores of the slots as the contracts see them.
    spec fn buckets(&self) -> Seq<BucketView> {
        sets_view(self.sets@)
    }

    /// The store's invariant: each slot's store is in order and admits as many
    /// identities as the kind allows, and the buckets are valid.
    pub closed spec fn wf(&self) -> bool {
        &&& forall|i: int|
            0 <= i < self.sets.len() ==> (#[trigger] self.sets[i]).wf() && self.sets[i].max_capacity
                == T::spec_max_per_slot_capacity()
        &&& buckets_valid(
            self.buckets(),
            self.lowest_permissible_slot,
            spec_max_capacity::<T>(),
            T::spec_max_per_slot_capacity(),
        )
    }

    /// The invariant as it shows in the view: at all times the buckets are at
    /// most the capacity, each is for a slot of its own that is not below the
    /// lowest permissible slot, and none holds more identities than allowed.
    pub proof fn lemma_wf_valid(&self)
        requires
            self.wf(),
        ensures
            store_valid(self@, spec_limits::<T>()),
    {
        T::lemma_max_slot_capacity_fits();
    }
}

impl<T: Consts + AsReference> Default for ObservedAggregates<T> {
    /// An empty store that admits every slot.
    fn default() -> (store: Self)
        ensures
            store.wf(),
            store@ == (StoreView {
                lowest_permissible_slot: Slot(0),
                buckets: Seq::<BucketView>::empty(),
            }),
    {
        let store = Self {
            lowest_permissible_slot: Slot::new(0),
            sets: Vec::new(),
            _phantom: PhantomData,
        };
        assert(store.buckets() =~= Seq::<BucketView>::empty());
        store
    }
}

impl<T> ObservedAggregates<T> where T: Consts + AsReference, for <'a>T::Reference<'a>: SubsetItem {
    /// The maximum number of slots that items are stored for.
    pub fn max_capacity(&self) -> (capacity: u64)
        ensures
            capacity == spec_max_capacity::<T>(),
            capacity >= 2,
    {
        // We add `2` in order to account for one slot either side of the range due to
        // `MAXIMUM_GOSSIP_CLOCK_DISPARITY`.
        (T::max_slot_capacity() + 2) as u64
    }

    /// The lowest slot whose aggregates the store still admits.
    pub fn lowest_permissible_slot(&self) -> (slot: Slot)
        ensures
            slot == self@.lowest_permissible_slot,
    {
        self.lowest_permissible_slot
    }

    /// Removes any items with a slot lower than `current_slot - SLOTS_RETAINED` and
    /// bars any future item with such a slot.
    pub fn prune(&mut self, current_slot: Slot)
        requires
            old(self).wf(),
        ensures
            final(self).wf(),
            final(self)@ == after_prune(old(self)@, spec_limits::<T>(), current_slot),
    {
        let lowest_permissible_slot = current_slot.saturating_sub(self.max_capacity() - 1);
        let ghost before = self.sets@;
        let mut i: usize = 0;
        let ghost mut done: int = 0;
        while i < self.sets.len()
            invariant
                0 <= done <= before.len(),
                i <= self.sets.len(),
                self.sets.len() - i == before.len() - done,
                self.sets@.take(i as int) == sets_filter(
                    before.take(done),
                    lowest_permissible_slot,
                ),
                self.sets@.skip(i as int) == before.skip(done),
                self.lowest_permissible_slot == old(self).lowest_permissible_slot,
            decreases self.sets.len() - i,
        {
            assert(self.sets@[i as int] == self.sets@.skip(i as int)[0]);
            assert(before.take(done + 1) =~= before.take(done).push(before[done]));
            proof {
                before.take(done).lemma_filter_push(
                    before[done],
                    |set: SlotHashSet| set.slot.0 >= lowest_permissible_slot.0,
                );
            }
            if self.sets[i].slot.as_u64() >= lowest_permissible_slot.as_u64() {
                assert(self.sets@.take(i as int + 1) =~= self.sets@.take(i as int).push(
                    self.sets@[i as int],
                ));
                assert(self.sets@.skip(i as int + 1) =~= self.sets@.skip(i as int).skip(1));
                assert(before.skip(done + 1) =~= before.skip(done).skip(1));
                i += 1;
            } else {
                let ghost sets_before = self.sets@;
                self.sets.remove(i);
                assert(self.sets@.take(i as int) =~= sets_before.take(i as int));
                assert(self.sets@.skip(i as int) =~= sets_before.skip(i as int).skip(1));
                assert(before.skip(done + 1) =~= before.skip(done).skip(1));
            }
            proof {
                done = done + 1;
            }
        }
        self.lowest_permissible_slot = lowest_permissible_slot;
        proof {
            assert(self.sets@.take(i as int) =~= self.sets@);
            assert(before.take(done) =~= before);
            lemma_sets_filter_view(before, lowest_permissible_slot);
            lemma_pruned_valid(
                old(self).buckets(),
                old(self).lowest_permissible_slot,
                lowest_permissible_slot,
                spec_max_capacity::<T>(),
                T::spec_max_per_slot_capacity(),
            );
            assert forall|k: int| 0 <= k < self.sets.len() implies (#[trigger] self.sets[k]).wf()
                && self.sets[k].max_capacity == T::spec_max_per_slot_capacity() by {
                before.lemma_filter_contains_rev(
                    |set: SlotHashSet| set.slot.0 >= lowest_permissible_slot.0,
                    self.sets[k],
                );
                let j = choose|j: int| 0 <= j < before.len() && before[j] == self.sets[k];
                assert(old(self).sets[j].wf());
            }
        }
    }

    /// The index of the set for `slot`, if there is one.
    fn find_set_index(&self, slot: Slot) -> (found: Option<usize>)
        ensures
            match found {
                Some(i) => i < self.buckets().len() && self.buckets()[i as int].slot == slot,
                None => !has_slot(self.buckets(), slot),
            },
    {
        let mut i: usize = 0;
        while i < self.sets.len()
            invariant
                i <= self.sets.len(),
                forall|j: int| 0 <= j < i ==> (#[trigger] self.buckets()[j]).slot != slot,
            decreases self.sets.len() - i,
        {
            if self.sets[i].slot.as_u64() == slot.as_u64() {
                return Some(i);
            }
            i += 1;
        }
        None
    }

    /// The index of the set with the lowest slot.
    fn min_slot_index(&self) -> (index: usize)
        requires
            self.sets.len() > 0,
        ensures
            is_min_position(self.buckets(), index as int),
    {
        let mut index: usize = 0;
        let mut i: usize = 1;
        while i < self.sets.len()
            invariant
                1 <= i <= self.sets.len(),
                index < i,
                forall|j: int| 0 <= j < i ==> self.buckets()[index as int].slot.0 <= (#[trigger] self.buckets()[j]).slot.0,
                forall|j: int| 0 <= j < index ==> self.buckets()[index as int].slot.0 < (#[trigger] self.buckets()[j]).slot.0,
            decreases self.sets.len() - i,
        {
            if self.sets[i].slot.as_u64() < self.sets[index].slot.as_u64() {
                index = i;
            }
            i += 1;
        }
        index
    }

    /// A rough initial capacity for a new set for `slot`: the mean size of the
    /// sets for earlier slots, which no longer fill up, or the kind's default
    /// where there is no such set.
    pub fn initial_capacity(&self, slot: Slot) -> (capacity: usize)
        requires
            self.wf(),
        ensures
            capacity == mean_earlier_len(self@.buckets, slot, T::DEFAULT_PER_SLOT_CAPACITY),
    {
        let mut count: u128 = 0;
        let mut sum: u128 = 0;
        let mut i: usize = 0;
        while i < self.sets.len()
            invariant
                self.wf(),
                i <= self.sets.len(),
                count == earlier_count(self.buckets().take(i as int), slot),
                sum == earlier_sum(self.buckets().take(i as int), slot),
                count <= i,
                sum <= count * usize::MAX,
            decreases self.sets.len() - i,
        {
            assert(self.buckets().take(i as int + 1).drop_last() =~= self.buckets().take(i as int));
            assert(self.sets[i as int].wf());
            // Only include slots that are less than the given slot in the average. This should
            // generally avoid including recent slots that are still "filling up".
            if self.sets[i].slot.as_u64() < slot.as_u64() {
                let len = self.sets[i].len();
                assert((count + 1) * usize::MAX == count * usize::MAX + usize::MAX) by (nonlinear_arith);
                assert(count * usize::MAX <= usize::MAX * usize::MAX) by (nonlinear_arith)
                    requires
                        count <= usize::MAX,
                ;
                assert(usize::MAX * usize::MAX + usize::MAX <= u128::MAX) by (nonlinear_arith)
                    requires
                        usize::MAX <= u64::MAX,
                ;
                count = count + 1;
                sum = sum + len as u128;
            }
            i += 1;
        }
        assert(self.buckets().take(i as int) =~= self.buckets());
        // If we are unable to determine an average, just use the default capacity.
        if count == 0 {
            T::DEFAULT_PER_SLOT_CAPACITY
        } else {
            assert(sum / count <= usize::MAX) by (nonlinear_arith)
                requires
                    count > 0,
                    sum <= count * usize::MAX,
            ;
            (sum / count) as usize
        }
    }

    /// Returns the index of `self.set` that matches `slot`.
    ///
    /// If there is no existing set for this slot one will be created. If
    /// `self.sets.len() >= Self::max_capacity()`, the set with the lowest slot will be
    /// replaced.
    fn get_set_index(&mut self, slot: Slot) -> (index: Result<usize, Error>)
        requires
            old(self).wf(),
        ensures
            final(self).wf(),
            final(self).floor() == observed_floor(
                old(self).floor(),
                spec_max_capacity::<T>(),
                slot,
            ),
            match index {
                Ok(i) => {
                    &&& slot.0 >= old(self).floor().0
                    &&& final(self).buckets() == routed(
                        old(self).buckets(),
                        old(self).floor(),
                        spec_max_capacity::<T>(),
                        T::DEFAULT_PER_SLOT_CAPACITY,
                        slot,
                    )
                    &&& i == slot_position(final(self).buckets(), slot)
                    &&& i < final(self).buckets().len()
                    &&& final(self).buckets()[i as int].slot == slot
                },
                Err(e) => {
                    &&& slot.0 < old(self).floor().0
                    &&& e == Error::SlotTooLow { slot, lowest_permissible_slot: old(self).floor() }
                    &&& final(self).buckets() == old(self).buckets()
                },
            },
    {
        let lowest_permissible_slot = self.lowest_permissible_slot;

        if slot.as_u64() < lowest_permissible_slot.as_u64() {
            return Err(Error::SlotTooLow { slot, lowest_permissible_slot });
        }
        let capacity = self.max_capacity();

        // Prune the pool if this item indicates that the current slot has advanced.
        if slot.as_u64() - lowest_permissible_slot.as_u64() >= capacity {
            self.prune(slot);
        } else {
            proof {
                lemma_pruned_all(self.buckets(), lowest_permissible_slot);
            }
        }
        let ghost kept = self.buckets();
        assert(kept == pruned(
            old(self).buckets(),
            routed_floor(old(self).floor(), spec_max_capacity::<T>(), slot),
        ));

        if let Some(index) = self.find_set_index(slot) {
            proof {
                lemma_slot_position(self.buckets(), slot, index as int);
            }
            return Ok(index);
        }
        // To avoid re-allocations, try and determine a rough initial capacity for the new set
        // by obtaining the mean size of all items in earlier epoch.

        let initial_capacity = self.initial_capacity(slot);
        let set = SlotHashSet::new(slot, initial_capacity, T::max_per_slot_capacity());
        proof {
            set.lemma_wf_bounded();
        }

        if (self.sets.len() as u64) < capacity || self.sets.is_empty() {
            let index = self.sets.len();
            self.sets.push(set);
            proof {
                assert(self.buckets() =~= kept.push(empty_bucket(slot, initial_capacity)));
                lemma_slot_position(self.buckets(), slot, index as int);
            }
            return Ok(index);
        }
        let index = self.min_slot_index();
        proof {
            lemma_min_position(kept, index as int);
        }
        self.sets[index] = set;
        proof {
            assert(self.buckets() =~= kept.update(index as int, empty_bucket(slot, initial_capacity)));
            lemma_slot_position(self.buckets(), slot, index as int);
        }
        Ok(index)
    }

    /// Store `item` in `self` keyed at `root`.
    ///
    /// `root` must equal `item.root::<SubsetItem>()`.
    pub fn observe_item(&mut self, item: T::Reference<'_>, root_opt: Option<Hash256>) -> (outcome:
        Result<ObserveOutcome, Error>)
        requires
            old(self).wf(),
        ensures
            final(self).wf(),
            final(self)@ == after_observe(
                old(self)@,
                spec_limits::<T>(),
                item.slot_view(),
                item.item_view(),
                root_or(root_opt, item.root_view()),
            ),
            outcome == observe_verdict(
                old(self)@,
                spec_limits::<T>(),
                item.slot_view(),
                item.item_view(),
                root_or(root_opt, item.root_view()),
            ),
    {
        let index = match self.get_set_index(item.get_slot()) {
            Ok(index) => index,
            Err(e) => {
                return Err(e);
            },
        };
        let root = match root_opt {
            Some(root) => root,
            None => match item.root() {
                Ok(root) => root,
                Err(e) => {
                    return Err(e);
                },
            },
        };
        if index >= self.sets.len() {
            return Err(Error::InvalidSetIndex(index));
        }
        let ghost routed = self.buckets();
        let ghost sets_before = self.sets@;
        let outcome = self.sets[index].observe_item(item, root);
        proof {
            let after = self.sets@[index as int];
            assert(self.sets@ =~= sets_before.update(index as int, after));
            after.lemma_wf_bounded();
            assert(self.buckets() =~= routed.update(
                index as int,
                BucketView { entries: after@, ..routed[index as int] },
            ));
            assert forall|i: int| 0 <= i < self.buckets().len() implies (#[trigger] self.buckets()[i]).slot
                == routed[i].slot by {}
        }
        outcome
    }

    /// Check if `item` is a non-strict subset of any of the already observed aggregates for
    /// the given root and slot.
    ///
    /// `root` must equal `item.root::<SubsetItem>()`.
    pub fn is_known_subset(&self, item: T::Reference<'_>, root: Hash256) -> (known: Result<
        bool,
        Error,
    >)
        requires
            self.wf(),
        ensures
            known == known_subset_verdict(self@, item.slot_view(), item.item_view(), root),
    {
        let slot = item.get_slot();
        let lowest_permissible_slot = self.lowest_permissible_slot;
        if slot.as_u64() < lowest_permissible_slot.as_u64() {
            return Err(Error::SlotTooLow { slot, lowest_permissible_slot });
        }
        match self.find_set_index(slot) {
            Some(index) => {
                proof {
                    lemma_slot_position(self.buckets(), slot, index as int);
                }
                self.sets[index].is_known_subset(item, root)
            },
            None => Ok(false),
        }
    }

    /// The number of slots for which the store holds a set.
    pub fn num_sets(&self) -> (n: usize)
        ensures
            n == self@.buckets.len(),
    {
        self.sets.len()
    }

    /// The slot of the set at position `index`, if there is one.
    pub fn set_slot(&self, index: usize) -> (slot: Option<Slot>)
        ensures
            slot == if index < self@.buckets.len() {
                Some(self@.buckets[index as int].slot)
            } else {
                None
            },
    {
        if index < self.sets.len() {
            Some(self.sets[index].slot)
        } else {
            None
        }
    }

    /// The number of identities for which room was set aside in the set at
    /// position `index`, if there is one.
    pub fn set_initial_capacity(&self, index: usize) -> (capacity: Option<usize>)
        ensures
            capacity == if index < self@.buckets.len() {
                Some(self@.buckets[index as int].initial_capacity)
            } else {
                None
            },
    {
        if index < self.sets.len() {
            Some(self.sets[index].initial_capacity)
        } else {
            None
        }
    }

    /// The number of identities in the set at position `index`, if there is one.
    pub fn set_len(&self, index: usize) -> (len: Option<usize>)
        requires
            self.wf(),
        ensures
            len == if index < self@.buckets.len() {
                Some(self@.buckets[index as int].entries.dom().len() as usize)
            } else {
                None
            },
    {
        if index < self.sets.len() {
            assert(self.sets[index as int].wf());
            Some(self.sets[index].len())
        } else {
            None
        }
    }
}

/// The first position with the smallest slot is unique.
proof fn lemma_min_position(buckets: Seq<BucketView>, i: int)
    requires
        is_min_position(buckets, i),
    ensures
        min_position(buckets) == i,
{
    let k = min_position(buckets);
    if k < i {
        assert(buckets[i].slot.0 < buckets[k].slot.0);
        assert(buckets[k].slot.0 <= buckets[i].slot.0);
    } else if i < k {
        assert(buckets[k].slot.0 < buckets[i].slot.0);
        assert(buckets[i].slot.0 <= buckets[k].slot.0);
    }
}

/// The stores that stay when every slot below `floor` is discarded.
spec fn sets_filter(sets: Seq<SlotHashSet>, floor: Slot) -> Seq<SlotHashSet> {
    sets.filter(|set: SlotHashSet| set.slot.0 >= floor.0)
}

/// Discarding stores and then viewing them is viewing them and then discarding
/// buckets.
proof fn lemma_sets_filter_view(sets: Seq<SlotHashSet>, floor: Slot)
    ensures
        sets_view(sets_filter(sets, floor)) == pruned(sets_view(sets), floor),
    decreases sets.len(),
{
    reveal(Seq::filter);
    if sets.len() == 0 {
        assert(sets_view(sets_filter(sets, floor)) =~= pruned(sets_view(sets), floor));
    } else {
        lemma_sets_filter_view(sets.drop_last(), floor);
        assert(sets_view(sets).drop_last() =~= sets_view(sets.drop_last()));
        assert(sets_view(sets_filter(sets, floor)) =~= pruned(sets_view(sets), floor));
    }
}

} // verus!
