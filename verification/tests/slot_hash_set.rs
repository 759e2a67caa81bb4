use observed_aggregates::attestation::{
    Attestation, AttestationBase, AttestationData, AttestationElectra, AttestationRef, Checkpoint,
    OutOfBounds,
};
use observed_aggregates::bitfield::Bitfield;
use observed_aggregates::eth_spec::{EthSpec, GnosisEthSpec, MainnetEthSpec, MinimalEthSpec};
use observed_aggregates::hash256::{hash_eq, Hash256};
use observed_aggregates::merkle::{hash_container, u64_leaf};
use observed_aggregates::observed_aggregates::{
    AsReference, Consts, Error, ObserveOutcome, ObservedAttestationKey, ObservedSyncContributions,
    SlotHashSet, SubsetItem,
};
use observed_aggregates::slot::Slot;
use observed_aggregates::sync_committee_contribution::{
    SyncCommitteeContribution, SyncCommitteeData,
};
use tree_hash::TreeHash;

type E = MainnetEthSpec;

fn root_of(n: u64) -> Hash256 {
    let mut hash = [0u8; 32];
    hash[24..].copy_from_slice(&n.to_be_bytes());
    hash
}

fn bits_of(pattern: u64, len: usize) -> Bitfield {
    Bitfield::from_bits((0..len).map(|i| i < 64 && (pattern >> i) & 1 == 1).collect())
}

fn contribution(slot: u64, block_root: u64, bits: u64) -> SyncCommitteeContribution<E> {
    SyncCommitteeContribution::new(Slot::new(slot), root_of(block_root), 0, bits_of(bits, 8))
}

fn data(slot: u64) -> AttestationData {
    AttestationData {
        slot: Slot::new(slot),
        index: 9,
        beacon_block_root: root_of(77),
        source: Checkpoint { epoch: 3, root: root_of(5) },
        target: Checkpoint { epoch: 4, root: root_of(6) },
    }
}

#[test]
fn new_set_is_empty() {
    let set = SlotHashSet::new(Slot::new(3), 16, 4);
    assert_eq!(set.len(), 0);
    let c = contribution(3, 1, 0b1);
    assert_eq!(set.is_known_subset(&c, root_of(1)), Ok(false));
}

#[test]
fn set_refuses_another_slot() {
    let mut set = SlotHashSet::new(Slot::new(3), 16, 4);
    let c = contribution(4, 1, 0b1);
    let wrong = Error::IncorrectSlot { expected: Slot::new(3), attestation: Slot::new(4) };
    assert_eq!(set.observe_item(&c, root_of(1)), Err(wrong));
    assert_eq!(set.is_known_subset(&c, root_of(1)), Err(wrong));
    assert_eq!(set.len(), 0);
}

#[test]
fn set_replaces_the_first_subset_it_finds() {
    let mut set = SlotHashSet::new(Slot::new(0), 0, 10);
    let root = root_of(1);
    assert_eq!(set.observe_item(&contribution(0, 1, 0b0001), root), Ok(ObserveOutcome::New));
    assert_eq!(set.observe_item(&contribution(0, 1, 0b0010), root), Ok(ObserveOutcome::New));
    assert_eq!(set.observe_item(&contribution(0, 1, 0b0100), root), Ok(ObserveOutcome::New));
    assert_eq!(set.len(), 1);
    // A superset of the second and third takes the place of the second alone.
    assert_eq!(set.observe_item(&contribution(0, 1, 0b0110), root), Ok(ObserveOutcome::New));
    assert_eq!(set.is_known_subset(&contribution(0, 1, 0b0110), root), Ok(true));
    assert_eq!(set.is_known_subset(&contribution(0, 1, 0b0100), root), Ok(true));
    assert_eq!(set.is_known_subset(&contribution(0, 1, 0b0010), root), Ok(true));
    assert_eq!(set.is_known_subset(&contribution(0, 1, 0b0001), root), Ok(true));
    assert_eq!(set.is_known_subset(&contribution(0, 1, 0b0011), root), Ok(false));
    assert_eq!(set.is_known_subset(&contribution(0, 1, 0b0111), root), Ok(false));
    // An aggregate without set bits is a subset of whatever is stored.
    assert_eq!(set.observe_item(&contribution(0, 1, 0), root), Ok(ObserveOutcome::Subset));
    // Under another identity the same bits are unknown.
    assert_eq!(set.is_known_subset(&contribution(0, 1, 0b0001), root_of(2)), Ok(false));
    assert_eq!(set.is_known_subset(&contribution(0, 1, 0), root_of(2)), Ok(false));
}

#[test]
fn set_stops_at_the_first_related_bits() {
    let mut set = SlotHashSet::new(Slot::new(0), 0, 10);
    let root = root_of(1);
    for bits in [0b0001u64, 0b0010, 0b0100] {
        assert_eq!(set.observe_item(&contribution(0, 1, bits), root), Ok(ObserveOutcome::New));
    }
    // Stored: 0001, 0010, 0100. The superset of all three replaces the first.
    assert_eq!(set.observe_item(&contribution(0, 1, 0b0111), root), Ok(ObserveOutcome::New));
    // Stored: 0111, 0010, 0100. A superset of the second that the first covers is a subset.
    assert_eq!(set.observe_item(&contribution(0, 1, 0b0011), root), Ok(ObserveOutcome::Subset));
    // 1010 is no subset of 0111 and a superset of 0010: it takes the second place.
    assert_eq!(set.observe_item(&contribution(0, 1, 0b1010), root), Ok(ObserveOutcome::New));
    assert_eq!(set.is_known_subset(&contribution(0, 1, 0b1000), root), Ok(true));
    assert_eq!(set.is_known_subset(&contribution(0, 1, 0b1100), root), Ok(false));
    assert_eq!(set.len(), 1);
}

#[test]
fn full_set_refuses_new_identities_and_still_answers() {
    let max = 512;
    let mut set = SlotHashSet::new(Slot::new(0), 64, max);
    for i in 0..max as u64 {
        assert_eq!(set.observe_item(&contribution(0, i, 0b11), root_of(i)), Ok(ObserveOutcome::New));
    }
    assert_eq!(set.len(), max);
    let full = Error::ReachedMaxObservationsPerSlot(max);
    assert_eq!(set.observe_item(&contribution(0, 9999, 0b11), root_of(9999)), Err(full));
    assert_eq!(set.len(), max);
    for i in [0u64, 1, 255, 511] {
        assert_eq!(set.is_known_subset(&contribution(0, i, 0b01), root_of(i)), Ok(true));
        assert_eq!(set.observe_item(&contribution(0, i, 0b10), root_of(i)), Ok(ObserveOutcome::Subset));
    }
    // A known identity can still grow where its new bits cover stored bits,
    assert_eq!(set.observe_item(&contribution(0, 3, 0b111), root_of(3)), Ok(ObserveOutcome::New));
    assert_eq!(set.is_known_subset(&contribution(0, 3, 0b100), root_of(3)), Ok(true));
    // but bits that neither cover nor are covered need room that is not there.
    assert_eq!(set.observe_item(&contribution(0, 3, 0b1000), root_of(3)), Err(full));
    assert_eq!(set.is_known_subset(&contribution(0, 3, 0b1000), root_of(3)), Ok(false));
}

#[test]
fn store_with_full_bucket_refuses_new_identities() {
    let mut store = ObservedSyncContributions::<E>::default();
    let max = <SyncCommitteeContribution<E> as Consts>::max_per_slot_capacity();
    assert_eq!(max, 512);
    let items: Vec<_> = (0..max as u64).map(|i| contribution(0, i, 0b11)).collect();
    for item in &items {
        assert_eq!(store.observe_item(item.as_reference(), None), Ok(ObserveOutcome::New));
    }
    assert_eq!(store.set_len(0), Some(512));
    let more = contribution(0, 100_000, 0b11);
    assert_eq!(
        store.observe_item(more.as_reference(), None),
        Err(Error::ReachedMaxObservationsPerSlot(512))
    );
    for item in &items[..4] {
        let root = item.as_reference().root().unwrap();
        assert_eq!(store.is_known_subset(item.as_reference(), root), Ok(true));
    }
    // The next slot has room again.
    let next = contribution(1, 100_000, 0b11);
    assert_eq!(store.observe_item(next.as_reference(), None), Ok(ObserveOutcome::New));
}

#[test]
fn set_with_no_room_refuses_everything() {
    let mut set = SlotHashSet::new(Slot::new(0), 0, 0);
    assert_eq!(
        set.observe_item(&contribution(0, 1, 0b1), root_of(1)),
        Err(Error::ReachedMaxObservationsPerSlot(0))
    );
}

#[test]
fn bits_longer_than_a_slot_cannot_be_extracted() {
    let long = AttestationBase::<MinimalEthSpec>::new(Bitfield::with_capacity(8193), data(0));
    assert_eq!(
        long.extend_aggregation_bits().unwrap_err(),
        OutOfBounds { len: 8193, max_len: 8192 }
    );
    let long = Attestation::Base(long);
    let item = long.as_reference();
    assert_eq!(item.get_item().unwrap_err(), Error::GetItemError);
    let stored = Bitfield::with_capacity(8193);
    assert!(!item.is_subset(&stored));
    assert!(!item.is_superset(&stored));
    assert!(!item.is_superset(&Bitfield::with_capacity(0)));

    let mut set = SlotHashSet::new(Slot::new(0), 0, 1);
    let root = item.root().unwrap();
    assert_eq!(set.is_known_subset(long.as_reference(), root), Ok(false));
    assert_eq!(set.observe_item(long.as_reference(), root), Err(Error::GetItemError));
    assert_eq!(set.len(), 0);
    // Once the set is full, that is what is reported first.
    let fits = Attestation::Base(AttestationBase::<MinimalEthSpec>::new(bits_of(1, 8192), data(0)));
    assert_eq!(set.observe_item(fits.as_reference(), root), Ok(ObserveOutcome::New));
    assert_eq!(
        set.observe_item(long.as_reference(), root),
        Err(Error::ReachedMaxObservationsPerSlot(1))
    );
}

#[test]
fn extended_bits_are_the_same_bits() {
    let base = AttestationBase::<E>::new(bits_of(0b1010_0101, 70), data(0));
    let extended = base.extend_aggregation_bits().unwrap();
    assert_eq!(extended.len(), 70);
    for i in 0..70 {
        assert_eq!(extended.get(i), base.aggregation_bits.get(i));
    }
    assert_eq!(extended.get(0), Some(true));
    assert_eq!(extended.get(1), Some(false));
    assert_eq!(extended.get(70), None);
}

#[test]
fn item_is_subset_and_superset_of_its_own_bits() {
    let c = contribution(0, 1, 0b1011);
    let item = (&c).get_item().unwrap();
    assert!((&c).is_subset(&item));
    assert!((&c).is_superset(&item));
    let a = Attestation::Base(AttestationBase::<E>::new(bits_of(0b1011, 12), data(0)));
    let item = a.as_reference().get_item().unwrap();
    assert!(a.as_reference().is_subset(&item));
    assert!(a.as_reference().is_superset(&item));
}

#[test]
fn base_compares_as_the_equivalent_electra() {
    let mut committee_bits = Bitfield::with_capacity(64);
    assert!(committee_bits.set(9, true));
    assert!(committee_bits.set(20, true));
    let base = Attestation::Base(AttestationBase::<E>::new(bits_of(0b0110, 12), data(5)));
    let electra = Attestation::Electra(AttestationElectra::<E>::new(
        bits_of(0b0110, 12),
        data(5),
        committee_bits,
    ));
    assert_eq!(base.as_reference().committee_index(), Some(9));
    assert_eq!(electra.as_reference().committee_index(), Some(9));
    assert_eq!(base.as_reference().root(), electra.as_reference().root());
    assert_eq!(base.as_reference().get_slot(), Slot::new(5));
    assert_eq!(electra.as_reference().get_slot(), Slot::new(5));
    for stored in [0b0110u64, 0b0111, 0b0010, 0b1001, 0] {
        for len in [2usize, 12, 20] {
            let stored = bits_of(stored, len);
            assert_eq!(
                base.as_reference().is_subset(&stored),
                electra.as_reference().is_subset(&stored)
            );
            assert_eq!(
                base.as_reference().is_superset(&stored),
                electra.as_reference().is_superset(&stored)
            );
        }
    }
    let mut set = SlotHashSet::new(Slot::new(5), 0, 4);
    let root = base.as_reference().root().unwrap();
    assert_eq!(set.observe_item(base.as_reference(), root), Ok(ObserveOutcome::New));
    assert_eq!(set.observe_item(electra.as_reference(), root), Ok(ObserveOutcome::Subset));
}

#[test]
fn attestation_ref_reads_the_attestation() {
    let base = AttestationBase::<E>::new(bits_of(1, 4), data(8));
    let r = AttestationRef::Base(&base);
    assert_eq!(r.data().slot, Slot::new(8));
    assert_eq!(r.data().index, 9);
    assert_eq!(r.committee_index(), Some(9));
    let electra = AttestationElectra::<E>::new(bits_of(1, 4), data(8), bits_of(0b100, 64));
    assert_eq!(electra.committee_index(), Some(2));
    assert_eq!(AttestationRef::Electra(&electra).committee_index(), Some(2));
    assert_eq!(AttestationRef::Electra(&electra).data().target.epoch, 4);
}

#[test]
fn bitfield_subset_agrees_with_ssz_bitlists() {
    type List16 = ssz_types::BitList<ssz_types::typenum::U16>;
    let patterns = [0u64, 0b1, 0b10, 0b11, 0b1010, 0b1111, 0b1_0000_0000, 0b1_0000_0011, 0xffff];
    let lens = [0usize, 3, 8, 9, 16];
    for &pa in &patterns {
        for &la in &lens {
            for &pb in &patterns {
                for &lb in &lens {
                    let a = bits_of(pa, la);
                    let b = bits_of(pb, lb);
                    let mut sa = List16::with_capacity(la).unwrap();
                    let mut sb = List16::with_capacity(lb).unwrap();
                    for i in 0..la {
                        sa.set(i, a.get(i).unwrap()).unwrap();
                    }
                    for i in 0..lb {
                        sb.set(i, b.get(i).unwrap()).unwrap();
                    }
                    assert_eq!(a.is_subset(&b), sa.is_subset(&sb));
                }
            }
        }
    }
}

#[test]
fn bitfield_basics() {
    let mut bits = Bitfield::with_capacity(4);
    assert_eq!(bits.len(), 4);
    assert_eq!(bits.first_set_bit(), None);
    assert!(bits.set(3, true));
    assert!(bits.set(1, true));
    assert!(!bits.set(4, true));
    assert_eq!(bits.get(0), Some(false));
    assert_eq!(bits.get(1), Some(true));
    assert_eq!(bits.get(3), Some(true));
    assert_eq!(bits.get(4), None);
    assert_eq!(bits.first_set_bit(), Some(1));
    assert!(bits.set(1, false));
    assert_eq!(bits.first_set_bit(), Some(3));
    let copy = bits.clone();
    assert!(copy.is_subset(&bits) && bits.is_subset(&copy));
    assert_eq!(copy.len(), 4);
    assert!(Bitfield::with_capacity(0).is_subset(&bits));
    assert!(Bitfield::with_capacity(9).is_subset(&Bitfield::with_capacity(0)));
    assert!(!bits.is_subset(&Bitfield::with_capacity(3)));
    assert!(!bits.is_subset(&Bitfield::with_capacity(9)));
    let from = Bitfield::from_bits(vec![false, false, false, true, false]);
    assert!(bits.is_subset(&from) && from.is_subset(&bits));
}

#[test]
fn hashes_compare_bytewise() {
    assert!(hash_eq(&root_of(5), &root_of(5)));
    assert!(!hash_eq(&root_of(5), &root_of(6)));
    let mut other = root_of(5);
    other[0] = 1;
    assert!(!hash_eq(&root_of(5), &other));
}

fn merkle(leaves: &[[u8; 32]]) -> Hash256 {
    let mut hasher = tree_hash::MerkleHasher::with_leaves(leaves.len());
    for leaf in leaves {
        hasher.write(leaf).unwrap();
    }
    hasher.finish().unwrap().0
}

#[test]
fn leaf_of_a_number() {
    assert_eq!(u64_leaf(0), [0u8; 32]);
    let mut expected = [0u8; 32];
    expected[0] = 0x08;
    expected[1] = 0x07;
    expected[2] = 0x06;
    expected[3] = 0x05;
    expected[4] = 0x04;
    expected[5] = 0x03;
    expected[6] = 0x02;
    expected[7] = 0x01;
    assert_eq!(u64_leaf(0x0102030405060708), expected);
    for n in [1u64, 255, 256, 1 << 32, u64::MAX] {
        assert_eq!(u64_leaf(n), n.tree_hash_root().0);
    }
}

#[test]
fn container_roots_are_merkle_roots_of_the_fields() {
    let a = root_of(1);
    let b = root_of(2);
    let c = root_of(3);
    assert_eq!(hash_container(&vec![a, b]), merkle(&[a, b]));
    assert_eq!(hash_container(&vec![a, b]), ethereum_hashing::hash32_concat(&a, &b));
    assert_eq!(hash_container(&vec![a, b, c]), merkle(&[a, b, c]));
    assert_eq!(hash_container(&vec![a, b, c, a, b]), merkle(&[a, b, c, a, b]));
    assert_ne!(hash_container(&vec![a, b]), hash_container(&vec![b, a]));
    assert_eq!(hash_container(&vec![a]), a);
    assert_eq!(hash_container(&vec![]), [0u8; 32]);
}

#[test]
fn roots_of_the_keys() {
    let checkpoint = Checkpoint { epoch: 3, root: root_of(5) };
    let checkpoint_root = merkle(&[3u64.tree_hash_root().0, root_of(5)]);
    assert_eq!(checkpoint.tree_hash_root(), checkpoint_root);

    let d = data(12);
    let data_root = merkle(&[
        12u64.tree_hash_root().0,
        9u64.tree_hash_root().0,
        root_of(77),
        checkpoint_root,
        merkle(&[4u64.tree_hash_root().0, root_of(6)]),
    ]);
    assert_eq!(d.tree_hash_root(), data_root);

    let key = ObservedAttestationKey { committee_index: 40, attestation_data: d };
    let key_root = merkle(&[40u64.tree_hash_root().0, data_root]);
    assert_eq!(key.tree_hash_root(), key_root);
    assert_ne!(key_root, data_root);

    let mut committee_bits = Bitfield::with_capacity(64);
    assert!(committee_bits.set(40, true));
    let electra = Attestation::Electra(AttestationElectra::<E>::new(
        bits_of(1, 4),
        d,
        committee_bits,
    ));
    assert_eq!(electra.as_reference().root(), Ok(key_root));
    let base = Attestation::Base(AttestationBase::<E>::new(bits_of(1, 4), d));
    assert_eq!(
        base.as_reference().root(),
        Ok(merkle(&[9u64.tree_hash_root().0, data_root]))
    );

    let sync = SyncCommitteeData { root: root_of(8), slot: Slot::new(21), subcommittee_index: 2 };
    let sync_root = merkle(&[root_of(8), 21u64.tree_hash_root().0, 2u64.tree_hash_root().0]);
    assert_eq!(sync.tree_hash_root(), sync_root);
    let c = SyncCommitteeContribution::<E>::new(Slot::new(21), root_of(8), 2, bits_of(1, 128));
    assert_eq!((&c).root(), Ok(sync_root));
    assert_eq!((&c).get_slot(), Slot::new(21));
}

#[test]
fn capacities_of_the_kinds() {
    assert_eq!(<Attestation<E> as Consts>::DEFAULT_PER_SLOT_CAPACITY, 128);
    assert_eq!(<Attestation<E> as Consts>::max_slot_capacity(), 64);
    assert_eq!(<Attestation<MinimalEthSpec> as Consts>::max_slot_capacity(), 16);
    assert_eq!(<Attestation<GnosisEthSpec> as Consts>::max_slot_capacity(), 32);
    assert_eq!(<Attestation<E> as Consts>::max_per_slot_capacity(), 1 << 19);
    assert_eq!(<SyncCommitteeContribution<E> as Consts>::DEFAULT_PER_SLOT_CAPACITY, 64);
    assert_eq!(<SyncCommitteeContribution<E> as Consts>::max_slot_capacity(), 1);
    assert_eq!(<SyncCommitteeContribution<E> as Consts>::max_per_slot_capacity(), 512);
    assert_eq!(<SyncCommitteeContribution<MinimalEthSpec> as Consts>::max_per_slot_capacity(), 32);
    assert_eq!(MainnetEthSpec::slots_per_epoch(), 32);
    assert_eq!(MainnetEthSpec::sync_subcommittee_size(), 128);
    assert_eq!(MainnetEthSpec::max_validators_per_slot(), 131072);
    assert_eq!(MinimalEthSpec::slots_per_epoch(), 8);
    assert_eq!(GnosisEthSpec::slots_per_epoch(), 16);
    assert_eq!(MainnetEthSpec::data_column_subnet_count(), 32);
    assert_eq!(MainnetEthSpec::data_columns_per_subnet(), 4);
}

#[test]
fn slots() {
    assert_eq!(Slot::new(7).as_u64(), 7);
    assert_eq!(Slot::new(7).saturating_sub(2), Slot::new(5));
    assert_eq!(Slot::new(7).saturating_sub(7), Slot::new(0));
    assert_eq!(Slot::new(7).saturating_sub(8), Slot::new(0));
    assert!(Slot::new(1) < Slot::new(2));
}

#[test]
fn set_finds_identities_that_share_their_first_bytes() {
    let mut set = SlotHashSet::new(Slot::new(0), 0, 70_000);
    // `root_of` leaves the first eight bytes zero: all of these share them.
    for i in 0..300u64 {
        assert_eq!(set.observe_item(&contribution(0, i, 0b11), root_of(i)), Ok(ObserveOutcome::New));
    }
    // These differ in the first eight bytes.
    for i in 0..60_000u64 {
        let mut root = [0u8; 32];
        root[..8].copy_from_slice(&(i + 1).to_le_bytes());
        assert_eq!(set.observe_item(&contribution(0, i, 0b11), root), Ok(ObserveOutcome::New));
    }
    assert_eq!(set.len(), 60_300);
    for i in [0u64, 1, 150, 299] {
        assert_eq!(set.is_known_subset(&contribution(0, i, 0b01), root_of(i)), Ok(true));
    }
    assert_eq!(set.is_known_subset(&contribution(0, 0, 0b01), root_of(300)), Ok(false));
    for i in [0u64, 31_000, 59_999] {
        let mut root = [0u8; 32];
        root[..8].copy_from_slice(&(i + 1).to_le_bytes());
        assert_eq!(set.is_known_subset(&contribution(0, i, 0b10), root), Ok(true));
        assert_eq!(set.observe_item(&contribution(0, i, 0b10), root), Ok(ObserveOutcome::Subset));
        root[31] = 1;
        assert_eq!(set.is_known_subset(&contribution(0, i, 0b10), root), Ok(false));
    }
}
