use observed_aggregates::attestation::{
    Attestation, AttestationBase, AttestationData, AttestationElectra, Checkpoint,
};
use observed_aggregates::bitfield::Bitfield;
use observed_aggregates::eth_spec::MainnetEthSpec;
use observed_aggregates::hash256::Hash256;
use observed_aggregates::observed_aggregates::{
    AsReference, Error, ObserveOutcome, ObservedAggregateAttestations, ObservedSyncContributions,
    SubsetItem,
};
use observed_aggregates::slot::Slot;
use observed_aggregates::sync_committee_contribution::SyncCommitteeContribution;

type E = MainnetEthSpec;

const NUM_ELEMENTS: usize = 8;

fn from_low_u64_be(n: u64) -> Hash256 {
    let mut hash = [0u8; 32];
    hash[24..].copy_from_slice(&n.to_be_bytes());
    hash
}

fn bits_of(pattern: u64, len: usize) -> Bitfield {
    Bitfield::from_bits((0..len).map(|i| i < 64 && (pattern >> i) & 1 == 1).collect())
}

fn attestation_data(slot: Slot, beacon_block_root: u64) -> AttestationData {
    AttestationData {
        slot,
        index: 3,
        beacon_block_root: from_low_u64_be(beacon_block_root),
        source: Checkpoint { epoch: 1, root: from_low_u64_be(11) },
        target: Checkpoint { epoch: 2, root: from_low_u64_be(12) },
    }
}

fn get_attestation(slot: Slot, beacon_block_root: u64) -> Attestation<E> {
    Attestation::Base(AttestationBase::new(
        bits_of(0b1011_0110 ^ beacon_block_root, 64),
        attestation_data(slot, beacon_block_root),
    ))
}

fn get_sync_contribution(slot: Slot, beacon_block_root: u64) -> SyncCommitteeContribution<E> {
    SyncCommitteeContribution::new(
        slot,
        from_low_u64_be(beacon_block_root),
        1,
        bits_of(0b0110_1001 ^ beacon_block_root, 128),
    )
}

fn sync_single_slot_test(store: &mut ObservedSyncContributions<E>, slot: Slot) {
    let items = (0..NUM_ELEMENTS as u64)
        .map(|i| get_sync_contribution(slot, i))
        .collect::<Vec<_>>();

    for a in &items {
        assert_eq!(
            store.is_known_subset(a.as_reference(), a.as_reference().root().unwrap()),
            Ok(false),
            "should indicate an unknown attestation is unknown"
        );
        assert_eq!(
            store.observe_item(a.as_reference(), None),
            Ok(ObserveOutcome::New),
            "should observe new attestation"
        );
    }

    for a in &items {
        assert_eq!(
            store.is_known_subset(a.as_reference(), a.as_reference().root().unwrap()),
            Ok(true),
            "should indicate a known attestation is known"
        );
        assert_eq!(
            store.observe_item(a.as_reference(), Some(a.as_reference().root().unwrap())),
            Ok(ObserveOutcome::Subset),
            "should acknowledge an existing attestation"
        );
    }
}

fn attestation_single_slot_test(store: &mut ObservedAggregateAttestations<E>, slot: Slot) {
    let items = (0..NUM_ELEMENTS as u64)
        .map(|i| get_attestation(slot, i))
        .collect::<Vec<_>>();

    for a in &items {
        assert_eq!(
            store.is_known_subset(a.as_reference(), a.as_reference().root().unwrap()),
            Ok(false),
            "should indicate an unknown attestation is unknown"
        );
        assert_eq!(
            store.observe_item(a.as_reference(), None),
            Ok(ObserveOutcome::New),
            "should observe new attestation"
        );
    }

    for a in &items {
        assert_eq!(
            store.is_known_subset(a.as_reference(), a.as_reference().root().unwrap()),
            Ok(true),
            "should indicate a known attestation is known"
        );
        assert_eq!(
            store.observe_item(a.as_reference(), Some(a.as_reference().root().unwrap())),
            Ok(ObserveOutcome::Subset),
            "should acknowledge an existing attestation"
        );
    }
}

fn sync_slots(store: &ObservedSyncContributions<E>) -> Vec<Slot> {
    (0..store.num_sets()).map(|i| store.set_slot(i).unwrap()).collect()
}

fn attestation_slots(store: &ObservedAggregateAttestations<E>) -> Vec<Slot> {
    (0..store.num_sets()).map(|i| store.set_slot(i).unwrap()).collect()
}

#[test]
fn sync_single_slot() {
    let mut store = ObservedSyncContributions::<E>::default();

    sync_single_slot_test(&mut store, Slot::new(0));

    assert_eq!(store.num_sets(), 1, "should have a single set stored");
    assert_eq!(store.set_len(0), Some(NUM_ELEMENTS), "set should have NUM_ELEMENTS elements");
}

#[test]
fn attestation_single_slot() {
    let mut store = ObservedAggregateAttestations::<E>::default();

    attestation_single_slot_test(&mut store, Slot::new(0));

    assert_eq!(store.num_sets(), 1, "should have a single set stored");
    assert_eq!(store.set_len(0), Some(NUM_ELEMENTS), "set should have NUM_ELEMENTS elements");
}

#[test]
fn sync_mulitple_contiguous_slots() {
    let mut store = ObservedSyncContributions::<E>::default();
    let max_cap = store.max_capacity();
    assert_eq!(max_cap, 3);

    for i in 0..max_cap * 3 {
        let slot = Slot::new(i);

        sync_single_slot_test(&mut store, slot);

        if i < max_cap {
            assert_eq!(store.num_sets(), i as usize + 1, "should have a {} sets stored", i + 1);
        } else {
            assert_eq!(store.num_sets(), max_cap as usize, "should have max_capacity sets stored");
        }

        for index in 0..store.num_sets() {
            assert_eq!(
                store.set_len(index),
                Some(NUM_ELEMENTS),
                "each store should have NUM_ELEMENTS elements"
            )
        }

        let mut store_slots = sync_slots(&store);

        assert!(
            store_slots.len() <= store.max_capacity() as usize,
            "store size should not exceed max"
        );

        store_slots.sort_unstable();

        let expected_slots = (i.saturating_sub(max_cap - 1)..=i)
            .map(Slot::new)
            .collect::<Vec<_>>();

        assert_eq!(expected_slots, store_slots, "should have expected slots");
    }
}

#[test]
fn attestation_mulitple_contiguous_slots() {
    let mut store = ObservedAggregateAttestations::<E>::default();
    let max_cap = store.max_capacity();
    assert_eq!(max_cap, 66);

    for i in 0..max_cap * 3 {
        let slot = Slot::new(i);

        attestation_single_slot_test(&mut store, slot);

        if i < max_cap {
            assert_eq!(store.num_sets(), i as usize + 1, "should have a {} sets stored", i + 1);
        } else {
            assert_eq!(store.num_sets(), max_cap as usize, "should have max_capacity sets stored");
        }

        for index in 0..store.num_sets() {
            assert_eq!(
                store.set_len(index),
                Some(NUM_ELEMENTS),
                "each store should have NUM_ELEMENTS elements"
            )
        }

        let mut store_slots = attestation_slots(&store);

        assert!(
            store_slots.len() <= store.max_capacity() as usize,
            "store size should not exceed max"
        );

        store_slots.sort_unstable();

        let expected_slots = (i.saturating_sub(max_cap - 1)..=i)
            .map(Slot::new)
            .collect::<Vec<_>>();

        assert_eq!(expected_slots, store_slots, "should have expected slots");
    }
}

#[test]
fn sync_mulitple_non_contiguous_slots() {
    let mut store = ObservedSyncContributions::<E>::default();
    let max_cap = store.max_capacity();

    let to_skip = vec![1_u64, 2, 3, 5, 6, 29, 30, 31, 32, 64];
    let slots = (0..max_cap * 3)
        .into_iter()
        .filter(|i| !to_skip.contains(i))
        .collect::<Vec<_>>();

    for &i in &slots {
        if to_skip.contains(&i) {
            continue;
        }

        let slot = Slot::new(i);

        sync_single_slot_test(&mut store, slot);

        for index in 0..store.num_sets() {
            assert_eq!(
                store.set_len(index),
                Some(NUM_ELEMENTS),
                "each store should have NUM_ELEMENTS elements"
            )
        }

        let mut store_slots = sync_slots(&store);

        store_slots.sort_unstable();

        assert!(
            store_slots.len() <= store.max_capacity() as usize,
            "store size should not exceed max"
        );

        let lowest = store.lowest_permissible_slot().as_u64();
        let highest = slot.as_u64();
        let expected_slots = (lowest..=highest)
            .filter(|i| !to_skip.contains(i))
            .map(Slot::new)
            .collect::<Vec<_>>();

        assert_eq!(expected_slots, &store_slots[..], "should have expected slots");
    }
}

#[test]
fn attestation_mulitple_non_contiguous_slots() {
    let mut store = ObservedAggregateAttestations::<E>::default();
    let max_cap = store.max_capacity();

    let to_skip = vec![1_u64, 2, 3, 5, 6, 29, 30, 31, 32, 64];
    let slots = (0..max_cap * 3)
        .into_iter()
        .filter(|i| !to_skip.contains(i))
        .collect::<Vec<_>>();

    for &i in &slots {
        if to_skip.contains(&i) {
            continue;
        }

        let slot = Slot::new(i);

        attestation_single_slot_test(&mut store, slot);

        for index in 0..store.num_sets() {
            assert_eq!(
                store.set_len(index),
                Some(NUM_ELEMENTS),
                "each store should have NUM_ELEMENTS elements"
            )
        }

        let mut store_slots = attestation_slots(&store);

        store_slots.sort_unstable();

        assert!(
            store_slots.len() <= store.max_capacity() as usize,
            "store size should not exceed max"
        );

        let lowest = store.lowest_permissible_slot().as_u64();
        let highest = slot.as_u64();
        let expected_slots = (lowest..=highest)
            .filter(|i| !to_skip.contains(i))
            .map(Slot::new)
            .collect::<Vec<_>>();

        assert_eq!(expected_slots, &store_slots[..], "should have expected slots");
    }
}

fn electra(slot: u64, bits: u64, committee: usize) -> Attestation<E> {
    let mut committee_bits = Bitfield::with_capacity(64);
    assert!(committee_bits.set(committee, true));
    Attestation::Electra(AttestationElectra::new(
        bits_of(bits, 16),
        attestation_data(Slot::new(slot), 7),
        committee_bits,
    ))
}

#[test]
fn fresh_insert_then_exact_duplicate() {
    let mut store = ObservedSyncContributions::<E>::default();
    assert_eq!(store.lowest_permissible_slot(), Slot::new(0));
    assert_eq!(store.num_sets(), 0);
    let c1 = get_sync_contribution(Slot::new(0), 1);
    let root = c1.as_reference().root().unwrap();

    assert_eq!(store.observe_item(c1.as_reference(), None), Ok(ObserveOutcome::New));
    assert_eq!(store.is_known_subset(c1.as_reference(), root), Ok(true));
    assert_eq!(store.num_sets(), 1);
    assert_eq!(store.set_slot(0), Some(Slot::new(0)));
    assert_eq!(store.set_slot(1), None);
    assert_eq!(store.set_len(0), Some(1));

    assert_eq!(store.observe_item(c1.as_reference(), None), Ok(ObserveOutcome::Subset));
    assert_eq!(store.set_len(0), Some(1));
    assert_eq!(store.num_sets(), 1);
}

#[test]
fn contiguous_slots_keep_the_last_three() {
    let mut store = ObservedSyncContributions::<E>::default();
    for slot in 0..=5u64 {
        for i in 0..8u64 {
            let c = get_sync_contribution(Slot::new(slot), i);
            assert_eq!(store.observe_item(c.as_reference(), None), Ok(ObserveOutcome::New));
        }
    }
    assert_eq!(store.num_sets(), 3);
    let mut slots = sync_slots(&store);
    slots.sort_unstable();
    assert_eq!(slots, vec![Slot::new(3), Slot::new(4), Slot::new(5)]);
    for index in 0..3 {
        assert_eq!(store.set_len(index), Some(8));
    }
    assert_eq!(store.lowest_permissible_slot(), Slot::new(3));
}

#[test]
fn non_contiguous_slots_fill_the_gap_later() {
    let mut store = ObservedSyncContributions::<E>::default();
    let c0 = get_sync_contribution(Slot::new(0), 1);
    let c2 = get_sync_contribution(Slot::new(2), 1);
    let c1 = get_sync_contribution(Slot::new(1), 1);
    assert_eq!(store.observe_item(c0.as_reference(), None), Ok(ObserveOutcome::New));
    assert_eq!(store.observe_item(c2.as_reference(), None), Ok(ObserveOutcome::New));
    assert_eq!(sync_slots(&store), vec![Slot::new(0), Slot::new(2)]);
    assert_eq!(store.lowest_permissible_slot(), Slot::new(0));
    assert_eq!(store.observe_item(c1.as_reference(), None), Ok(ObserveOutcome::New));
    assert_eq!(sync_slots(&store), vec![Slot::new(0), Slot::new(2), Slot::new(1)]);
}

#[test]
fn subset_superset_collapse() {
    let mut store = ObservedAggregateAttestations::<E>::default();
    let a1 = electra(0, 0b0011, 2);
    let a2 = electra(0, 0b0111, 2);
    let a3 = electra(0, 0b0001, 2);
    let root = a1.as_reference().root().unwrap();
    assert_eq!(a2.as_reference().root(), Ok(root));

    assert_eq!(store.observe_item(a1.as_reference(), None), Ok(ObserveOutcome::New));
    assert_eq!(store.observe_item(a2.as_reference(), None), Ok(ObserveOutcome::New));
    assert_eq!(store.set_len(0), Some(1));
    assert_eq!(store.is_known_subset(a1.as_reference(), root), Ok(true));
    assert_eq!(store.is_known_subset(a2.as_reference(), root), Ok(true));
    assert_eq!(store.observe_item(a3.as_reference(), None), Ok(ObserveOutcome::Subset));
    // Only the superset is kept: a strict superset of it is not known.
    let a4 = electra(0, 0b1111, 2);
    assert_eq!(store.is_known_subset(a4.as_reference(), root), Ok(false));
}

#[test]
fn distinct_identities_do_not_collapse() {
    let mut store = ObservedAggregateAttestations::<E>::default();
    let a = electra(0, 0b0111, 2);
    let b = electra(0, 0b0011, 5);
    let root_a = a.as_reference().root().unwrap();
    let root_b = b.as_reference().root().unwrap();
    assert_ne!(root_a, root_b);
    assert_eq!(store.observe_item(a.as_reference(), None), Ok(ObserveOutcome::New));
    assert_eq!(store.is_known_subset(b.as_reference(), root_b), Ok(false));
    assert_eq!(store.observe_item(b.as_reference(), None), Ok(ObserveOutcome::New));
    assert_eq!(store.set_len(0), Some(2));
}

#[test]
fn distinct_slots_do_not_collapse() {
    let mut store = ObservedAggregateAttestations::<E>::default();
    let a = electra(4, 0b0111, 2);
    let b = electra(5, 0b0011, 2);
    assert_eq!(store.observe_item(a.as_reference(), None), Ok(ObserveOutcome::New));
    let root_b = b.as_reference().root().unwrap();
    assert_eq!(store.is_known_subset(b.as_reference(), root_b), Ok(false));
    // Asking does not make a bucket.
    assert_eq!(store.num_sets(), 1);
    assert_eq!(store.observe_item(b.as_reference(), None), Ok(ObserveOutcome::New));
    assert_eq!(store.num_sets(), 2);
}

#[test]
fn slot_at_the_floor_is_admitted_and_below_refused() {
    let mut store = ObservedSyncContributions::<E>::default();
    let c10 = get_sync_contribution(Slot::new(10), 1);
    assert_eq!(store.observe_item(c10.as_reference(), None), Ok(ObserveOutcome::New));
    assert_eq!(store.lowest_permissible_slot(), Slot::new(8));

    let at_floor = get_sync_contribution(Slot::new(8), 1);
    let below = get_sync_contribution(Slot::new(7), 1);
    let too_low = Error::SlotTooLow { slot: Slot::new(7), lowest_permissible_slot: Slot::new(8) };
    let root = below.as_reference().root().unwrap();
    assert_eq!(store.observe_item(below.as_reference(), None), Err(too_low));
    assert_eq!(store.is_known_subset(below.as_reference(), root), Err(too_low));
    assert_eq!(store.num_sets(), 1);
    assert_eq!(store.observe_item(at_floor.as_reference(), None), Ok(ObserveOutcome::New));
    assert_eq!(store.num_sets(), 2);
    assert_eq!(store.lowest_permissible_slot(), Slot::new(8));
}

#[test]
fn jump_forward_prunes_all_stale_buckets() {
    let mut store = ObservedSyncContributions::<E>::default();
    for slot in 0..3u64 {
        let c = get_sync_contribution(Slot::new(slot), 1);
        assert_eq!(store.observe_item(c.as_reference(), None), Ok(ObserveOutcome::New));
    }
    assert_eq!(store.num_sets(), 3);
    let far = get_sync_contribution(Slot::new(100), 1);
    assert_eq!(store.observe_item(far.as_reference(), None), Ok(ObserveOutcome::New));
    assert_eq!(sync_slots(&store), vec![Slot::new(100)]);
    assert_eq!(store.lowest_permissible_slot(), Slot::new(98));
}

#[test]
fn observing_prunes_before_the_root_is_asked_for() {
    let mut store = ObservedAggregateAttestations::<E>::default();
    // An Electra attestation that names no committee has no identity.
    let nameless = Attestation::<E>::Electra(AttestationElectra::new(
        bits_of(1, 16),
        attestation_data(Slot::new(200), 7),
        Bitfield::with_capacity(64),
    ));
    assert_eq!(nameless.as_reference().root(), Err(Error::RootError));
    assert_eq!(store.observe_item(nameless.as_reference(), None), Err(Error::RootError));
    assert_eq!(store.lowest_permissible_slot(), Slot::new(135));
    assert_eq!(attestation_slots(&store), vec![Slot::new(200)]);
    assert_eq!(store.set_len(0), Some(0));
    // With an identity from the caller it is observed all the same.
    assert_eq!(
        store.observe_item(nameless.as_reference(), Some([9u8; 32])),
        Ok(ObserveOutcome::New)
    );
}

#[test]
fn prune_sets_the_floor_and_drops_lower_slots() {
    let mut store = ObservedSyncContributions::<E>::default();
    for slot in [4u64, 5, 6] {
        let c = get_sync_contribution(Slot::new(slot), 1);
        assert_eq!(store.observe_item(c.as_reference(), None), Ok(ObserveOutcome::New));
    }
    assert_eq!(store.lowest_permissible_slot(), Slot::new(4));
    store.prune(Slot::new(7));
    assert_eq!(store.lowest_permissible_slot(), Slot::new(5));
    assert_eq!(sync_slots(&store), vec![Slot::new(5), Slot::new(6)]);
    store.prune(Slot::new(7));
    assert_eq!(store.lowest_permissible_slot(), Slot::new(5));
    assert_eq!(sync_slots(&store), vec![Slot::new(5), Slot::new(6)]);
    store.prune(Slot::new(1));
    assert_eq!(store.lowest_permissible_slot(), Slot::new(0));
    assert_eq!(sync_slots(&store), vec![Slot::new(5), Slot::new(6)]);
}

#[test]
fn full_ring_replaces_the_lowest_slot() {
    let mut store = ObservedSyncContributions::<E>::default();
    for slot in [11u64, 10, 12] {
        let c = get_sync_contribution(Slot::new(slot), 1);
        assert_eq!(store.observe_item(c.as_reference(), None), Ok(ObserveOutcome::New));
    }
    store.prune(Slot::new(5));
    assert_eq!(store.lowest_permissible_slot(), Slot::new(3));
    let c = get_sync_contribution(Slot::new(4), 1);
    assert_eq!(store.observe_item(c.as_reference(), None), Ok(ObserveOutcome::New));
    assert_eq!(sync_slots(&store), vec![Slot::new(11), Slot::new(4), Slot::new(12)]);
    assert_eq!(store.lowest_permissible_slot(), Slot::new(3));
}

#[test]
fn initial_capacity_is_the_mean_of_earlier_sets() {
    let mut store = ObservedSyncContributions::<E>::default();
    assert_eq!(store.initial_capacity(Slot::new(0)), 64);
    for (slot, count) in [(10u64, 5u64), (11, 2), (12, 7)] {
        for i in 0..count {
            let c = get_sync_contribution(Slot::new(slot), i);
            assert_eq!(store.observe_item(c.as_reference(), None), Ok(ObserveOutcome::New));
        }
    }
    assert_eq!(store.initial_capacity(Slot::new(10)), 64);
    assert_eq!(store.initial_capacity(Slot::new(11)), 5);
    assert_eq!(store.initial_capacity(Slot::new(12)), 3);
    assert_eq!(store.initial_capacity(Slot::new(13)), 4);

    let attestations = ObservedAggregateAttestations::<E>::default();
    assert_eq!(attestations.initial_capacity(Slot::new(3)), 128);
}

#[test]
fn fresh_sets_get_the_mean_of_earlier_sets_as_room() {
    let mut store = ObservedSyncContributions::<E>::default();
    for (slot, count) in [(10u64, 5u64), (11, 2), (12, 7)] {
        for i in 0..count {
            let c = get_sync_contribution(Slot::new(slot), i);
            assert_eq!(store.observe_item(c.as_reference(), None), Ok(ObserveOutcome::New));
        }
    }
    assert_eq!(store.set_initial_capacity(0), Some(64));
    assert_eq!(store.set_initial_capacity(1), Some(5));
    assert_eq!(store.set_initial_capacity(2), Some(3));
    assert_eq!(store.set_initial_capacity(3), None);
    // Slot 13 moves the window: slot 10 is gone when the mean is taken.
    let c = get_sync_contribution(Slot::new(13), 0);
    assert_eq!(store.observe_item(c.as_reference(), None), Ok(ObserveOutcome::New));
    assert_eq!(sync_slots(&store), vec![Slot::new(11), Slot::new(12), Slot::new(13)]);
    assert_eq!(store.set_initial_capacity(2), Some(4));
}
