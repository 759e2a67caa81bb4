//! What holds of the store of observed aggregates whatever is offered to it,
//! proved over the functions that its contracts are stated with.
use crate::attestation::{first_committee, AttestationBase, AttestationElectra, AttestationRef};
use crate::bitfield::is_subset_of;
use crate::eth_spec::EthSpec;
use crate::hash256::Hash256;
use crate::observed_aggregates::{
    after_observe, after_prune, buckets_valid, empty_bucket, first_related, has_slot,
    is_first_related, is_min_position, item_is_related, item_is_subset, item_is_superset,
    known_subset, known_subset_verdict, mean_earlier_len, min_position, observe_entries,
    observe_outcome, observe_verdict, observed_buckets, observed_floor, pruned, pruned_floor,
    routed, routed_floor, slot_position, store_valid, stored_under, BucketView, Entries, Error,
    Limits, ObserveOutcome, StoreView, SubsetItem,
};
use crate::slot::Slot;
use vstd::prelude::*;

verus! {

/// The subset order is reflexive.
pub proof fn lemma_subset_reflexive(a: Seq<bool>)
    ensures
        is_subset_of(a, a),
{
}

/// The subset order is transitive.
pub proof fn lemma_subset_transitive(a: Seq<bool>, b: Seq<bool>, c: Seq<bool>)
    requires
        is_subset_of(a, b),
        is_subset_of(b, c),
    ensures
        is_subset_of(a, c),
{
    assert forall|i: int| 0 <= i < a.len() && #[trigger] a[i] implies i < c.len() && c[i] by {
        assert(b[i]);
    }
}

/// Whether no two of the bits in `list` are comparable: none is a non-strict
/// subset of another.
pub open spec fn is_antichain(list: Seq<Seq<bool>>) -> bool {
    forall|i: int, j: int|
        0 <= i < list.len() && 0 <= j < list.len() && i != j ==> !is_subset_of(
            #[trigger] list[i],
            #[trigger] list[j],
        )
}

/// Whether the bits stored under every identity are an antichain.
pub open spec fn all_antichains(entries: Entries) -> bool {
    forall|root: Hash256| is_antichain(#[trigger] stored_under(entries, root))
}

/// Whether the incoming aggregate is a superset of at most one of `list`.
pub open spec fn covers_at_most_one(item: Option<Seq<bool>>, list: Seq<Seq<bool>>) -> bool {
    forall|i: int, j: int|
        0 <= i < list.len() && 0 <= j < list.len() && item_is_superset(item, #[trigger] list[i])
            && item_is_superset(item, #[trigger] list[j]) ==> i == j
}

/// Where `i` is the first position at which the aggregate is related to the
/// stored bits, `first_related` is that position.
pub proof fn lemma_first_related_unique(item: Option<Seq<bool>>, list: Seq<Seq<bool>>, i: int)
    requires
        is_first_related(item, list, i),
    ensures
        first_related(item, list) == Some(i),
{
    let k = choose|k: int| is_first_related(item, list, k);
    if k < i {
        assert(!item_is_related(item, list[k]));
    } else if i < k {
        assert(!item_is_related(item, list[i]));
    }
}

/// Where the aggregate is related to the bits at position `p`, there is a first
/// position at which it is related, and it is not after `p`.
pub proof fn lemma_first_related_exists(item: Option<Seq<bool>>, list: Seq<Seq<bool>>, p: int)
    requires
        0 <= p < list.len(),
        item_is_related(item, list[p]),
    ensures
        first_related(item, list) is Some,
        is_first_related(item, list, first_related(item, list)->0),
        first_related(item, list)->0 <= p,
    decreases p,
{
    if exists|j: int| 0 <= j < p && item_is_related(item, #[trigger] list[j]) {
        let j = choose|j: int| 0 <= j < p && item_is_related(item, #[trigger] list[j]);
        lemma_first_related_exists(item, list, j);
    } else {
        assert(is_first_related(item, list, p));
        lemma_first_related_unique(item, list, p);
    }
}

/// What `first_related` says where it finds a position, and where it finds none.
pub proof fn lemma_first_related(item: Option<Seq<bool>>, list: Seq<Seq<bool>>)
    ensures
        match first_related(item, list) {
            Some(i) => is_first_related(item, list, i),
            None => forall|j: int| 0 <= j < list.len() ==> !item_is_related(
                item,
                #[trigger] list[j],
            ),
        },
{
    if first_related(item, list) is None {
        assert forall|j: int| 0 <= j < list.len() implies !item_is_related(
            item,
            #[trigger] list[j],
        ) by {
            if item_is_related(item, list[j]) {
                lemma_first_related_exists(item, list, j);
            }
        }
    }
}

/// Observing an aggregate leaves what is stored under every other identity as
/// it was: aggregates with distinct identities never touch each other, whatever
/// their bits.
pub proof fn lemma_other_identities_untouched(
    entries: Entries,
    max_capacity: usize,
    item: Option<Seq<bool>>,
    root: Hash256,
    other: Hash256,
)
    requires
        other != root,
    ensures
        observe_entries(entries, max_capacity, item, root).contains_key(other)
            == entries.contains_key(other),
        stored_under(observe_entries(entries, max_capacity, item, root), other) == stored_under(
            entries,
            other,
        ),
{
}

/// An aggregate whose identity the store does not hold is never reported as a
/// subset, whatever is stored under other identities.
pub proof fn lemma_unknown_identity_is_no_subset(
    entries: Entries,
    max_capacity: usize,
    item: Option<Seq<bool>>,
    root: Hash256,
)
    requires
        !entries.contains_key(root),
    ensures
        !known_subset(entries, item, root),
        observe_outcome(entries, max_capacity, item, root) != Ok::<ObserveOutcome, Error>(
            ObserveOutcome::Subset,
        ),
{
    lemma_first_related(item, stored_under(entries, root));
}

/// The verdict on an aggregate and what is stored under its identity afterwards
/// depend only on what is stored under that identity and on how many identities
/// there are.
pub proof fn lemma_verdict_depends_on_own_identity(
    entries: Entries,
    others: Entries,
    max_capacity: usize,
    item: Option<Seq<bool>>,
    root: Hash256,
)
    requires
        stored_under(entries, root) == stored_under(others, root),
        entries.dom().len() == others.dom().len(),
    ensures
        observe_outcome(entries, max_capacity, item, root) == observe_outcome(
            others,
            max_capacity,
            item,
            root,
        ),
        known_subset(entries, item, root) == known_subset(others, item, root),
        stored_under(observe_entries(entries, max_capacity, item, root), root) == stored_under(
            observe_entries(others, max_capacity, item, root),
            root,
        ),
{
}

/// A store that is full refuses an aggregate of an identity that it does not
/// hold, and stays as it was.
pub proof fn lemma_full_store_refuses_new_identity(
    entries: Entries,
    max_capacity: usize,
    item: Option<Seq<bool>>,
    root: Hash256,
)
    requires
        entries.dom().len() >= max_capacity,
        !entries.contains_key(root),
    ensures
        observe_outcome(entries, max_capacity, item, root) == Err::<ObserveOutcome, Error>(
            Error::ReachedMaxObservationsPerSlot(max_capacity),
        ),
        observe_entries(entries, max_capacity, item, root) == entries,
{
    lemma_first_related(item, stored_under(entries, root));
}

/// After an aggregate was observed as new, observing it again at once reports
/// a subset and changes nothing, and the aggregate is known as a subset.
pub proof fn lemma_reobserve_is_subset(
    entries: Entries,
    max_capacity: usize,
    item: Option<Seq<bool>>,
    root: Hash256,
)
    requires
        observe_outcome(entries, max_capacity, item, root) == Ok::<ObserveOutcome, Error>(
            ObserveOutcome::New,
        ),
    ensures
        observe_outcome(
            observe_entries(entries, max_capacity, item, root),
            max_capacity,
            item,
            root,
        )
            == Ok::<ObserveOutcome, Error>(ObserveOutcome::Subset),
        observe_entries(
            observe_entries(entries, max_capacity, item, root),
            max_capacity,
            item,
            root,
        )
            == observe_entries(entries, max_capacity, item, root),
        known_subset(observe_entries(entries, max_capacity, item, root), item, root),
{
    let list = stored_under(entries, root);
    let after = observe_entries(entries, max_capacity, item, root);
    let p = lemma_observed_new_place(entries, max_capacity, item, root);
    let list1 = stored_under(after, root);
    let bits = item->0;
    lemma_subset_reflexive(bits);
    assert(item_is_subset(item, list1[p]));
    lemma_first_related_exists(item, list1, p);
    let k = first_related(item, list1)->0;
    if k < p {
        assert(list1[k] == list[k]);
        lemma_first_related(item, list);
        assert(false);
    }
    assert(item_is_subset(item, stored_under(after, root)[p]));
}

/// Where an aggregate was observed as new, its bits stand under its identity
/// afterwards, at the position that this function returns; the other positions
/// that were there hold what they held; and no position before it is related to
/// the aggregate.
pub proof fn lemma_observed_new_place(
    entries: Entries,
    max_capacity: usize,
    item: Option<Seq<bool>>,
    root: Hash256,
) -> (p: int)
    requires
        observe_outcome(entries, max_capacity, item, root) == Ok::<ObserveOutcome, Error>(
            ObserveOutcome::New,
        ),
    ensures
        item is Some,
        0 <= p < stored_under(observe_entries(entries, max_capacity, item, root), root).len(),
        stored_under(observe_entries(entries, max_capacity, item, root), root)[p] == item->0,
        p <= stored_under(entries, root).len(),
        stored_under(observe_entries(entries, max_capacity, item, root), root).len() == if p
            < stored_under(entries, root).len() {
            stored_under(entries, root).len()
        } else {
            stored_under(entries, root).len() + 1
        },
        forall|k: int|
            0 <= k < stored_under(entries, root).len() && k != p ==> stored_under(
                observe_entries(entries, max_capacity, item, root),
                root,
            )[k] == stored_under(entries, root)[k],
        forall|k: int| 0 <= k < p ==> !item_is_related(
            item,
            #[trigger] stored_under(entries, root)[k],
        ),
{
    let list = stored_under(entries, root);
    lemma_first_related(item, list);
    match first_related(item, list) {
        Some(i) => i,
        None => list.len() as int,
    }
}

/// Where `a` was observed as new and then at once `b`, of the same identity and
/// with every bit of `a`, was observed as new too, `b` took the place of stored
/// bits rather than a new place, and `a` is still known as a subset.
pub proof fn lemma_superset_absorbs(
    entries: Entries,
    max_capacity: usize,
    a: Option<Seq<bool>>,
    b: Option<Seq<bool>>,
    root: Hash256,
)
    requires
        a is Some,
        b is Some,
        is_subset_of(a->0, b->0),
        observe_outcome(entries, max_capacity, a, root) == Ok::<ObserveOutcome, Error>(
            ObserveOutcome::New,
        ),
        observe_outcome(observe_entries(entries, max_capacity, a, root), max_capacity, b, root)
            == Ok::<ObserveOutcome, Error>(ObserveOutcome::New),
    ensures
        known_subset(
            observe_entries(observe_entries(entries, max_capacity, a, root), max_capacity, b, root),
            a,
            root,
        ),
        stored_under(
            observe_entries(observe_entries(entries, max_capacity, a, root), max_capacity, b, root),
            root,
        ).len() == stored_under(observe_entries(entries, max_capacity, a, root), root).len(),
{
    let first = observe_entries(entries, max_capacity, a, root);
    let p = lemma_observed_new_place(entries, max_capacity, a, root);
    let list1 = stored_under(first, root);
    assert(item_is_superset(b, list1[p]));
    lemma_first_related_exists(b, list1, p);
    let k = first_related(b, list1)->0;
    let second = observe_entries(first, max_capacity, b, root);
    let list2 = stored_under(second, root);
    assert(list2 == list1.update(k, b->0));
    if k == p {
        assert(item_is_subset(a, list2[k]));
    } else {
        assert(list2[p] == a->0);
        lemma_subset_reflexive(a->0);
        assert(item_is_subset(a, list2[p]));
    }
}

/// Observing an aggregate keeps the bits stored under every identity an
/// antichain, unless the aggregate is a superset of two or more of the bits
/// stored under its identity; an aggregate that stored bits cover changes
/// nothing.
pub proof fn lemma_observe_keeps_antichains(
    entries: Entries,
    max_capacity: usize,
    item: Option<Seq<bool>>,
    root: Hash256,
)
    requires
        all_antichains(entries),
        known_subset(entries, item, root) || covers_at_most_one(item, stored_under(entries, root)),
    ensures
        all_antichains(observe_entries(entries, max_capacity, item, root)),
{
    let list = stored_under(entries, root);
    let after = observe_entries(entries, max_capacity, item, root);
    assert(is_antichain(list));
    lemma_first_related(item, list);
    assert forall|other: Hash256| is_antichain(#[trigger] stored_under(after, other)) by {
        if other != root {
            lemma_other_identities_untouched(entries, max_capacity, item, root, other);
            assert(is_antichain(stored_under(entries, other)));
        } else {
            let list1 = stored_under(after, root);
            match first_related(item, list) {
                Some(i) => {
                    if !item_is_subset(item, list[i]) {
                        let bits = item->0;
                        assert(list1 == list.update(i, bits));
                        assert(item_is_superset(item, list[i]));
                        if known_subset(entries, item, root) {
                            let k = choose|k: int|
                                0 <= k < list.len() && item_is_subset(item, #[trigger] list[k]);
                            lemma_subset_transitive(list[i], bits, list[k]);
                            assert(false);
                        }
                        assert forall|x: int, y: int|
                            0 <= x < list1.len() && 0 <= y < list1.len() && x != y implies !is_subset_of(
                            #[trigger] list1[x],
                            #[trigger] list1[y],
                        ) by {
                            if x == i {
                                if is_subset_of(bits, list[y]) {
                                    lemma_subset_transitive(list[i], bits, list[y]);
                                }
                            } else if y == i {
                                if is_subset_of(list[x], bits) {
                                    assert(item_is_superset(item, list[x]));
                                }
                            } else {
                                assert(!is_subset_of(list[x], list[y]));
                            }
                        }
                    }
                },
                None => {
                    if !(entries.dom().len() >= max_capacity || item is None) {
                        let bits = item->0;
                        assert(list1 == list.push(bits));
                        assert forall|x: int, y: int|
                            0 <= x < list1.len() && 0 <= y < list1.len() && x != y implies !is_subset_of(
                            #[trigger] list1[x],
                            #[trigger] list1[y],
                        ) by {
                            if x == list.len() {
                                assert(!item_is_related(item, list[y]));
                            } else if y == list.len() {
                                assert(!item_is_related(item, list[x]));
                            } else {
                                assert(!is_subset_of(list[x], list[y]));
                            }
                        }
                    }
                },
            }
        }
    }
}

/// Observing never lowers the lowest permissible slot.
pub proof fn lemma_observe_never_lowers_floor(
    store: StoreView,
    limits: Limits,
    slot: Slot,
    item: Option<Seq<bool>>,
    root: Option<Hash256>,
)
    requires
        limits.capacity >= 1,
    ensures
        after_observe(store, limits, slot, item, root).lowest_permissible_slot.0
            >= store.lowest_permissible_slot.0,
{

}

/// An aggregate is refused as too low exactly where its slot lies below the
/// lowest permissible slot: at that slot itself it is admitted. An aggregate
/// that is refused so changes nothing.
pub proof fn lemma_slot_too_low_iff(
    store: StoreView,
    limits: Limits,
    slot: Slot,
    item: Option<Seq<bool>>,
    root: Option<Hash256>,
)
    ensures
        slot.0 < store.lowest_permissible_slot.0 <==> observe_verdict(store, limits, slot, item, root)
            matches Err(Error::SlotTooLow { .. }),
        slot.0 < store.lowest_permissible_slot.0 ==> observe_verdict(store, limits, slot, item, root)
            == Err::<ObserveOutcome, Error>(
            Error::SlotTooLow { slot, lowest_permissible_slot: store.lowest_permissible_slot },
        ) && after_observe(store, limits, slot, item, root) == store,
{

}

/// Among buckets, of which there is at least one, some position is the first
/// with the smallest slot.
pub proof fn lemma_min_position_exists(buckets: Seq<BucketView>)
    requires
        buckets.len() > 0,
    ensures
        is_min_position(buckets, min_position(buckets)),
    decreases buckets.len(),
{
    if buckets.len() == 1 {
        assert(is_min_position(buckets, 0));
    } else {
        let rest = buckets.drop_last();
        lemma_min_position_exists(rest);
        let m = min_position(rest);
        let last = buckets.len() - 1;
        assert forall|j: int| 0 <= j < rest.len() implies rest[j] == buckets[j] by {}
        if buckets[last].slot.0 < rest[m].slot.0 {
            assert forall|j: int| 0 <= j < buckets.len() implies buckets[last].slot.0 <= (
            #[trigger] buckets[j]).slot.0 by {
                if j < last {
                    assert(rest[m].slot.0 <= rest[j].slot.0);
                }
            }
            assert forall|j: int| 0 <= j < last implies buckets[last].slot.0 < (
            #[trigger] buckets[j]).slot.0 by {
                assert(rest[m].slot.0 <= rest[j].slot.0);
            }
            assert(is_min_position(buckets, last));
        } else {
            assert forall|j: int| 0 <= j < buckets.len() implies buckets[m].slot.0 <= (
            #[trigger] buckets[j]).slot.0 by {
                if j < last {
                    assert(rest[m].slot.0 <= rest[j].slot.0);
                }
            }
            assert forall|j: int| 0 <= j < m implies buckets[m].slot.0 < (#[trigger] buckets[j]).slot.0 by {
                assert(rest[m].slot.0 < rest[j].slot.0);
            }
            assert(is_min_position(buckets, m));
        }
    }
}

/// What pruning keeps: the buckets stay valid, now for the new floor, and each
/// bucket that is kept was there before.
pub proof fn lemma_pruned_valid(
    buckets: Seq<BucketView>,
    floor: Slot,
    new_floor: Slot,
    capacity: u64,
    max_per_slot: usize,
)
    requires
        buckets_valid(buckets, floor, capacity, max_per_slot),
    ensures
        buckets_valid(pruned(buckets, new_floor), new_floor, capacity, max_per_slot),
        forall|i: int|
            0 <= i < pruned(buckets, new_floor).len() ==> buckets.contains(
                #[trigger] pruned(buckets, new_floor)[i],
            ),
        forall|i: int|
            0 <= i < buckets.len() && buckets[i].slot.0 >= new_floor.0 ==> pruned(
                buckets,
                new_floor,
            ).contains(#[trigger] buckets[i]),
    decreases buckets.len(),
{
    reveal(Seq::filter);
    let keep = |b: BucketView| b.slot.0 >= new_floor.0;
    let kept = pruned(buckets, new_floor);
    if buckets.len() > 0 {
        let rest = buckets.drop_last();
        let last = buckets.last();
        assert forall|j: int| 0 <= j < rest.len() implies rest[j] == buckets[j] by {}
        lemma_pruned_valid(rest, floor, new_floor, capacity, max_per_slot);
        let kept_rest = pruned(rest, new_floor);
        assert forall|i: int| 0 <= i < kept_rest.len() implies buckets.contains(
            #[trigger] kept_rest[i],
        ) && kept_rest[i].slot != last.slot by {
            assert(rest.contains(kept_rest[i]));
            let j = choose|j: int| 0 <= j < rest.len() && rest[j] == kept_rest[i];
            assert(buckets[j] == kept_rest[i]);
            assert(buckets[j].slot != buckets[buckets.len() - 1].slot);
        }
        assert forall|i: int| 0 <= i < kept.len() implies buckets.contains(#[trigger] kept[i]) by {
            if i < kept_rest.len() {
                assert(kept[i] == kept_rest[i]);
            } else {
                assert(kept[i] == buckets[buckets.len() - 1]);
            }
        }
        assert forall|i: int| 0 <= i < buckets.len() && buckets[i].slot.0 >= new_floor.0 implies kept.contains(
            #[trigger] buckets[i],
        ) by {
            if i < rest.len() {
                assert(kept_rest.contains(rest[i]));
                let j = choose|j: int| 0 <= j < kept_rest.len() && kept_rest[j] == rest[i];
                assert(kept[j] == buckets[i]);
            } else {
                assert(kept[kept.len() - 1] == buckets[i]);
            }
        }
        rest.lemma_filter_len(keep);
        assert(buckets_valid(kept, new_floor, capacity, max_per_slot)) by {
            assert forall|i: int| 0 <= i < kept.len() implies (#[trigger] kept[i]).entries.dom().finite()
                && kept[i].entries.dom().len() <= max_per_slot && kept[i].slot.0 >= new_floor.0 by {
                assert(buckets.contains(kept[i]));
                if i < kept_rest.len() {
                    assert(kept[i] == kept_rest[i]);
                }
            }
            assert forall|i: int, j: int|
                0 <= i < kept.len() && 0 <= j < kept.len() && i != j implies (#[trigger] kept[i]).slot != (
            #[trigger] kept[j]).slot by {
                if i < kept_rest.len() && j < kept_rest.len() {
                    assert(kept_rest[i].slot != kept_rest[j].slot);
                } else if i < kept_rest.len() {
                    assert(kept_rest[i].slot != last.slot);
                } else if j < kept_rest.len() {
                    assert(kept_rest[j].slot != last.slot);
                }
            }
        }
    }
}

/// Where no bucket is for a slot below the floor, pruning keeps them all.
pub proof fn lemma_pruned_all(buckets: Seq<BucketView>, floor: Slot)
    requires
        forall|i: int| 0 <= i < buckets.len() ==> (#[trigger] buckets[i]).slot.0 >= floor.0,
    ensures
        pruned(buckets, floor) == buckets,
    decreases buckets.len(),
{
    reveal(Seq::filter);
    if buckets.len() > 0 {
        lemma_pruned_all(buckets.drop_last(), floor);
        assert(buckets.drop_last().push(buckets.last()) =~= buckets);
    }
}

/// Where no two buckets are for the same slot, the bucket for a slot is found
/// at its one position.
pub proof fn lemma_slot_position(buckets: Seq<BucketView>, slot: Slot, i: int)
    requires
        0 <= i < buckets.len(),
        buckets[i].slot == slot,
        forall|i: int, j: int|
            0 <= i < buckets.len() && 0 <= j < buckets.len() && i != j ==> (#[trigger] buckets[i]).slot
                != (#[trigger] buckets[j]).slot,
    ensures
        has_slot(buckets, slot),
        slot_position(buckets, slot) == i,
{
}

/// Routing an aggregate that is not too low keeps the buckets valid, for a
/// floor that did not fall and that the aggregate's slot is not below, and
/// leaves one bucket for the aggregate's slot. Each bucket of another slot was
/// there before, with what it holds.
pub proof fn lemma_routed_valid(
    buckets: Seq<BucketView>,
    floor: Slot,
    capacity: u64,
    max_per_slot: usize,
    default_capacity: usize,
    slot: Slot,
)
    requires
        buckets_valid(buckets, floor, capacity, max_per_slot),
        capacity >= 1,
        slot.0 >= floor.0,
    ensures
        buckets_valid(
            routed(buckets, floor, capacity, default_capacity, slot),
            routed_floor(floor, capacity, slot),
            capacity,
            max_per_slot,
        ),
        floor.0 <= routed_floor(floor, capacity, slot).0 <= slot.0,
        slot.0 < routed_floor(floor, capacity, slot).0 + capacity,
        has_slot(routed(buckets, floor, capacity, default_capacity, slot), slot),
        0 <= slot_position(routed(buckets, floor, capacity, default_capacity, slot), slot) < routed(
            buckets,
            floor,
            capacity,
            default_capacity,
            slot,
        ).len(),
        routed(buckets, floor, capacity, default_capacity, slot)[slot_position(
            routed(buckets, floor, capacity, default_capacity, slot),
            slot,
        )].slot == slot,
        forall|i: int|
            0 <= i < routed(
                buckets,
                floor,
                capacity,
                default_capacity,
                slot,
            ).len() && (#[trigger] routed(
                buckets,
                floor,
                capacity,
                default_capacity,
                slot,
            )[i]).slot != slot ==> buckets.contains(routed(buckets, floor, capacity, default_capacity, slot)[i]),
        !has_slot(
            buckets,
            slot,
        ) ==> routed(buckets, floor, capacity, default_capacity, slot)[slot_position(
            routed(buckets, floor, capacity, default_capacity, slot),
            slot,
        )] == empty_bucket(
            slot,
            mean_earlier_len(
                pruned(buckets, routed_floor(floor, capacity, slot)),
                slot,
                default_capacity,
            ) as usize,
        ),
        has_slot(buckets, slot) ==> buckets.contains(
            routed(buckets, floor, capacity, default_capacity, slot)[slot_position(
                routed(buckets, floor, capacity, default_capacity, slot),
                slot,
            )],
        ),
{
    let new_floor = routed_floor(floor, capacity, slot);
    let kept = pruned(buckets, new_floor);
    let result = routed(buckets, floor, capacity, default_capacity, slot);
    lemma_pruned_valid(buckets, floor, new_floor, capacity, max_per_slot);
    if !has_slot(buckets, slot) && has_slot(kept, slot) {
        let i = slot_position(kept, slot);
        assert(buckets.contains(kept[i]));
    }
    if has_slot(buckets, slot) {
        let i = slot_position(buckets, slot);
        assert(kept.contains(buckets[i]));
        let j = choose|j: int| 0 <= j < kept.len() && kept[j] == buckets[i];
        assert(kept[j].slot == slot);
    }
    if has_slot(kept, slot) {
        let i = slot_position(kept, slot);
        assert(buckets.contains(kept[i]));
    } else if kept.len() < capacity {
        let n = kept.len() as int;
        assert(result[n].slot == slot);
        assert forall|i: int, j: int|
            0 <= i < result.len() && 0 <= j < result.len() && i != j implies (#[trigger] result[i]).slot != (
        #[trigger] result[j]).slot by {
            if i < n && j < n {
                assert(kept[i].slot != kept[j].slot);
            } else if i < n {
                assert(kept[i].slot != slot);
            } else if j < n {
                assert(kept[j].slot != slot);
            }
        }
        lemma_slot_position(result, slot, n);
        assert forall|i: int| 0 <= i < result.len() && (#[trigger] result[i]).slot != slot implies buckets.contains(
            result[i],
        ) by {
            assert(result[i] == kept[i]);
        }
    } else {
        lemma_min_position_exists(kept);
        let m = min_position(kept);
        assert(result[m].slot == slot);
        assert forall|i: int, j: int|
            0 <= i < result.len() && 0 <= j < result.len() && i != j implies (#[trigger] result[i]).slot != (
        #[trigger] result[j]).slot by {
            if i != m && j != m {
                assert(kept[i].slot != kept[j].slot);
            } else if i != m {
                assert(kept[i].slot != slot);
            } else if j != m {
                assert(kept[j].slot != slot);
            }
        }
        lemma_slot_position(result, slot, m);
        assert forall|i: int| 0 <= i < result.len() && (#[trigger] result[i]).slot != slot implies buckets.contains(
            result[i],
        ) by {
            assert(result[i] == kept[i]);
        }
        assert forall|i: int| 0 <= i < result.len() implies (#[trigger] result[i]).entries.dom().finite()
            && result[i].entries.dom().len() <= max_per_slot && result[i].slot.0 >= new_floor.0 by {
            if i != m {
                assert(result[i] == kept[i]);
            }
        }
    }
}

/// Observing keeps the identities of a bucket finitely many and within the
/// bound.
pub proof fn lemma_observe_bounded(
    entries: Entries,
    max_capacity: usize,
    item: Option<Seq<bool>>,
    root: Hash256,
)
    requires
        entries.dom().finite(),
        entries.dom().len() <= max_capacity,
    ensures
        observe_entries(entries, max_capacity, item, root).dom().finite(),
        observe_entries(entries, max_capacity, item, root).dom().len() <= max_capacity,
{
    let list = stored_under(entries, root);
    lemma_first_related(item, list);
    let after = observe_entries(entries, max_capacity, item, root);
    if after != entries {
        assert(after.dom() =~= entries.dom().insert(root));
        if first_related(item, list) is Some {
            assert(entries.contains_key(root));
            assert(entries.dom().insert(root) =~= entries.dom());
        }
    }
}

/// Observing keeps the store valid, whatever is offered: there are never more
/// buckets than the capacity, none is for a slot below the lowest permissible
/// slot, and no two are for the same slot.
pub proof fn lemma_observed_valid(
    store: StoreView,
    limits: Limits,
    slot: Slot,
    item: Option<Seq<bool>>,
    root: Option<Hash256>,
)
    requires
        store_valid(store, limits),
    ensures
        store_valid(after_observe(store, limits, slot, item, root), limits),
{
    let buckets = store.buckets;
    let floor = store.lowest_permissible_slot;
    let capacity = limits.capacity;
    let max_per_slot = limits.max_per_slot;
    let default_capacity = limits.default_per_slot;
    if slot.0 >= floor.0 {
        lemma_routed_valid(buckets, floor, capacity, max_per_slot, default_capacity, slot);
        if let Some(root) = root {
            let routed = routed(buckets, floor, capacity, default_capacity, slot);
            let i = slot_position(routed, slot);
            lemma_observe_bounded(routed[i].entries, max_per_slot, item, root);
            let after = observed_buckets(
                buckets,
                floor,
                capacity,
                max_per_slot,
                default_capacity,
                slot,
                item,
                Some(root),
            );
            assert forall|k: int| 0 <= k < after.len() implies (#[trigger] after[k]).slot
                == routed[k].slot by {}
            assert forall|k: int| 0 <= k < after.len() implies (#[trigger] after[k]).entries.dom().finite()
                && after[k].entries.dom().len() <= max_per_slot by {
                if k != i {
                    assert(after[k] == routed[k]);
                }
            }
        }
    }
}

/// What the bucket for `slot` holds, nothing where there is no such bucket.
pub open spec fn bucket_entries(buckets: Seq<BucketView>, slot: Slot) -> Entries {
    if has_slot(buckets, slot) {
        buckets[slot_position(buckets, slot)].entries
    } else {
        Map::empty()
    }
}

/// The verdict on an aggregate depends on the bucket for its own slot alone: it
/// is the verdict of that bucket, or of an empty one where there is none. So a
/// subset relation with an aggregate of another slot is never reported: without
/// a bucket for its slot, an aggregate is neither known as a subset nor observed
/// as one.
pub proof fn lemma_verdict_depends_on_own_slot(
    store: StoreView,
    limits: Limits,
    slot: Slot,
    item: Option<Seq<bool>>,
    root: Hash256,
)
    requires
        store_valid(store, limits),
        slot.0 >= store.lowest_permissible_slot.0,
    ensures
        observe_verdict(store, limits, slot, item, Some(root)) == observe_outcome(
            bucket_entries(store.buckets, slot),
            limits.max_per_slot,
            item,
            root,
        ),
        known_subset_verdict(store, slot, item, root) == Ok::<bool, Error>(
            known_subset(bucket_entries(store.buckets, slot), item, root),
        ),
        !has_slot(store.buckets, slot) ==> known_subset_verdict(store, slot, item, root) == Ok::<
            bool,
            Error,
        >(false) && observe_verdict(store, limits, slot, item, Some(root)) != Ok::<
            ObserveOutcome,
            Error,
        >(ObserveOutcome::Subset),
        routed(
            store.buckets,
            store.lowest_permissible_slot,
            limits.capacity,
            limits.default_per_slot,
            slot,
        )[slot_position(
            routed(
                store.buckets,
                store.lowest_permissible_slot,
                limits.capacity,
                limits.default_per_slot,
                slot,
            ),
            slot,
        )].entries == bucket_entries(store.buckets, slot),
{
    let buckets = store.buckets;
    let floor = store.lowest_permissible_slot;
    let capacity = limits.capacity;
    let max_per_slot = limits.max_per_slot;
    let default_capacity = limits.default_per_slot;
    lemma_routed_valid(buckets, floor, capacity, max_per_slot, default_capacity, slot);
    let routed = routed(buckets, floor, capacity, default_capacity, slot);
    let i = slot_position(routed, slot);
    if has_slot(buckets, slot) {
        let j = slot_position(buckets, slot);
        assert(buckets.contains(routed[i]));
        let k = choose|k: int| 0 <= k < buckets.len() && buckets[k] == routed[i];
        assert(k == j);
    } else {
        assert(routed[i].entries == Map::<Hash256, Seq<Seq<bool>>>::empty());
        lemma_unknown_identity_is_no_subset(Map::empty(), max_per_slot, item, root);
    }
}

/// An observation that jumps forward to a slot at or beyond the end of the
/// window moves the window so that it ends with that slot, discards every
/// bucket that has fallen out of it, and goes on: the aggregate is not refused
/// for its slot, and a bucket for its slot is there afterwards. Where every
/// bucket has fallen out, the bucket for the new slot is the only one left.
pub proof fn lemma_jump_forward_prunes(
    store: StoreView,
    limits: Limits,
    slot: Slot,
    item: Option<Seq<bool>>,
    root: Option<Hash256>,
)
    requires
        store_valid(store, limits),
        slot.0 >= store.lowest_permissible_slot.0 + limits.capacity,
    ensures
        after_observe(store, limits, slot, item, root).lowest_permissible_slot.0 == slot.0 - (
        limits.capacity - 1),
        forall|i: int|
            0 <= i < after_observe(store, limits, slot, item, root).buckets.len() ==> (
            #[trigger] after_observe(store, limits, slot, item, root).buckets[i]).slot.0 >= slot.0 - (
            limits.capacity - 1),
        has_slot(after_observe(store, limits, slot, item, root).buckets, slot),
        !(observe_verdict(store, limits, slot, item, root) matches Err(Error::SlotTooLow { .. })),
        (forall|i: int|
            0 <= i < store.buckets.len() ==> (#[trigger] store.buckets[i]).slot.0 < slot.0 - (
            limits.capacity - 1)) ==> after_observe(store, limits, slot, item, root).buckets.len()
            == 1,
{
    let buckets = store.buckets;
    let floor = store.lowest_permissible_slot;
    let capacity = limits.capacity;
    let max_per_slot = limits.max_per_slot;
    let default_capacity = limits.default_per_slot;
    lemma_routed_valid(buckets, floor, capacity, max_per_slot, default_capacity, slot);
    lemma_observed_valid(store, limits, slot, item, root);
    let new_floor = routed_floor(floor, capacity, slot);
    let routed = routed(buckets, floor, capacity, default_capacity, slot);
    let after = observed_buckets(
        buckets,
        floor,
        capacity,
        max_per_slot,
        default_capacity,
        slot,
        item,
        root,
    );
    let i = slot_position(routed, slot);
    assert(after[i].slot == slot);
    if forall|i: int| 0 <= i < buckets.len() ==> (#[trigger] buckets[i]).slot.0 < slot.0 - (capacity - 1) {
        let kept = pruned(buckets, new_floor);
        lemma_pruned_valid(buckets, floor, new_floor, capacity, max_per_slot);
        if kept.len() > 0 {
            assert(buckets.contains(kept[0]));
            assert(false);
        }
    }
}

/// Once an aggregate of `slot` was offered and not refused for its slot,
/// routing another aggregate of that slot changes nothing.
pub proof fn lemma_route_again(
    store: StoreView,
    limits: Limits,
    slot: Slot,
    item: Option<Seq<bool>>,
    root: Option<Hash256>,
)
    requires
        store_valid(store, limits),
        slot.0 >= store.lowest_permissible_slot.0,
    ensures
        slot.0 >= after_observe(store, limits, slot, item, root).lowest_permissible_slot.0,
        routed_floor(
            after_observe(store, limits, slot, item, root).lowest_permissible_slot,
            limits.capacity,
            slot,
        ) == after_observe(store, limits, slot, item, root).lowest_permissible_slot,
        routed(
            after_observe(store, limits, slot, item, root).buckets,
            after_observe(store, limits, slot, item, root).lowest_permissible_slot,
            limits.capacity,
            limits.default_per_slot,
            slot,
        ) == after_observe(store, limits, slot, item, root).buckets,
        slot_position(after_observe(store, limits, slot, item, root).buckets, slot)
            == slot_position(
            routed(
                store.buckets,
                store.lowest_permissible_slot,
                limits.capacity,
                limits.default_per_slot,
                slot,
            ),
            slot,
        ),
{
    let buckets = store.buckets;
    let floor = store.lowest_permissible_slot;
    let capacity = limits.capacity;
    let max_per_slot = limits.max_per_slot;
    let default_capacity = limits.default_per_slot;
    lemma_routed_valid(buckets, floor, capacity, max_per_slot, default_capacity, slot);
    lemma_observed_valid(store, limits, slot, item, root);
    let after = observed_buckets(
        buckets,
        floor,
        capacity,
        max_per_slot,
        default_capacity,
        slot,
        item,
        root,
    );
    let new_floor = observed_floor(floor, capacity, slot);
    let routed = routed(buckets, floor, capacity, default_capacity, slot);
    let i = slot_position(routed, slot);
    assert(after[i].slot == slot);
    lemma_slot_position(after, slot, i);
    lemma_pruned_all(after, new_floor);
}

/// After an aggregate was observed as new, observing it again at once reports a
/// subset and changes nothing, and the aggregate is known as a subset.
pub proof fn lemma_ring_reobserve_is_subset(
    store: StoreView,
    limits: Limits,
    slot: Slot,
    item: Option<Seq<bool>>,
    root: Hash256,
)
    requires
        store_valid(store, limits),
        observe_verdict(store, limits, slot, item, Some(root)) == Ok::<ObserveOutcome, Error>(
            ObserveOutcome::New,
        ),
    ensures
        observe_verdict(
            after_observe(store, limits, slot, item, Some(root)),
            limits,
            slot,
            item,
            Some(root),
        ) == Ok::<ObserveOutcome, Error>(ObserveOutcome::Subset),
        after_observe(
            after_observe(store, limits, slot, item, Some(root)),
            limits,
            slot,
            item,
            Some(root),
        ) == after_observe(store, limits, slot, item, Some(root)),
        known_subset_verdict(after_observe(store, limits, slot, item, Some(root)), slot, item, root)
            == Ok::<bool, Error>(true),
{
    let buckets = store.buckets;
    let floor = store.lowest_permissible_slot;
    let capacity = limits.capacity;
    let max_per_slot = limits.max_per_slot;
    let default_capacity = limits.default_per_slot;
    lemma_route_again(store, limits, slot, item, Some(root));
    let routed = routed(buckets, floor, capacity, default_capacity, slot);
    let i = slot_position(routed, slot);
    lemma_routed_valid(buckets, floor, capacity, max_per_slot, default_capacity, slot);
    lemma_reobserve_is_subset(routed[i].entries, max_per_slot, item, root);
    let after = observed_buckets(
        buckets,
        floor,
        capacity,
        max_per_slot,
        default_capacity,
        slot,
        item,
        Some(root),
    );
    assert(after[i].slot == slot);
    assert(after.update(i, after[i]) =~= after);
}

/// Where `a` was observed as new and then at once `b`, of the same slot and
/// identity and with every bit of `a`, was observed as new too, `b` took the
/// place of stored bits rather than a new place, and `a` is still known as a
/// subset.
pub proof fn lemma_ring_superset_absorbs(
    store: StoreView,
    limits: Limits,
    slot: Slot,
    a: Option<Seq<bool>>,
    b: Option<Seq<bool>>,
    root: Hash256,
)
    requires
        store_valid(store, limits),
        a is Some,
        b is Some,
        is_subset_of(a->0, b->0),
        observe_verdict(store, limits, slot, a, Some(root)) == Ok::<ObserveOutcome, Error>(
            ObserveOutcome::New,
        ),
        observe_verdict(after_observe(store, limits, slot, a, Some(root)), limits, slot, b, Some(root))
            == Ok::<ObserveOutcome, Error>(ObserveOutcome::New),
    ensures
        known_subset_verdict(
            after_observe(
                after_observe(store, limits, slot, a, Some(root)),
                limits,
                slot,
                b,
                Some(root),
            ),
            slot,
            a,
            root,
        ) == Ok::<bool, Error>(true),
        stored_under(
            bucket_entries(
                after_observe(
                    after_observe(store, limits, slot, a, Some(root)),
                    limits,
                    slot,
                    b,
                    Some(root),
                ).buckets,
                slot,
            ),
            root,
        ).len() == stored_under(
            bucket_entries(after_observe(store, limits, slot, a, Some(root)).buckets, slot),
            root,
        ).len(),
{
    let buckets = store.buckets;
    let floor = store.lowest_permissible_slot;
    let capacity = limits.capacity;
    let max_per_slot = limits.max_per_slot;
    let default_capacity = limits.default_per_slot;
    lemma_route_again(store, limits, slot, a, Some(root));
    lemma_routed_valid(buckets, floor, capacity, max_per_slot, default_capacity, slot);
    lemma_observed_valid(store, limits, slot, a, Some(root));
    let routed = routed(buckets, floor, capacity, default_capacity, slot);
    let i = slot_position(routed, slot);
    let first = observed_buckets(
        buckets,
        floor,
        capacity,
        max_per_slot,
        default_capacity,
        slot,
        a,
        Some(root),
    );
    let first_floor = observed_floor(floor, capacity, slot);
    assert(first[i].slot == slot);
    lemma_slot_position(first, slot, i);
    lemma_superset_absorbs(routed[i].entries, max_per_slot, a, b, root);
    let second = observed_buckets(
        first,
        first_floor,
        capacity,
        max_per_slot,
        default_capacity,
        slot,
        b,
        Some(root),
    );
    assert(second[i].slot == slot);
    lemma_observed_valid(after_observe(store, limits, slot, a, Some(root)), limits, slot, b, Some(root));
    lemma_slot_position(second, slot, i);
}

/// An aggregate is both a subset and a superset of the bits that are extracted
/// from it.
pub proof fn lemma_item_related_to_own_bits<S: SubsetItem>(item: S)
    requires
        item.item_view() is Some,
    ensures
        item_is_subset(item.item_view(), item.item_view()->0),
        item_is_superset(item.item_view(), item.item_view()->0),
{
    lemma_subset_reflexive(item.item_view()->0);
}

/// An attestation from before Electra whose bits can be extended compares with
/// stored bits exactly as the Electra attestation with the same bits does, and
/// where the two have the same committee and data, they have the same slot and
/// identity.
pub proof fn lemma_extended_base_equals_electra<E: EthSpec>(
    base: AttestationBase<E>,
    electra: AttestationElectra<E>,
    stored: Seq<bool>,
)
    requires
        base.spec_extend_aggregation_bits() is Some,
        electra.aggregation_bits@ == base.aggregation_bits@,
    ensures
        AttestationRef::Base(&base).item_view() == AttestationRef::Electra(&electra).item_view(),
        item_is_subset(AttestationRef::Base(&base).item_view(), stored) == item_is_subset(
            AttestationRef::Electra(&electra).item_view(),
            stored,
        ),
        item_is_superset(AttestationRef::Base(&base).item_view(), stored) == item_is_superset(
            AttestationRef::Electra(&electra).item_view(),
            stored,
        ),
        electra.data == base.data && first_committee(electra.committee_bits@) == Some(base.data.index)
            ==> AttestationRef::Base(&base).root_view() == AttestationRef::Electra(
            &electra,
        ).root_view() && AttestationRef::Base(&base).slot_view() == AttestationRef::Electra(
            &electra,
        ).slot_view(),
{
}

/// Whether the bits stored under every identity of every bucket are an
/// antichain.
pub open spec fn ring_all_antichains(buckets: Seq<BucketView>) -> bool {
    forall|i: int| 0 <= i < buckets.len() ==> all_antichains((#[trigger] buckets[i]).entries)
}

/// Observing an aggregate keeps the bits stored under every identity of every
/// bucket an antichain, unless the aggregate is a superset of two or more of
/// the bits stored for its slot under its identity.
pub proof fn lemma_ring_observe_keeps_antichains(
    store: StoreView,
    limits: Limits,
    slot: Slot,
    item: Option<Seq<bool>>,
    root: Option<Hash256>,
)
    requires
        store_valid(store, limits),
        ring_all_antichains(store.buckets),
        root matches Some(root) ==> known_subset(bucket_entries(store.buckets, slot), item, root)
            || covers_at_most_one(item, stored_under(bucket_entries(store.buckets, slot), root)),
    ensures
        ring_all_antichains(after_observe(store, limits, slot, item, root).buckets),
{
    let buckets = store.buckets;
    let floor = store.lowest_permissible_slot;
    let capacity = limits.capacity;
    let max_per_slot = limits.max_per_slot;
    let default_capacity = limits.default_per_slot;
    if slot.0 >= floor.0 {
        lemma_routed_valid(buckets, floor, capacity, max_per_slot, default_capacity, slot);
        let routed = routed(buckets, floor, capacity, default_capacity, slot);
        let i = slot_position(routed, slot);
        let after = observed_buckets(
            buckets,
            floor,
            capacity,
            max_per_slot,
            default_capacity,
            slot,
            item,
            root,
        );
        assert(all_antichains(Map::<Hash256, Seq<Seq<bool>>>::empty())) by {
            assert forall|r: Hash256|
                is_antichain(
                    #[trigger] stored_under(Map::<Hash256, Seq<Seq<bool>>>::empty(), r),
                ) by {}
        }
        assert forall|k: int| 0 <= k < routed.len() implies all_antichains(
            (#[trigger] routed[k]).entries,
        ) by {
            if routed[k].slot != slot {
                assert(buckets.contains(routed[k]));
            } else {
                lemma_slot_position(routed, slot, k);
                if has_slot(buckets, slot) {
                    assert(buckets.contains(routed[k]));
                }
            }
        }
        if let Some(root) = root {
            lemma_verdict_depends_on_own_slot(store, limits, slot, item, root);
            lemma_observe_keeps_antichains(routed[i].entries, max_per_slot, item, root);
            assert forall|k: int| 0 <= k < after.len() implies all_antichains(
                (#[trigger] after[k]).entries,
            ) by {
                if k != i {
                    assert(after[k] == routed[k]);
                }
            }
        }
    }
}

/// Pruning for a current slot that is not behind the window does not lower the
/// lowest permissible slot.
pub proof fn lemma_prune_keeps_floor(store: StoreView, limits: Limits, current_slot: Slot)
    requires
        limits.capacity >= 1,
        current_slot.0 >= store.lowest_permissible_slot.0 + (limits.capacity - 1),
    ensures
        after_prune(store, limits, current_slot).lowest_permissible_slot.0
            >= store.lowest_permissible_slot.0,
{
}

/// Pruning keeps the store valid, and pruning twice for the same slot is
/// pruning once.
pub proof fn lemma_prune_valid_and_idempotent(store: StoreView, limits: Limits, current_slot: Slot)
    requires
        store_valid(store, limits),
    ensures
        store_valid(after_prune(store, limits, current_slot), limits),
        after_prune(after_prune(store, limits, current_slot), limits, current_slot) == after_prune(
            store,
            limits,
            current_slot,
        ),
{
    let buckets = store.buckets;
    let floor = pruned_floor(limits, current_slot);
    lemma_pruned_valid(
        buckets,
        store.lowest_permissible_slot,
        floor,
        limits.capacity,
        limits.max_per_slot,
    );
    let keep = |b: BucketView| b.slot.0 >= floor.0;
    assert forall|i: int| 0 <= i < pruned(buckets, floor).len() implies (#[trigger] pruned(
        buckets,
        floor,
    )[i]).slot.0 >= floor.0 by {
        buckets.lemma_filter_pred(keep, i);
    }
    lemma_pruned_all(pruned(buckets, floor), floor);
}

} // verus!
