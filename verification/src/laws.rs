use vstd::prelude::*;
use vstd::multiset::{group_multiset_axioms, group_multiset_properties, Multiset};
use vstd::seq_lib::to_multiset_build;
use crate::bin::{lemma_total_push, BinView};
use crate::packer::{all_within, is_first_fitting, is_first_oversized, is_outcome, packed, PackError};

verus! {

/// Every bin of a packing has the capacity asked for, holds at least one
/// item, and carries a load within its capacity, provided that no item
/// weighs more than the capacity.
pub proof fn law_bins_within_capacity(items: Seq<nat>, capacity: nat)
    requires
        all_within(items, capacity),
    ensures
        forall|k: int|
            0 <= k < packed(items, capacity).len() ==> {
                let bin = #[trigger] packed(items, capacity)[k];
                &&& bin.capacity == capacity
                &&& bin.items.len() > 0
                &&& bin.within_capacity()
            },
    decreases items.len(),
{
    if items.len() > 0 {
        let earlier = items.drop_last();
        let weight = items.last();
        let bins = packed(earlier, capacity);
        assert(all_within(earlier, capacity)) by {
            assert forall|j: int| 0 <= j < earlier.len() implies #[trigger] earlier[j]
                <= capacity by {
                assert(earlier[j] == items[j]);
            }
        }
        law_bins_within_capacity(earlier, capacity);
        if exists|k: int| is_first_fitting(bins, weight, k) {
            let k = choose|k: int| is_first_fitting(bins, weight, k);
            lemma_total_push(bins[k].items, weight);
        } else {
            lemma_total_push(Seq::empty(), weight);
            assert(items[items.len() - 1] <= capacity);
        }
    }
}

/// All the weights held by a sequence of bins, each as often as it occurs.
pub open spec fn contents(bins: Seq<BinView>) -> Multiset<nat>
    decreases bins.len(),
{
    if bins.len() == 0 {
        Multiset::empty()
    } else {
        contents(bins.drop_last()).add(bins.last().items.to_multiset())
    }
}

proof fn lemma_contents_push(bins: Seq<BinView>, bin: BinView)
    ensures
        contents(bins.push(bin)) == contents(bins).add(bin.items.to_multiset()),
{
    assert(bins.push(bin).drop_last() =~= bins);
}

proof fn lemma_contents_with_item(bins: Seq<BinView>, k: int, weight: nat)
    requires
        0 <= k < bins.len(),
    ensures
        contents(bins.update(k, bins[k].with_item(weight))) == contents(bins).insert(weight),
    decreases bins.len(),
{
    broadcast use group_multiset_axioms, group_multiset_properties;

    let after = bins.update(k, bins[k].with_item(weight));
    if k == bins.len() - 1 {
        assert(after.drop_last() =~= bins.drop_last());
        to_multiset_build(bins[k].items, weight);
        assert(contents(after) =~= contents(bins).insert(weight));
    } else {
        let front = bins.drop_last();
        assert(after.drop_last() =~= front.update(k, front[k].with_item(weight)));
        lemma_contents_with_item(front, k, weight);
        assert(contents(after) =~= contents(bins).insert(weight));
    }
}

/// A packing holds exactly the items that were given: each weight occurs in
/// the bins, taken together, as often as it occurs in the input.
pub proof fn law_every_item_kept(items: Seq<nat>, capacity: nat)
    ensures
        contents(packed(items, capacity)) == items.to_multiset(),
    decreases items.len(),
{
    broadcast use group_multiset_axioms, group_multiset_properties;

    if items.len() == 0 {
        assert(items.to_multiset().len() == 0) by {
            items.to_multiset_ensures();
        }
        assert(contents(packed(items, capacity)) =~= items.to_multiset());
    } else {
        let earlier = items.drop_last();
        let weight = items.last();
        let bins = packed(earlier, capacity);
        law_every_item_kept(earlier, capacity);
        assert(earlier.push(weight) =~= items);
        to_multiset_build(earlier, weight);
        if exists|k: int| is_first_fitting(bins, weight, k) {
            let k = choose|k: int| is_first_fitting(bins, weight, k);
            lemma_contents_with_item(bins, k, weight);
        } else {
            let bin = BinView::empty(capacity).with_item(weight);
            lemma_contents_push(bins, bin);
            to_multiset_build(Seq::<nat>::empty(), weight);
            assert(Seq::<nat>::empty().to_multiset() =~= Multiset::<nat>::empty()) by {
                Seq::<nat>::empty().to_multiset_ensures();
            }
            assert(contents(packed(items, capacity)) =~= items.to_multiset());
        }
    }
}

/// The outcome of packing is fixed by the items and the capacity: two
/// outcomes that both answer to the same input are the same, bin for bin and
/// item for item, or the same error.
pub proof fn law_outcome_unique(
    first: Result<Seq<BinView>, PackError>,
    second: Result<Seq<BinView>, PackError>,
    items: Seq<nat>,
    capacity: nat,
)
    requires
        is_outcome(first, items, capacity),
        is_outcome(second, items, capacity),
    ensures
        first == second,
{
    match (first, second) {
        (
            Err(PackError::OversizedItem { index: a, weight: _ }),
            Err(PackError::OversizedItem { index: b, weight: _ }),
        ) => {
            lemma_first_oversized_unique(items, capacity, a as int, b as int);
        },
        (Err(PackError::OversizedItem { index, weight: _ }), Ok(_)) => {
            assert(items[index as int] <= capacity);
        },
        (Ok(_), Err(PackError::OversizedItem { index, weight: _ })) => {
            assert(items[index as int] <= capacity);
        },
        _ => {},
    }
}

proof fn lemma_first_oversized_unique(items: Seq<nat>, capacity: nat, a: int, b: int)
    requires
        is_first_oversized(items, capacity, a),
        is_first_oversized(items, capacity, b),
    ensures
        a == b,
{
    if a < b {
        assert(items[a] <= capacity);
    } else if b < a {
        assert(items[b] <= capacity);
    }
}

/// For each bin of a packing, the arrival positions of the items in it, in
/// the order in which the bin holds them.
pub open spec fn positions(items: Seq<nat>, capacity: nat) -> Seq<Seq<int>>
    decreases items.len(),
{
    if items.len() == 0 {
        Seq::empty()
    } else {
        let earlier = items.drop_last();
        let bins = packed(earlier, capacity);
        let slots = positions(earlier, capacity);
        let last = items.len() - 1;
        if exists|k: int| is_first_fitting(bins, items.last(), k) {
            let k = choose|k: int| is_first_fitting(bins, items.last(), k);
            slots.update(k, slots[k].push(last))
        } else {
            slots.push(seq![last])
        }
    }
}

/// `j` is a place in bin `k`.
pub open spec fn is_slot(slots: Seq<Seq<int>>, k: int, j: int) -> bool {
    0 <= k < slots.len() && 0 <= j < slots[k].len()
}

/// The positions have the shape of the bins and name the items in them.
pub open spec fn positions_match(items: Seq<nat>, capacity: nat) -> bool {
    let bins = packed(items, capacity);
    let slots = positions(items, capacity);
    &&& slots.len() == bins.len()
    &&& forall|k: int| 0 <= k < slots.len() ==> (#[trigger] slots[k]).len() == bins[k].items.len()
    &&& forall|k: int, j: int|
        #![trigger is_slot(slots, k, j)]
        is_slot(slots, k, j) ==> 0 <= slots[k][j] < items.len() && bins[k].items[j]
            == items[slots[k][j]]
}

/// Within each bin the positions grow from one place to the next.
pub open spec fn positions_ascend(items: Seq<nat>, capacity: nat) -> bool {
    let slots = positions(items, capacity);
    forall|k: int, i: int, j: int|
        #![trigger is_slot(slots, k, i), is_slot(slots, k, j)]
        is_slot(slots, k, i) && is_slot(slots, k, j) && i < j ==> slots[k][i] < slots[k][j]
}

/// Some place of some bin names arrival position `i`.
pub open spec fn is_held(slots: Seq<Seq<int>>, i: int) -> bool {
    exists|k: int, j: int| #[trigger] is_slot(slots, k, j) && slots[k][j] == i
}

/// Every arrival position occurs at some place of some bin.
pub open spec fn positions_cover(items: Seq<nat>, capacity: nat) -> bool {
    let slots = positions(items, capacity);
    forall|i: int| 0 <= i < items.len() ==> #[trigger] is_held(slots, i)
}

/// No arrival position occurs at two places.
pub open spec fn positions_distinct(items: Seq<nat>, capacity: nat) -> bool {
    let slots = positions(items, capacity);
    forall|k1: int, j1: int, k2: int, j2: int|
        #![trigger is_slot(slots, k1, j1), is_slot(slots, k2, j2)]
        is_slot(slots, k1, j1) && is_slot(slots, k2, j2) && slots[k1][j1] == slots[k2][j2] ==> k1
            == k2 && j1 == j2
}

proof fn lemma_positions(items: Seq<nat>, capacity: nat)
    ensures
        positions_match(items, capacity),
        positions_ascend(items, capacity),
        positions_cover(items, capacity),
        positions_distinct(items, capacity),
    decreases items.len(),
{
    if items.len() > 0 {
        let earlier = items.drop_last();
        let weight = items.last();
        let last = items.len() - 1;
        let old_bins = packed(earlier, capacity);
        let old_slots = positions(earlier, capacity);
        let bins = packed(items, capacity);
        let slots = positions(items, capacity);
        lemma_positions(earlier, capacity);
        // Where the last item went: bin `home`, place `seat`.
        let fitted = exists|k: int| is_first_fitting(old_bins, weight, k);
        let home = if fitted {
            choose|k: int| is_first_fitting(old_bins, weight, k)
        } else {
            old_slots.len() as int
        };
        let seat = if fitted {
            old_slots[home].len() as int
        } else {
            0
        };
        assert(is_slot(slots, home, seat) && slots[home][seat] == last);
        assert(bins[home].items[seat] == weight);
        // Every other place is a place of the earlier packing, unchanged.
        assert forall|k: int, j: int| is_slot(slots, k, j) && !(k == home && j == seat) implies {
            &&& #[trigger] is_slot(old_slots, k, j)
            &&& slots[k][j] == old_slots[k][j]
            &&& bins[k].items[j] == old_bins[k].items[j]
        } by {
            if fitted {
                assert(old_slots[k].len() == old_bins[k].items.len());
            } else {
                if k < old_slots.len() {
                    assert(old_slots[k].len() == old_bins[k].items.len());
                }
            }
        }
        assert forall|k: int, j: int| is_slot(old_slots, k, j) implies {
            &&& #[trigger] is_slot(slots, k, j)
            &&& slots[k][j] == old_slots[k][j]
        } by {}
        assert(positions_match(items, capacity)) by {
            assert forall|k: int| 0 <= k < slots.len() implies (#[trigger] slots[k]).len()
                == bins[k].items.len() by {
                if k < old_slots.len() {
                    assert(old_slots[k].len() == old_bins[k].items.len());
                }
            }
            assert forall|k: int, j: int| #[trigger] is_slot(slots, k, j) implies 0
                <= slots[k][j] < items.len() && bins[k].items[j] == items[slots[k][j]] by {
                if !(k == home && j == seat) {
                    assert(is_slot(old_slots, k, j));
                    assert(earlier[old_slots[k][j]] == items[old_slots[k][j]]);
                }
            }
        }
        assert(positions_ascend(items, capacity)) by {
            assert forall|k: int, i: int, j: int|
                #![trigger is_slot(slots, k, i), is_slot(slots, k, j)]
                is_slot(slots, k, i) && is_slot(slots, k, j) && i < j implies slots[k][i]
                < slots[k][j] by {
                assert(is_slot(old_slots, k, i));
                if !(k == home && j == seat) {
                    assert(is_slot(old_slots, k, j));
                }
            }
        }
        assert(positions_cover(items, capacity)) by {
            assert forall|i: int| 0 <= i < items.len() implies #[trigger] is_held(slots, i) by {
                if i < last {
                    assert(is_held(old_slots, i));
                    let (k, j) = choose|k: int, j: int| #[trigger]
                        is_slot(old_slots, k, j) && old_slots[k][j] == i;
                    assert(is_slot(slots, k, j) && slots[k][j] == i);
                } else {
                    assert(is_slot(slots, home, seat) && slots[home][seat] == i);
                }
            }
        }
        assert(positions_distinct(items, capacity)) by {
            assert forall|k1: int, j1: int, k2: int, j2: int|
                #![trigger is_slot(slots, k1, j1), is_slot(slots, k2, j2)]
                is_slot(slots, k1, j1) && is_slot(slots, k2, j2) && slots[k1][j1]
                == slots[k2][j2] implies k1 == k2 && j1 == j2 by {
                if !(k1 == home && j1 == seat) {
                    assert(is_slot(old_slots, k1, j1));
                }
                if !(k2 == home && j2 == seat) {
                    assert(is_slot(old_slots, k2, j2));
                }
            }
        }
    }
}

/// Within every bin the items stand in the order in which they arrived: the
/// bin's items are the input's items at positions that grow from one place
/// of the bin to the next.
pub proof fn law_order_preserved(items: Seq<nat>, capacity: nat)
    ensures
        positions_match(items, capacity),
        positions_ascend(items, capacity),
{
    lemma_positions(items, capacity);
}

/// Every input item lies in exactly one bin: each arrival position is named
/// by a place of some bin, by no second place, and every place names the
/// item at its position.
pub proof fn law_each_item_in_one_bin(items: Seq<nat>, capacity: nat)
    ensures
        positions_match(items, capacity),
        positions_cover(items, capacity),
        positions_distinct(items, capacity),
{
    lemma_positions(items, capacity);
}

} // verus!
