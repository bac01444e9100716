use vstd::prelude::*;
use crate::bin::{weights_of, Bin, BinView};
use crate::laws::law_bins_within_capacity;

verus! {

/// Why a sequence of items could not be packed.
#[derive(Debug, Clone, Copy, PartialEq, Eq, Structural)]
pub enum PackError {
    /// The bin capacity is zero.
    InvalidCapacity,
    /// The item at `index` weighs more than an empty bin can take.
    OversizedItem { index: usize, weight: u32 },
}

/// The models of a sequence of bins.
pub open spec fn views(bins: Seq<Bin>) -> Seq<BinView> {
    bins.map_values(|bin: Bin| bin@)
}

/// Bin `k` is the first one, in creation order, with room for the weight.
pub open spec fn is_first_fitting(bins: Seq<BinView>, weight: nat, k: int) -> bool {
    &&& 0 <= k < bins.len()
    &&& bins[k].fits(weight)
    &&& forall|j: int| 0 <= j < k ==> !(#[trigger] bins[j]).fits(weight)
}

/// No bin has room for the weight.
pub open spec fn none_fits(bins: Seq<BinView>, weight: nat) -> bool {
    forall|j: int| 0 <= j < bins.len() ==> !(#[trigger] bins[j]).fits(weight)
}

/// The bins after one item has been placed first-fit: it joins the first bin
/// with room for it, or opens a new bin of the given capacity behind the
/// others when there is none.
pub open spec fn placed(bins: Seq<BinView>, weight: nat, capacity: nat) -> Seq<BinView> {
    if exists|k: int| is_first_fitting(bins, weight, k) {
        let k = choose|k: int| is_first_fitting(bins, weight, k);
        bins.update(k, bins[k].with_item(weight))
    } else {
        bins.push(BinView::empty(capacity).with_item(weight))
    }
}

/// The bins that first-fit produces for the items, taken in arrival order.
pub open spec fn packed(items: Seq<nat>, capacity: nat) -> Seq<BinView>
    decreases items.len(),
{
    if items.len() == 0 {
        Seq::empty()
    } else {
        placed(packed(items.drop_last(), capacity), items.last(), capacity)
    }
}

/// Item `i` is the first one that weighs more than the capacity.
pub open spec fn is_first_oversized(items: Seq<nat>, capacity: nat, i: int) -> bool {
    &&& 0 <= i < items.len()
    &&& items[i] > capacity
    &&& forall|j: int| 0 <= j < i ==> #[trigger] items[j] <= capacity
}

/// Every item weighs at most the capacity.
pub open spec fn all_within(items: Seq<nat>, capacity: nat) -> bool {
    forall|j: int| 0 <= j < items.len() ==> #[trigger] items[j] <= capacity
}

/// What packing the items into bins of the given capacity has to return.
pub open spec fn is_outcome(
    outcome: Result<Seq<BinView>, PackError>,
    items: Seq<nat>,
    capacity: nat,
) -> bool {
    match outcome {
        Ok(bins) => capacity > 0 && all_within(items, capacity) && bins == packed(items, capacity),
        Err(PackError::InvalidCapacity) => capacity == 0,
        Err(PackError::OversizedItem { index, weight }) => {
            &&& capacity > 0
            &&& is_first_oversized(items, capacity, index as int)
            &&& weight == items[index as int]
        },
    }
}

/// The model of what `first_fit` returned.
pub open spec fn outcome_of(result: Result<Vec<Bin>, PackError>) -> Result<
    Seq<BinView>,
    PackError,
> {
    match result {
        Ok(bins) => Ok(views(bins@)),
        Err(e) => Err(e),
    }
}

/// At most one bin is the first with room for a weight.
pub proof fn lemma_first_fitting_unique(bins: Seq<BinView>, weight: nat, a: int, b: int)
    requires
        is_first_fitting(bins, weight, a),
        is_first_fitting(bins, weight, b),
    ensures
        a == b,
{
    if a < b {
        assert(!bins[a].fits(weight));
    } else if b < a {
        assert(!bins[b].fits(weight));
    }
}

/// Placing into the first bin with room, spelled out for a known position.
pub proof fn lemma_placed_at(bins: Seq<BinView>, weight: nat, capacity: nat, k: int)
    requires
        is_first_fitting(bins, weight, k),
    ensures
        placed(bins, weight, capacity) == bins.update(k, bins[k].with_item(weight)),
{
    let c = choose|c: int| is_first_fitting(bins, weight, c);
    lemma_first_fitting_unique(bins, weight, c, k);
}

/// Placing when no bin has room opens a new bin.
pub proof fn lemma_placed_new(bins: Seq<BinView>, weight: nat, capacity: nat)
    requires
        none_fits(bins, weight),
    ensures
        placed(bins, weight, capacity) == bins.push(BinView::empty(capacity).with_item(weight)),
{
    assert forall|k: int| !is_first_fitting(bins, weight, k) by {
        if 0 <= k < bins.len() {
            assert(!bins[k].fits(weight));
        }
    }
}

/// Places one item first-fit: into the first bin with room for it, else into
/// a new bin of the given capacity at the end. An item that no bin has room
/// for and that weighs more than the capacity is not placed, and the bins
/// stay as they are.
pub fn place(bins: &mut Vec<Bin>, weight: u32, capacity: u32) -> (done: bool)
    ensures
        done == (weight <= capacity || !none_fits(views(old(bins)@), weight as nat)),
        views(final(bins)@) == if done {
            placed(views(old(bins)@), weight as nat, capacity as nat)
        } else {
            views(old(bins)@)
        },
{
    let ghost before = views(bins@);
    let mut i: usize = 0;
    while i < bins.len()
        invariant
            i <= bins.len(),
            before == views(old(bins)@),
            views(bins@) == before,
            forall|j: int| 0 <= j < i ==> !(#[trigger] before[j]).fits(weight as nat),
        decreases bins.len() - i,
    {
        let ghost k = i as int;
        assert(before[k] == bins@[k]@);
        if bins[i].try_add(weight) {
            proof {
                assert(is_first_fitting(before, weight as nat, k));
                lemma_placed_at(before, weight as nat, capacity as nat, k);
                assert(views(bins@) =~= before.update(k, before[k].with_item(weight as nat)));
            }
            return true;
        }
        assert(views(bins@) =~= before);
        i += 1;
    }
    if weight <= capacity {
        let mut bin = Bin::new(capacity);
        bin.add_item(weight);
        bins.push(bin);
        proof {
            lemma_placed_new(before, weight as nat, capacity as nat);
            assert(views(bins@) =~= before.push(
                BinView::empty(capacity as nat).with_item(weight as nat),
            ));
        }
        true
    } else {
        false
    }
}

/// Packs the items, in the order given, into bins of one capacity by
/// first-fit. A zero capacity and an item heavier than the capacity are
/// reported instead of packed.
pub fn first_fit(objects: &[u32], bin_capacity: u32) -> (result: Result<Vec<Bin>, PackError>)
    ensures
        is_outcome(outcome_of(result), weights_of(objects@), bin_capacity as nat),
        result matches Ok(bins) ==> forall|k: int|
            0 <= k < bins@.len() ==> {
                let bin = (#[trigger] bins@[k])@;
                &&& bin.capacity == bin_capacity
                &&& bin.items.len() > 0
                &&& bin.within_capacity()
            },
{
    if bin_capacity == 0 {
        return Err(PackError::InvalidCapacity);
    }
    let ghost items = weights_of(objects@);
    let ghost capacity = bin_capacity as nat;
    let mut bins: Vec<Bin> = Vec::new();
    let mut i: usize = 0;
    assert(items.take(0) =~= Seq::<nat>::empty());
    assert(views(bins@) =~= Seq::<BinView>::empty());
    while i < objects.len()
        invariant
            i <= objects.len(),
            items == weights_of(objects@),
            capacity == bin_capacity as nat,
            capacity > 0,
            all_within(items.take(i as int), capacity),
            views(bins@) == packed(items.take(i as int), capacity),
        decreases objects.len() - i,
    {
        let object = objects[i];
        if object > bin_capacity {
            proof {
                assert forall|j: int| 0 <= j < i implies #[trigger] items[j] <= capacity by {
                    assert(items.take(i as int)[j] == items[j]);
                }
            }
            return Err(PackError::OversizedItem { index: i, weight: object });
        }
        let done = place(&mut bins, object, bin_capacity);
        proof {
            let next = items.take(i + 1);
            assert(next.drop_last() =~= items.take(i as int));
            assert(next.last() == object as nat);
            assert forall|j: int| 0 <= j < next.len() implies #[trigger] next[j] <= capacity by {
                if j < i {
                    assert(items.take(i as int)[j] == next[j]);
                }
            }
        }
        i += 1;
    }
    proof {
        assert(items.take(i as int) =~= items);
        law_bins_within_capacity(items, capacity);
        assert forall|k: int| 0 <= k < bins@.len() implies {
            let bin = (#[trigger] bins@[k])@;
            &&& bin.capacity == bin_capacity
            &&& bin.items.len() > 0
            &&& bin.within_capacity()
        } by {
            assert(bins@[k]@ == packed(items, capacity)[k]);
        }
    }
    Ok(bins)
}

} // verus!
