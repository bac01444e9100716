use vstd::prelude::*;

verus! {

/// Sum of a sequence of weights.
pub open spec fn total(weights: Seq<nat>) -> nat
    decreases weights.len(),
{
    if weights.len() == 0 {
        0
    } else {
        total(weights.drop_last()) + weights.last()
    }
}

/// The weights of a sequence of machine integers, as natural numbers.
pub open spec fn weights_of(items: Seq<u32>) -> Seq<nat> {
    items.map_values(|w: u32| w as nat)
}

/// Appending one weight adds it to the total.
pub proof fn lemma_total_push(weights: Seq<nat>, w: nat)
    ensures
        total(weights.push(w)) == total(weights) + w,
{
    assert(weights.push(w).drop_last() =~= weights);
}

/// The total of a prefix never exceeds the total of the whole sequence.
pub proof fn lemma_total_prefix(weights: Seq<nat>, n: int)
    requires
        0 <= n <= weights.len(),
    ensures
        total(weights.take(n)) <= total(weights),
    decreases weights.len() - n,
{
    if n < weights.len() {
        lemma_total_prefix(weights, n + 1);
        assert(weights.take(n + 1).drop_last() =~= weights.take(n));
    } else {
        assert(weights.take(n) =~= weights);
    }
}

/// Mathematical model of a bin: its capacity and the weights placed in it,
/// oldest first.
pub struct BinView {
    pub capacity: nat,
    pub items: Seq<nat>,
}

impl BinView {
    /// A bin of the given capacity that holds nothing.
    pub open spec fn empty(capacity: nat) -> BinView {
        BinView { capacity, items: Seq::empty() }
    }

    /// Sum of the weights in the bin.
    pub open spec fn load(self) -> nat {
        total(self.items)
    }

    /// The load stays within the capacity.
    pub open spec fn within_capacity(self) -> bool {
        self.load() <= self.capacity
    }

    /// Room left in the bin.
    pub open spec fn remaining(self) -> int {
        self.capacity - self.load()
    }

    /// One more item of this weight would still be within the capacity.
    pub open spec fn fits(self, weight: nat) -> bool {
        self.load() + weight <= self.capacity
    }

    /// The bin after one more item has been appended.
    pub open spec fn with_item(self, weight: nat) -> BinView {
        BinView { capacity: self.capacity, items: self.items.push(weight) }
    }
}

/// A container with a fixed capacity and the items committed to it, in the
/// order in which they arrived. The load of a bin never exceeds its capacity.
#[derive(Debug)]
pub struct Bin {
    capacity: u32,
    items: Vec<u32>,
}

impl View for Bin {
    type V = BinView;

    closed spec fn view(&self) -> BinView {
        BinView { capacity: self.capacity as nat, items: weights_of(self.items@) }
    }
}

impl Bin {
    #[verifier::type_invariant]
    spec fn load_within_capacity(self) -> bool {
        total(weights_of(self.items@)) <= self.capacity
    }

    /// An empty bin of the given capacity.
    pub fn new(capacity: u32) -> (bin: Bin)
        ensures
            bin@ == BinView::empty(capacity as nat),
    {
        let bin = Bin { capacity, items: Vec::new() };
        assert(weights_of(bin.items@) =~= Seq::<nat>::empty());
        bin
    }

    /// The capacity the bin was created with.
    pub fn capacity(&self) -> (capacity: u32)
        ensures
            capacity == self@.capacity,
    {
        self.capacity
    }

    /// The items in the bin, oldest first.
    pub fn items(&self) -> (items: &[u32])
        ensures
            weights_of(items@) == self@.items,
    {
        self.items.as_slice()
    }

    /// Sum of the items in the bin.
    pub fn load(&self) -> (load: u32)
        ensures
            load == self@.load(),
    {
        proof {
            use_type_invariant(self);
        }
        let ghost weights = weights_of(self.items@);
        let mut load: u32 = 0;
        let mut i: usize = 0;
        while i < self.items.len()
            invariant
                i <= self.items.len(),
                weights == weights_of(self.items@),
                total(weights) <= self.capacity,
                load == total(weights.take(i as int)),
            decreases self.items.len() - i,
        {
            proof {
                lemma_total_prefix(weights, i + 1);
                assert(weights.take(i + 1).drop_last() =~= weights.take(i as int));
            }
            load = load + self.items[i];
            i += 1;
        }
        assert(weights.take(i as int) =~= weights);
        load
    }

    /// Room left in the bin.
    pub fn remaining_capacity(&self) -> (remaining: u32)
        ensures
            remaining == self@.remaining(),
    {
        proof {
            use_type_invariant(self);
        }
        let load = self.load();
        self.capacity - load
    }

    /// Whether one more item of this weight stays within the capacity.
    pub fn can_fit(&self, weight: u32) -> (fits: bool)
        ensures
            fits == self@.fits(weight as nat),
    {
        weight <= self.remaining_capacity()
    }

    /// Appends an item that the bin has room for.
    pub fn add_item(&mut self, weight: u32)
        requires
            old(self)@.fits(weight as nat),
        ensures
            final(self)@ == old(self)@.with_item(weight as nat),
    {
        proof {
            use_type_invariant(&*self);
            lemma_total_push(weights_of(self.items@), weight as nat);
            assert(weights_of(self.items@.push(weight)) =~= weights_of(self.items@).push(
                weight as nat,
            ));
            assert(weights_of(Seq::<u32>::empty()) =~= Seq::<nat>::empty());
        }
        // The push happens on a vector held outside the bin, so that the bin
        // is within its capacity at every point where the push could unwind.
        let mut items: Vec<u32> = Vec::new();
        std::mem::swap(&mut self.items, &mut items);
        items.push(weight);
        std::mem::swap(&mut self.items, &mut items);
    }

    /// Appends the item if the bin has room for it, and says whether it did.
    pub fn try_add(&mut self, weight: u32) -> (placed: bool)
        ensures
            placed == old(self)@.fits(weight as nat),
            final(self)@ == if placed {
                old(self)@.with_item(weight as nat)
            } else {
                old(self)@
            },
    {
        if self.can_fit(weight) {
            self.add_item(weight);
            true
        } else {
            false
        }
    }
}

} // verus!
