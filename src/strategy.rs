use crate::like::BitSetLike;
use crate::rng::{choose_indices, coin, uniform_incl};
use crate::tree::BitSetValueTree;
use core::marker::PhantomData;
use core::ops::Range;
use rand::rngs::StdRng;
use vstd::prelude::*;

verus! {

/// Generates values whose bits between two bounds, or within a mask, are
/// each set by a fair coin. Shrinking clears bits one at a time.
pub struct BitSetStrategy<T: BitSetLike> {
    min: usize,
    max: usize,
    mask: Option<T>,
}

impl<T: BitSetLike> BitSetStrategy<T> {
    /// Whether index `i` may be set in a generated value.
    pub closed spec fn allowed(&self, i: nat) -> bool {
        &&& self.min <= i < self.max
        &&& match self.mask {
            Some(m) => m.bits().contains(i),
            None => true,
        }
    }

    /// The lower bound of the allowed indices, where shrinking starts.
    pub closed spec fn lower(&self) -> nat {
        self.min as nat
    }

    /// The upper bound of the allowed indices, exclusive: the extent asked
    /// of each generated value.
    pub closed spec fn upper(&self) -> nat {
        self.max as nat
    }

    /// The number of indices in `[min, max)`.
    pub closed spec fn width(&self) -> nat {
        (self.max - self.min) as nat
    }

    /// The bounds are ordered, and a value of `T` can hold every allowed index.
    pub closed spec fn wf(&self) -> bool {
        &&& self.min <= self.max
        &&& self.max <= T::index_limit()
        &&& match self.mask {
            Some(m) => m.wf(),
            None => true,
        }
    }

    /// A strategy whose values may have any bit in `[min, max)` set.
    pub fn new(min: usize, max: usize) -> (r: Self)
        requires
            min <= max,
            max <= T::index_limit(),
        ensures
            r.wf(),
            r.lower() == min,
            r.upper() == max,
            r.width() == max - min,
            forall|i: nat| r.allowed(i) <==> min <= i < max,
    {
        BitSetStrategy { min, max, mask: None }
    }

    /// A strategy whose values may have set exactly the bits that `mask` has set.
    pub fn masked(mask: T) -> (r: Self)
        requires
            mask.wf(),
        ensures
            r.wf(),
            r.lower() == 0,
            r.upper() >= mask.extent(),
            T::len_is_extent() ==> r.upper() == mask.extent(),
            r.width() == r.upper(),
            forall|i: nat| r.allowed(i) <==> mask.bits().contains(i),
    {
        proof {
            mask.lemma_bits_bounded();
        }
        let max: usize = mask.len();
        BitSetStrategy { min: 0, max, mask: Some(mask) }
    }

    /// The number of indices between the bounds: one coin is drawn for each.
    pub fn coin_count(&self) -> (r: usize)
        requires
            self.wf(),
        ensures
            r == self.width(),
    {
        self.max - self.min
    }

    /// The value in which an allowed index `i` is set when `coins[i - min]`
    /// is true, and nothing else is set.
    pub fn value_from_coins(&self, coins: &Vec<bool>) -> (r: T)
        requires
            self.wf(),
            coins@.len() == self.width(),
        ensures
            r.wf(),
            r.extent() == T::new_extent(self.upper()),
            forall|i: nat| #[trigger]
                r.bits().contains(i) <==> self.allowed(i) && coins@[i - self.lower()],
    {
        let mut inner = T::new_bitset(self.max);
        let mut bit: usize = self.min;
        while bit < self.max
            invariant
                self.wf(),
                coins@.len() == self.max - self.min,
                self.min <= bit <= self.max,
                inner.wf(),
                inner.extent() == T::new_extent(self.max as nat),
                self.max <= inner.extent(),
                forall|i: nat| #[trigger]
                    inner.bits().contains(i) <==> i < bit && self.allowed(i) && coins@[i - self.min],
            decreases self.max - bit,
        {
            let allowed = match &self.mask {
                Some(m) => m.test(bit),
                None => true,
            };
            if allowed && coins[bit - self.min] {
                inner.set(bit);
            }
            bit = bit + 1;
        }
        inner
    }

    /// Draws a value, each allowed index set by its own fair coin, and the
    /// tree that shrinks it from the lower bound down to no bit set.
    pub fn new_tree(&self, rng: &mut StdRng) -> (r: BitSetValueTree<T>)
        requires
            self.wf(),
        ensures
            r.wf(),
            forall|i: nat| #[trigger] r.value().contains(i) ==> self.allowed(i),
            r.extent() == T::new_extent(self.upper()),
            r.cursor() == self.lower(),
            r.pending() is None,
            r.floor() == 0,
    {
        let mut coins: Vec<bool> = Vec::new();
        let mut bit: usize = self.min;
        while bit < self.max
            invariant
                self.wf(),
                self.min <= bit <= self.max,
                coins@.len() == bit - self.min,
            decreases self.max - bit,
        {
            let allowed = match &self.mask {
                Some(m) => m.test(bit),
                None => true,
            };
            let c = allowed && coin(rng);
            coins.push(c);
            bit = bit + 1;
        }
        let inner = self.value_from_coins(&coins);
        BitSetValueTree::start(inner, self.min, 0)
    }
}

/// Generates values with a number of set bits drawn from a size range, the
/// bits chosen uniformly without replacement from an index range.
pub struct SampledBitSetStrategy<T: BitSetLike> {
    size: Range<usize>,
    bits: Range<usize>,
    _marker: PhantomData<T>,
}

impl<T: BitSetLike> SampledBitSetStrategy<T> {
    /// The least number of set bits, inclusive.
    pub closed spec fn size_lo(&self) -> nat {
        self.size.start as nat
    }

    /// The greatest number of set bits, exclusive.
    pub closed spec fn size_hi(&self) -> nat {
        self.size.end as nat
    }

    /// The least index that may be set, inclusive.
    pub closed spec fn index_lo(&self) -> nat {
        self.bits.start as nat
    }

    /// The greatest index that may be set, exclusive.
    pub closed spec fn index_hi(&self) -> nat {
        self.bits.end as nat
    }

    /// The size range is not empty, its greatest count fits in the index
    /// range, and a value of `T` can hold every index of that range.
    pub closed spec fn wf(&self) -> bool {
        valid_sampled(self.size.start as nat, self.size.end as nat, self.bits.start as nat, self.bits.end as nat)
            && self.bits.end <= T::index_limit()
    }

    /// A strategy whose values have between `size.start` and `size.end - 1`
    /// bits set, all within `bits`. A size range whose greatest count exceeds
    /// the number of indices in `bits` is not a strategy.
    pub fn new(size: Range<usize>, bits: Range<usize>) -> (r: Self)
        requires
            valid_sampled(size.start as nat, size.end as nat, bits.start as nat, bits.end as nat),
            bits.end <= T::index_limit(),
        ensures
            r.wf(),
            r.size_lo() == size.start,
            r.size_hi() == size.end,
            r.index_lo() == bits.start,
            r.index_hi() == bits.end,
    {
        SampledBitSetStrategy { size, bits, _marker: PhantomData }
    }

    /// The tree over the value in which exactly the indices of `chosen` are set.
    pub fn value_from_choice(&self, chosen: &Vec<usize>) -> (r: BitSetValueTree<T>)
        requires
            self.wf(),
            chosen@.no_duplicates(),
            self.size_lo() <= chosen@.len(),
            forall|j: int| 0 <= j < chosen@.len() ==> self.index_lo() <= #[trigger] chosen@[j] < self.index_hi(),
        ensures
            r.wf(),
            forall|i: nat| #[trigger] r.value().contains(i) <==> chosen@.contains(i as usize) && i <= usize::MAX,
            r.value().len() == chosen@.len(),
            r.extent() == T::new_extent(self.index_hi()),
            r.cursor() == self.index_lo(),
            r.pending() is None,
            r.floor() == self.size_lo(),
    {
        let mut inner = T::new_bitset(self.bits.end);
        let mut j: usize = 0;
        while j < chosen.len()
            invariant
                self.wf(),
                chosen@.no_duplicates(),
                forall|j: int| 0 <= j < chosen@.len() ==> self.index_lo() <= #[trigger] chosen@[j] < self.index_hi(),
                j <= chosen@.len(),
                inner.wf(),
                inner.extent() == T::new_extent(self.bits.end as nat),
                self.bits.end <= inner.extent(),
                inner.bits().len() == j,
                forall|i: nat| #[trigger]
                    inner.bits().contains(i) <==> chosen@.take(j as int).contains(i as usize) && i <= usize::MAX,
            decreases chosen@.len() - j,
        {
            let ghost pre = inner.bits();
            proof {
                inner.lemma_bits_bounded();
                assert(!chosen@.take(j as int).contains(chosen@[j as int]));
                assert(!pre.contains(chosen@[j as int] as nat));
                assert(chosen@.take(j as int + 1) == chosen@.take(j as int).push(chosen@[j as int]));
            }
            let x: usize = chosen[j];
            inner.set(x);
            proof {
                let t = chosen@.take(j as int + 1);
                assert forall|i: nat| #[trigger] inner.bits().contains(i) <==> t.contains(i as usize) && i <= usize::MAX by {
                    if i <= usize::MAX && t.contains(i as usize) {
                        let m = choose|m: int| 0 <= m < t.len() && t[m] == i as usize;
                        if m < j {
                            assert(chosen@.take(j as int)[m] == i as usize);
                        }
                    }
                    if i <= usize::MAX && chosen@.take(j as int).contains(i as usize) {
                        let m = choose|m: int| 0 <= m < j && chosen@.take(j as int)[m] == i as usize;
                        assert(t[m] == i as usize);
                    }
                    if i == x as nat {
                        assert(t[j as int] == x);
                    }
                }
            }
            j = j + 1;
        }
        proof {
            assert(chosen@.take(chosen@.len() as int) == chosen@);
        }
        BitSetValueTree::start(inner, self.bits.start, self.size.start)
    }

    /// Draws a count from the size range and that many distinct indices from
    /// the index range, and gives the tree over the value with those indices
    /// set. Shrinking never takes the count below the size range's start.
    pub fn new_tree(&self, rng: &mut StdRng) -> (r: BitSetValueTree<T>)
        requires
            self.wf(),
        ensures
            r.wf(),
            self.size_lo() <= r.value().len() < self.size_hi(),
            forall|i: nat| #[trigger] r.value().contains(i) ==> self.index_lo() <= i < self.index_hi(),
            r.extent() == T::new_extent(self.index_hi()),
            r.cursor() == self.index_lo(),
            r.pending() is None,
            r.floor() == self.size_lo(),
    {
        let count: usize = uniform_incl(rng, self.size.start, self.size.end - 1);
        let chosen = choose_indices(rng, self.bits.start, self.bits.end, count);
        let r = self.value_from_choice(&chosen);
        proof {
            assert forall|i: nat| r.value().contains(i) implies self.index_lo() <= i < self.index_hi() by {
                let j = choose|j: int| 0 <= j < chosen@.len() && chosen@[j] == i as usize;
                assert(self.index_lo() <= chosen@[j] < self.index_hi());
            }
        }
        r
    }
}

/// A sampled configuration is valid when the size range `[size_lo, size_hi)`
/// is not empty, the index range `[index_lo, index_hi)` is ordered, and the
/// greatest count `size_hi - 1` does not exceed the number of indices.
pub open spec fn valid_sampled(size_lo: nat, size_hi: nat, index_lo: nat, index_hi: nat) -> bool {
    &&& size_lo < size_hi
    &&& index_lo <= index_hi
    &&& size_hi - 1 <= index_hi - index_lo
}

} // verus!
