use crate::flags::lemma_flags_below;
use crate::like::BitSetLike;
use crate::sparse::{bitset_from_bit_vec, bitset_iter, bitvec_flags, bitvec_from_elem};
use crate::vecbool::flag_at;
use crate::strategy::{valid_sampled, SampledBitSetStrategy};
use bit_set::BitSet;
use core::ops::Range;
use vstd::prelude::*;

verus! {

/// A bit set whose size is found while it is filled, backed by a `BitSet`.
pub struct VarBitSet(BitSet);

impl VarBitSet {
    /// A set with the bits `0..len` set, over `len` bits.
    pub fn saturated(len: usize) -> (r: Self)
        ensures
            r.wf(),
            r.extent() == len,
            forall|i: nat| r.bits().contains(i) <==> i < len,
    {
        let v = bitvec_from_elem(len, true);
        let s = bitset_from_bit_vec(v);
        proof {
            lemma_flags_below(|i: nat| flag_at(bitvec_flags(v), i), len as nat);
        }
        VarBitSet(s)
    }

    /// The set indices, in increasing order.
    pub fn iter(&self) -> (r: Vec<usize>)
        requires
            self.wf(),
        ensures
            forall|a: int, b: int| 0 <= a < b < r@.len() ==> r@[a] < r@[b],
            forall|i: nat| self.bits().contains(i) <==> r@.contains(i as usize) && i <= usize::MAX,
    {
        bitset_iter(&self.0)
    }

    /// The set with exactly the given indices set.
    pub fn from_iter(indices: &Vec<usize>) -> (r: Self)
        requires
            forall|j: int| 0 <= j < indices@.len() ==> #[trigger] indices@[j] < usize::MAX,
        ensures
            r.wf(),
            forall|i: nat| r.bits().contains(i) <==> indices@.contains(i as usize) && i <= usize::MAX,
    {
        let mut r = VarBitSet::new_bitset(indices.len());
        let mut j: usize = 0;
        while j < indices.len()
            invariant
                j <= indices@.len(),
                forall|j: int| 0 <= j < indices@.len() ==> #[trigger] indices@[j] < usize::MAX,
                r.wf(),
                forall|i: nat| #[trigger]
                    r.bits().contains(i) <==> indices@.take(j as int).contains(i as usize) && i <= usize::MAX,
            decreases indices@.len() - j,
        {
            let x: usize = indices[j];
            r.set(x);
            proof {
                let t = indices@.take(j as int + 1);
                assert forall|i: nat| #[trigger] r.bits().contains(i) <==> t.contains(i as usize) && i <= usize::MAX by {
                    if i <= usize::MAX && t.contains(i as usize) {
                        let m = choose|m: int| 0 <= m < t.len() && t[m] == i as usize;
                        if m < j {
                            assert(indices@.take(j as int)[m] == i as usize);
                        }
                    }
                    if i <= usize::MAX && indices@.take(j as int).contains(i as usize) {
                        let m = choose|m: int| 0 <= m < j && indices@.take(j as int)[m] == i as usize;
                        assert(t[m] == i as usize);
                    }
                    if i == x as nat {
                        assert(t[j as int] == x);
                    }
                }
            }
            j = j + 1;
        }
        proof {
            assert(indices@.take(indices@.len() as int) == indices@);
        }
        r
    }
}

impl BitSetLike for VarBitSet {
    closed spec fn bits(&self) -> Set<nat> {
        self.0.bits()
    }

    closed spec fn extent(&self) -> nat {
        self.0.extent()
    }

    open spec fn new_extent(max: nat) -> nat {
        max
    }

    open spec fn len_is_extent() -> bool {
        false
    }

    open spec fn index_limit() -> nat {
        <BitSet as BitSetLike>::index_limit()
    }

    closed spec fn wf(&self) -> bool {
        self.0.wf()
    }

    proof fn lemma_bits_bounded(&self) {
        self.0.lemma_bits_bounded();
    }

    fn new_bitset(max: usize) -> (r: Self) {
        VarBitSet(<BitSet as BitSetLike>::new_bitset(max))
    }

    fn len(&self) -> (r: usize) {
        BitSetLike::len(&self.0)
    }

    fn test(&self, ix: usize) -> (r: bool) {
        self.0.test(ix)
    }

    fn set(&mut self, ix: usize) {
        BitSetLike::set(&mut self.0, ix);
    }

    fn clear(&mut self, ix: usize) {
        BitSetLike::clear(&mut self.0, ix);
    }

    fn count(&self) -> (r: usize) {
        BitSetLike::count(&self.0)
    }

    fn duplicate(&self) -> (r: Self) {
        VarBitSet(self.0.duplicate())
    }
}

/// A sampled strategy over variable-width bit sets.
pub fn sampled(size: Range<usize>, bits: Range<usize>) -> (r: SampledBitSetStrategy<VarBitSet>)
    requires
        valid_sampled(size.start as nat, size.end as nat, bits.start as nat, bits.end as nat),
    ensures
        r.wf(),
        r.size_lo() == size.start,
        r.size_hi() == size.end,
        r.index_lo() == bits.start,
        r.index_hi() == bits.end,
{
    SampledBitSetStrategy::new(size, bits)
}

} // verus!
