use vstd::prelude::*;

verus! {

/// A container of bit flags addressed by indices from zero.
///
/// The model of a value is the set of indices whose bit is set, `bits()`, and
/// its extent, `extent()`: the addressable length, below which every set index
/// lies. A fixed-width integer's extent is its width; a growable container's
/// extent is the number of flags it holds.
pub trait BitSetLike: Sized {
    /// The indices whose bit is set.
    spec fn bits(&self) -> Set<nat>;

    /// The addressable length.
    spec fn extent(&self) -> nat;

    /// The extent of the value that `new_bitset(max)` makes.
    spec fn new_extent(max: nat) -> nat;

    /// Whether `len` reports the extent itself, rather than a bound above it.
    spec fn len_is_extent() -> bool;

    /// Every index that `set` accepts is below this bound.
    spec fn index_limit() -> nat;

    /// The value is well formed: its set bits lie below its extent, which
    /// lies at or below `index_limit()`.
    spec fn wf(&self) -> bool;

    /// The set bits of a well-formed value are finitely many, all below the
    /// extent, and the extent is at most `index_limit()`.
    proof fn lemma_bits_bounded(&self)
        requires
            self.wf(),
        ensures
            self.bits().finite(),
            forall|i: nat| self.bits().contains(i) ==> i < self.extent(),
            self.extent() <= Self::index_limit(),
    ;

    /// A value with no bit set, and room for `max` bits where `max` is
    /// within `index_limit()`.
    fn new_bitset(max: usize) -> (r: Self)
        ensures
            r.wf(),
            r.bits() == Set::<nat>::empty(),
            r.extent() == Self::new_extent(max as nat),
            max <= Self::index_limit() ==> max <= r.extent(),
    ;

    /// An upper bound on the greatest set index plus one: the extent, or
    /// above it where `len_is_extent()` does not hold.
    fn len(&self) -> (r: usize)
        requires
            self.wf(),
        ensures
            self.extent() <= r <= Self::index_limit(),
            Self::len_is_extent() ==> r == self.extent(),
    ;

    /// Whether the bit at `ix` is set.
    fn test(&self, ix: usize) -> (r: bool)
        requires
            self.wf(),
        ensures
            r == self.bits().contains(ix as nat),
    ;

    /// Sets the bit at `ix`, growing the extent to `ix + 1` where it is shorter.
    fn set(&mut self, ix: usize)
        requires
            old(self).wf(),
            ix < Self::index_limit(),
        ensures
            final(self).wf(),
            final(self).bits() == old(self).bits().insert(ix as nat),
            final(self).extent() == (if ix < old(self).extent() {
                old(self).extent()
            } else {
                (ix + 1) as nat
            }),
    ;

    /// Clears the bit at `ix`; the extent stays.
    fn clear(&mut self, ix: usize)
        requires
            old(self).wf(),
        ensures
            final(self).wf(),
            final(self).bits() == old(self).bits().remove(ix as nat),
            final(self).extent() == old(self).extent(),
    ;

    /// The number of set bits.
    fn count(&self) -> (r: usize)
        requires
            self.wf(),
        ensures
            r == self.bits().len(),
    ;

    /// An independent value with the same set bits and extent.
    fn duplicate(&self) -> (r: Self)
        requires
            self.wf(),
        ensures
            r.wf(),
            r.bits() == self.bits(),
            r.extent() == self.extent(),
    ;
}

} // verus!
