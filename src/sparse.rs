use crate::flags::flags_below;
use crate::like::BitSetLike;
use crate::vecbool::flag_at;
use bit_set::BitSet;
use bit_vec::BitVec;
use vstd::prelude::*;

verus! {

/// The sparse bit set of the `bit_set` crate.
#[verifier::external_type_specification]
#[verifier::external_body]
#[verifier::reject_recursive_types(B)]
pub struct ExBitSet<B>(BitSet<B>);

/// The bit vector of the `bit_vec` crate.
#[verifier::external_type_specification]
#[verifier::external_body]
#[verifier::reject_recursive_types(B)]
pub struct ExBitVec<B>(BitVec<B>);

/// The flags of a `bit_vec::BitVec`, in index order.
pub uninterp spec fn bitvec_flags(v: BitVec) -> Seq<bool>;

/// The members of a `bit_set::BitSet`.
pub uninterp spec fn bitset_members(s: BitSet) -> Set<nat>;

/// The length in bits of a `bit_set::BitSet`'s bit vector (not its allocation).
pub uninterp spec fn bitset_nbits(s: BitSet) -> nat;

/// Relies on `BitSet::with_capacity`: an empty set over a bit vector of
/// `nbits` bits.
#[verifier::external_body]
fn bitset_with_capacity(nbits: usize) -> (r: BitSet)
    ensures
        bitset_members(r) == Set::<nat>::empty(),
        bitset_nbits(r) == nbits,
{
    BitSet::with_capacity(nbits)
}

/// Relies on `BitSet::capacity`: the bit vector's allocated bits, at least
/// its length in bits.
#[verifier::external_body]
fn bitset_capacity(s: &BitSet) -> (r: usize)
    ensures
        bitset_nbits(*s) <= r,
{
    s.capacity()
}

/// Relies on `BitSet::contains`: membership of `value`.
#[verifier::external_body]
fn bitset_contains(s: &BitSet, value: usize) -> (r: bool)
    ensures
        r == bitset_members(*s).contains(value as nat),
{
    s.contains(value)
}

/// Relies on `BitSet::insert`: adds `value`, growing the bit vector to
/// `value + 1` bits where it is shorter. `value < usize::MAX` keeps the
/// growth from overflowing.
#[verifier::external_body]
fn bitset_insert(s: &mut BitSet, value: usize)
    requires
        value < usize::MAX,
    ensures
        bitset_members(*final(s)) == bitset_members(*old(s)).insert(value as nat),
        bitset_nbits(*final(s)) == (if value < bitset_nbits(*old(s)) {
            bitset_nbits(*old(s))
        } else {
            (value + 1) as nat
        }),
{
    s.insert(value);
}

/// Relies on `BitSet::remove`: takes `value` out; the bit vector keeps its length.
#[verifier::external_body]
fn bitset_remove(s: &mut BitSet, value: usize)
    ensures
        bitset_members(*final(s)) == bitset_members(*old(s)).remove(value as nat),
        bitset_nbits(*final(s)) == bitset_nbits(*old(s)),
{
    s.remove(value);
}

/// Relies on `BitSet::len`: the number of members.
#[verifier::external_body]
fn bitset_len(s: &BitSet) -> (r: usize)
    ensures
        r == bitset_members(*s).len(),
{
    s.len()
}

/// Relies on `BitSet`'s `Clone`: a set with the same members and bit vector length.
#[verifier::external_body]
fn bitset_clone(s: &BitSet) -> (r: BitSet)
    ensures
        bitset_members(r) == bitset_members(*s),
        bitset_nbits(r) == bitset_nbits(*s),
{
    s.clone()
}

/// Relies on `BitVec::from_elem`: `nbits` flags, each equal to `bit`.
#[verifier::external_body]
pub(crate) fn bitvec_from_elem(nbits: usize, bit: bool) -> (r: BitVec)
    ensures
        bitvec_flags(r) == Seq::new(nbits as nat, |_i: int| bit),
{
    BitVec::from_elem(nbits, bit)
}

/// Relies on `BitSet::from_bit_vec`: the set of the indices whose flag is
/// set, over a bit vector of the same length.
#[verifier::external_body]
pub(crate) fn bitset_from_bit_vec(v: BitVec) -> (r: BitSet)
    ensures
        bitset_members(r) == flags_below(|i: nat| flag_at(bitvec_flags(v), i), bitvec_flags(v).len()),
        bitset_nbits(r) == bitvec_flags(v).len(),
{
    BitSet::from_bit_vec(v)
}

/// Relies on `BitSet::iter`: the members, in increasing order.
#[verifier::external_body]
pub(crate) fn bitset_iter(s: &BitSet) -> (r: Vec<usize>)
    ensures
        forall|j: int| 0 <= j < r@.len() ==> bitset_members(*s).contains(#[trigger] r@[j] as nat),
        forall|i: nat| bitset_members(*s).contains(i) ==> r@.contains(i as usize),
        forall|a: int| #![trigger r@[a]] 0 <= a < r@.len() ==> forall|b: int| #![trigger r@[b]] a < b < r@.len() ==> r@[a] < r@[b],
{
    s.iter().collect()
}

impl BitSetLike for BitSet {
    open spec fn bits(&self) -> Set<nat> {
        bitset_members(*self)
    }

    open spec fn extent(&self) -> nat {
        bitset_nbits(*self)
    }

    open spec fn new_extent(max: nat) -> nat {
        max
    }

    open spec fn len_is_extent() -> bool {
        false
    }

    open spec fn index_limit() -> nat {
        usize::MAX as nat
    }

    open spec fn wf(&self) -> bool {
        &&& bitset_members(*self).finite()
        &&& forall|i: nat| bitset_members(*self).contains(i) ==> i < bitset_nbits(*self)
        &&& bitset_nbits(*self) <= usize::MAX
    }

    proof fn lemma_bits_bounded(&self) {
    }

    fn new_bitset(max: usize) -> (r: Self) {
        bitset_with_capacity(max)
    }

    fn len(&self) -> (r: usize) {
        bitset_capacity(self)
    }

    fn test(&self, ix: usize) -> (r: bool) {
        bitset_contains(self, ix)
    }

    fn set(&mut self, ix: usize) {
        bitset_insert(self, ix);
    }

    fn clear(&mut self, ix: usize) {
        bitset_remove(self, ix);
    }

    fn count(&self) -> (r: usize) {
        bitset_len(self)
    }

    fn duplicate(&self) -> (r: Self) {
        bitset_clone(self)
    }
}

} // verus!
