use crate::like::BitSetLike;
use vstd::prelude::*;

verus! {

/// `k` is the first index at or after `from` that `s` holds.
pub open spec fn first_from(s: Set<nat>, from: nat, k: nat) -> bool {
    from <= k && s.contains(k) && forall|j: nat| from <= j < k ==> !s.contains(j)
}

/// The shrink state of a generated bit set.
///
/// It holds the current value, a cursor (the next index that shrinking may
/// clear), the index cleared by the last successful `simplify` while it may
/// still be undone, and the number of set bits below which shrinking stops.
pub struct BitSetValueTree<T: BitSetLike> {
    inner: T,
    shrink: usize,
    prev_shrink: Option<usize>,
    min_count: usize,
}

/// What one call of `simplify` does: `pre` is the tree before, `post` after, `r` the result.
pub open spec fn simplify_step<T: BitSetLike>(pre: BitSetValueTree<T>, post: BitSetValueTree<T>, r: bool) -> bool {
    if pre.value().len() <= pre.floor() {
        !r && post == pre
    } else if exists|k: nat| #[trigger] first_from(pre.value(), pre.cursor(), k) {
        r && post.floor() == pre.floor() && post.extent() == pre.extent() && exists|k: nat|
            #[trigger] first_from(pre.value(), pre.cursor(), k) && post.value() == pre.value().remove(k)
                && post.pending() == Some(k) && post.cursor() == k + 1
    } else {
        &&& !r
        &&& post.floor() == pre.floor()
        &&& post.value() == pre.value()
        &&& post.extent() == pre.extent()
        &&& post.pending() is None
        &&& post.cursor() >= pre.cursor()
        &&& post.cursor() >= pre.extent()
        &&& T::len_is_extent() ==> post.cursor() == (if pre.cursor() >= pre.extent() {
            pre.cursor()
        } else {
            pre.extent()
        })
    }
}

/// What one call of `complicate` does: `pre` is the tree before, `post` after, `r` the result.
pub open spec fn complicate_step<T: BitSetLike>(pre: BitSetValueTree<T>, post: BitSetValueTree<T>, r: bool) -> bool {
    match pre.pending() {
        Some(k) => r && post.value() == pre.value().insert(k) && post.pending() is None
            && post.cursor() == pre.cursor() && post.floor() == pre.floor() && post.extent() == pre.extent(),
        None => !r && post == pre,
    }
}

impl<T: BitSetLike> BitSetValueTree<T> {
    /// The indices set in the current value.
    pub closed spec fn value(&self) -> Set<nat> {
        self.inner.bits()
    }

    /// The extent of the current value.
    pub closed spec fn extent(&self) -> nat {
        self.inner.extent()
    }

    /// The next index that shrinking may clear.
    pub closed spec fn cursor(&self) -> nat {
        self.shrink as nat
    }

    /// The index that `complicate` would set again.
    pub closed spec fn pending(&self) -> Option<nat> {
        match self.prev_shrink {
            Some(k) => Some(k as nat),
            None => None,
        }
    }

    /// The number of set bits that shrinking keeps.
    pub closed spec fn floor(&self) -> nat {
        self.min_count as nat
    }

    /// The value is well formed, holds at least `floor()` set bits, and a
    /// pending index is clear and settable.
    pub closed spec fn wf(&self) -> bool {
        &&& self.inner.wf()
        &&& self.inner.bits().len() >= self.min_count
        &&& match self.prev_shrink {
            Some(k) => k < self.inner.extent() && !self.inner.bits().contains(k as nat),
            None => true,
        }
    }

    /// A tree over `inner` with the cursor at `shrink`, nothing to undo, and
    /// `min_count` as the floor.
    pub(crate) fn start(inner: T, shrink: usize, min_count: usize) -> (r: Self)
        requires
            inner.wf(),
            inner.bits().len() >= min_count,
        ensures
            r.wf(),
            r.value() == inner.bits(),
            r.extent() == inner.extent(),
            r.cursor() == shrink,
            r.pending() is None,
            r.floor() == min_count,
    {
        BitSetValueTree { inner, shrink, prev_shrink: None, min_count }
    }

    /// An independent copy of the current value.
    pub fn current(&self) -> (r: T)
        requires
            self.wf(),
        ensures
            r.wf(),
            r.bits() == self.value(),
            r.extent() == self.extent(),
    {
        self.inner.duplicate()
    }

    /// Clears the first set bit at or after the cursor, unless the value has
    /// no more than `floor()` set bits or no such bit remains.
    pub fn simplify(&mut self) -> (r: bool)
        requires
            old(self).wf(),
        ensures
            final(self).wf(),
            simplify_step(*old(self), *final(self), r),
    {
        let ghost pre = *self;
        proof {
            self.inner.lemma_bits_bounded();
        }
        if self.inner.count() <= self.min_count {
            return false;
        }
        let len: usize = self.inner.len();
        while self.shrink < len && !self.inner.test(self.shrink)
            invariant
                self.inner == pre.inner,
                self.prev_shrink == pre.prev_shrink,
                self.min_count == pre.min_count,
                self.inner.wf(),
                pre.shrink <= self.shrink,
                self.shrink <= pre.shrink || self.shrink <= len,
                self.inner.extent() <= len,
                T::len_is_extent() ==> len == self.inner.extent(),
                forall|i: nat| self.inner.bits().contains(i) ==> i < len,
                forall|j: nat| pre.shrink <= j < self.shrink ==> !self.inner.bits().contains(j),
            decreases len - self.shrink,
        {
            self.shrink = self.shrink + 1;
        }
        if self.shrink >= len {
            self.prev_shrink = None;
            proof {
                assert forall|k: nat| !first_from(pre.value(), pre.cursor(), k) by {
                    if first_from(pre.value(), pre.cursor(), k) {
                        assert(k < len);
                    }
                }
            }
            false
        } else {
            let k: usize = self.shrink;
            proof {
                assert(first_from(pre.value(), pre.cursor(), k as nat));
            }
            self.prev_shrink = Some(k);
            self.inner.clear(k);
            self.shrink = k + 1;
            proof {
                pre.inner.lemma_bits_bounded();
                assert(self.value() == pre.value().remove(k as nat));
                assert(first_from(pre.value(), pre.cursor(), k as nat) && self.value() == pre.value().remove(k as nat)
                    && self.pending() == Some(k as nat) && self.cursor() == k + 1);
            }
            true
        }
    }

    /// Sets again the bit that the last successful `simplify` cleared, if it
    /// was not undone already.
    pub fn complicate(&mut self) -> (r: bool)
        requires
            old(self).wf(),
        ensures
            final(self).wf(),
            complicate_step(*old(self), *final(self), r),
    {
        match self.prev_shrink {
            Some(bit) => {
                proof {
                    self.inner.lemma_bits_bounded();
                }
                self.prev_shrink = None;
                self.inner.set(bit);
                true
            },
            None => false,
        }
    }
}

/// A successful `simplify` clears exactly one bit that was set: the set
/// count drops by one, the removed bits form a set of one member, and the
/// count stays at or above the floor.
pub proof fn lemma_simplify_removes_one_bit<T: BitSetLike>(pre: BitSetValueTree<T>, post: BitSetValueTree<T>)
    requires
        pre.wf(),
        simplify_step(pre, post, true),
    ensures
        post.value().subset_of(pre.value()),
        pre.value().difference(post.value()).len() == 1,
        post.value().len() + 1 == pre.value().len(),
        post.value().len() >= post.floor(),
{
    pre.inner.lemma_bits_bounded();
    let k = choose|k: nat| #[trigger] first_from(pre.value(), pre.cursor(), k) && post.value() == pre.value().remove(k)
        && post.pending() == Some(k) && post.cursor() == k + 1;
    assert(pre.value().difference(post.value()) =~= set![k]);
}

/// Shrinking from a tree whose cursor is at or below every set index only
/// stops at the floor: a failed `simplify` there means the count is at most
/// the floor, and a successful one keeps the cursor at or below every set index.
pub proof fn lemma_simplify_stops_at_floor<T: BitSetLike>(pre: BitSetValueTree<T>, post: BitSetValueTree<T>, r: bool)
    requires
        pre.wf(),
        forall|i: nat| pre.value().contains(i) ==> pre.cursor() <= i,
        simplify_step(pre, post, r),
    ensures
        !r ==> pre.value().len() <= pre.floor(),
        r ==> forall|i: nat| post.value().contains(i) ==> post.cursor() <= i,
{
    pre.inner.lemma_bits_bounded();
    if !r && pre.value().len() > pre.floor() {
        assert(pre.value().len() > 0);
        let i = pre.value().choose();
        assert(pre.value().contains(i));
        let k = first_at_or_after(pre.value(), pre.cursor(), i);
        assert(first_from(pre.value(), pre.cursor(), k));
    }
}

/// The least index of `s` in `[from, i]`, where `s` holds `i`.
proof fn first_at_or_after(s: Set<nat>, from: nat, i: nat) -> (k: nat)
    requires
        from <= i,
        s.contains(i),
    ensures
        first_from(s, from, k),
    decreases i - from,
{
    if s.contains(from) {
        from
    } else {
        first_at_or_after(s, from + 1, i)
    }
}

/// A `complicate` right after a successful `simplify` restores the value
/// that the tree held before the `simplify`.
pub proof fn lemma_complicate_undoes_simplify<T: BitSetLike>(
    t0: BitSetValueTree<T>,
    t1: BitSetValueTree<T>,
    t2: BitSetValueTree<T>,
    r: bool,
)
    requires
        t0.wf(),
        simplify_step(t0, t1, true),
        complicate_step(t1, t2, r),
    ensures
        r,
        t2.value() == t0.value(),
{
    let k = choose|k: nat| #[trigger] first_from(t0.value(), t0.cursor(), k) && t1.value() == t0.value().remove(k)
        && t1.pending() == Some(k) && t1.cursor() == k + 1;
    assert(t2.value() =~= t0.value());
}

} // verus!
