use crate::flags::{flags_below, lemma_flags_below};
use crate::like::BitSetLike;
use vstd::prelude::*;

verus! {

/// Whether the flag at `i` of `s` exists and is set.
pub open spec fn flag_at(s: Seq<bool>, i: nat) -> bool {
    i < s.len() && s[i as int]
}

impl BitSetLike for Vec<bool> {
    open spec fn bits(&self) -> Set<nat> {
        flags_below(|i: nat| flag_at(self@, i), self@.len())
    }

    open spec fn extent(&self) -> nat {
        self@.len()
    }

    open spec fn new_extent(max: nat) -> nat {
        max
    }

    open spec fn len_is_extent() -> bool {
        true
    }

    open spec fn index_limit() -> nat {
        usize::MAX as nat
    }

    open spec fn wf(&self) -> bool {
        self@.len() <= usize::MAX
    }

    proof fn lemma_bits_bounded(&self) {
        lemma_flags_below(|i: nat| flag_at(self@, i), self@.len());
    }

    fn new_bitset(max: usize) -> (r: Self) {
        let mut v: Vec<bool> = Vec::new();
        while v.len() < max
            invariant
                v@.len() <= max,
                forall|i: int| 0 <= i < v@.len() ==> !v@[i],
            decreases max - v@.len(),
        {
            v.push(false);
        }
        proof {
            assert(v.bits() =~= Set::<nat>::empty());
        }
        v
    }

    fn len(&self) -> (r: usize) {
        self.len()
    }

    fn test(&self, ix: usize) -> (r: bool) {
        if ix >= self.len() {
            false
        } else {
            self[ix]
        }
    }

    fn set(&mut self, ix: usize) {
        let ghost s = old(self)@;
        if ix >= self.len() {
            while self.len() <= ix
                invariant
                    s.len() <= self@.len() <= ix + 1,
                    forall|i: int| 0 <= i < s.len() ==> self@[i] == s[i],
                    forall|i: int| s.len() <= i < self@.len() ==> !self@[i],
                decreases ix + 1 - self@.len(),
            {
                self.push(false);
            }
        }
        self[ix] = true;
        proof {
            assert(self.bits() =~= flags_below(|i: nat| flag_at(s, i), s.len()).insert(ix as nat));
        }
    }

    fn clear(&mut self, ix: usize) {
        let ghost s = old(self)@;
        if ix < self.len() {
            self[ix] = false;
        }
        proof {
            assert(self.bits() =~= flags_below(|i: nat| flag_at(s, i), s.len()).remove(ix as nat));
        }
    }

    fn count(&self) -> (r: usize) {
        let ghost f = |i: nat| flag_at(self@, i);
        let mut n: usize = 0;
        let mut i: usize = 0;
        proof {
            assert(flags_below(f, 0) =~= Set::<nat>::empty());
        }
        while i < self.len()
            invariant
                i <= self@.len(),
                n <= i,
                n == flags_below(f, i as nat).len(),
                f == (|i: nat| flag_at(self@, i)),
            decreases self@.len() - i,
        {
            proof {
                lemma_flags_below(f, i as nat);
            }
            if self[i] {
                n = n + 1;
            }
            i = i + 1;
        }
        n
    }

    fn duplicate(&self) -> (r: Self) {
        let mut v: Vec<bool> = Vec::new();
        let mut i: usize = 0;
        while i < self.len()
            invariant
                i <= self@.len(),
                v@ == self@.subrange(0, i as int),
            decreases self@.len() - i,
        {
            v.push(self[i]);
            i = i + 1;
        }
        proof {
            assert(v@ =~= self@);
        }
        v
    }
}

} // verus!
