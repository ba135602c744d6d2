use crate::flags::{flags_below, lemma_flags_below};
use crate::like::BitSetLike;
use vstd::prelude::*;

verus! {

/// Whether bit `i` of `x` is set.
pub open spec fn bit_u8(x: u8, i: nat) -> bool {
    i < 8 && (x >> (i as u8)) & 1u8 == 1u8
}

proof fn lemma_u8_ops(x: u8, ix: u8, i: u8)
    by (bit_vector)
    requires
        ix < 8,
        i < 8,
    ensures
        ((x | (1u8 << ix)) >> i) & 1u8 == 1u8 <==> (i == ix || (x >> i) & 1u8 == 1u8),
        ((x & !(1u8 << ix)) >> i) & 1u8 == 1u8 <==> (i != ix && (x >> i) & 1u8 == 1u8),
        (x & (1u8 << ix) != 0) <==> (x >> ix) & 1u8 == 1u8,
        (0u8 >> i) & 1u8 != 1u8,
{
}

impl BitSetLike for u8 {
    proof fn lemma_bits_bounded(&self) {
        lemma_flags_below(|i: nat| bit_u8(*self, i), 8);
    }

    open spec fn bits(&self) -> Set<nat> {
        flags_below(|i: nat| bit_u8(*self, i), 8)
    }

    open spec fn index_limit() -> nat {
        8
    }

    open spec fn extent(&self) -> nat {
        8
    }

    open spec fn new_extent(max: nat) -> nat {
        8
    }

    open spec fn len_is_extent() -> bool {
        true
    }

    open spec fn wf(&self) -> bool {
        true
    }

    fn new_bitset(max: usize) -> (r: Self) {
        proof {
            assert forall|i: nat| !bit_u8(0u8, i) by {
                if i < 8 {
                    lemma_u8_ops(0, 0, i as u8);
                }
            }
            assert(flags_below(|i: nat| bit_u8(0u8, i), 8) =~= Set::<nat>::empty());
        }
        0
    }

    fn len(&self) -> (r: usize) {
        8
    }

    fn test(&self, ix: usize) -> (r: bool) {
        if ix >= 8 {
            return false;
        }
        proof {
            lemma_u8_ops(*self, ix as u8, 0);
        }
        0 != (*self & (1u8 << ix as u8))
    }

    fn set(&mut self, ix: usize) {
        let ghost x = *old(self);
        *self = *self | (1u8 << ix as u8);
        proof {
            assert forall|i: nat| i < 8 implies bit_u8(*self, i) == (i == ix || bit_u8(x, i)) by {
                lemma_u8_ops(x, ix as u8, i as u8);
            }
            assert forall|i: nat| #[trigger] self.bits().contains(i) == x.bits().insert(ix as nat).contains(i) by {
                if i < 8 {
                    lemma_u8_ops(x, ix as u8, i as u8);
                }
            }
            assert(self.bits() =~= x.bits().insert(ix as nat));
        }
    }

    fn clear(&mut self, ix: usize) {
        if ix >= 8 {
            proof {
                assert(self.bits() =~= self.bits().remove(ix as nat));
            }
            return;
        }
        let ghost x = *old(self);
        *self = *self & !(1u8 << ix as u8);
        proof {
            assert forall|i: nat| i < 8 implies bit_u8(*self, i) == (i != ix && bit_u8(x, i)) by {
                lemma_u8_ops(x, ix as u8, i as u8);
            }
            assert forall|i: nat| #[trigger] self.bits().contains(i) == x.bits().remove(ix as nat).contains(i) by {
                if i < 8 {
                    lemma_u8_ops(x, ix as u8, i as u8);
                }
            }
            assert(self.bits() =~= x.bits().remove(ix as nat));
        }
    }

    /// Tests each bit below the width in turn.
    fn count(&self) -> (r: usize) {
        let len: usize = self.len();
        let ghost f = |i: nat| self.bits().contains(i);
        let mut n: usize = 0;
        let mut i: usize = 0;
        proof {
            assert(flags_below(f, 0) =~= Set::<nat>::empty());
        }
        while i < len
            invariant
                self.wf(),
                i <= len,
                n <= i,
                n == flags_below(f, i as nat).len(),
                f == (|i: nat| self.bits().contains(i)),
                forall|j: nat| self.bits().contains(j) ==> j < len,
            decreases len - i,
        {
            proof {
                lemma_flags_below(f, i as nat);
            }
            if self.test(i) {
                n = n + 1;
            }
            i = i + 1;
        }
        proof {
            assert(flags_below(f, len as nat) =~= self.bits());
        }
        n
    }

    fn duplicate(&self) -> (r: Self) {
        *self
    }
}

/// Whether bit `i` of `x` is set.
pub open spec fn bit_u16(x: u16, i: nat) -> bool {
    i < 16 && (x >> (i as u16)) & 1u16 == 1u16
}

proof fn lemma_u16_ops(x: u16, ix: u16, i: u16)
    by (bit_vector)
    requires
        ix < 16,
        i < 16,
    ensures
        ((x | (1u16 << ix)) >> i) & 1u16 == 1u16 <==> (i == ix || (x >> i) & 1u16 == 1u16),
        ((x & !(1u16 << ix)) >> i) & 1u16 == 1u16 <==> (i != ix && (x >> i) & 1u16 == 1u16),
        (x & (1u16 << ix) != 0) <==> (x >> ix) & 1u16 == 1u16,
        (0u16 >> i) & 1u16 != 1u16,
{
}

impl BitSetLike for u16 {
    proof fn lemma_bits_bounded(&self) {
        lemma_flags_below(|i: nat| bit_u16(*self, i), 16);
    }

    open spec fn bits(&self) -> Set<nat> {
        flags_below(|i: nat| bit_u16(*self, i), 16)
    }

    open spec fn index_limit() -> nat {
        16
    }

    open spec fn extent(&self) -> nat {
        16
    }

    open spec fn new_extent(max: nat) -> nat {
        16
    }

    open spec fn len_is_extent() -> bool {
        true
    }

    open spec fn wf(&self) -> bool {
        true
    }

    fn new_bitset(max: usize) -> (r: Self) {
        proof {
            assert forall|i: nat| !bit_u16(0u16, i) by {
                if i < 16 {
                    lemma_u16_ops(0, 0, i as u16);
                }
            }
            assert(flags_below(|i: nat| bit_u16(0u16, i), 16) =~= Set::<nat>::empty());
        }
        0
    }

    fn len(&self) -> (r: usize) {
        16
    }

    fn test(&self, ix: usize) -> (r: bool) {
        if ix >= 16 {
            return false;
        }
        proof {
            lemma_u16_ops(*self, ix as u16, 0);
        }
        0 != (*self & (1u16 << ix as u16))
    }

    fn set(&mut self, ix: usize) {
        let ghost x = *old(self);
        *self = *self | (1u16 << ix as u16);
        proof {
            assert forall|i: nat| i < 16 implies bit_u16(*self, i) == (i == ix || bit_u16(x, i)) by {
                lemma_u16_ops(x, ix as u16, i as u16);
            }
            assert forall|i: nat| #[trigger] self.bits().contains(i) == x.bits().insert(ix as nat).contains(i) by {
                if i < 16 {
                    lemma_u16_ops(x, ix as u16, i as u16);
                }
            }
            assert(self.bits() =~= x.bits().insert(ix as nat));
        }
    }

    fn clear(&mut self, ix: usize) {
        if ix >= 16 {
            proof {
                assert(self.bits() =~= self.bits().remove(ix as nat));
            }
            return;
        }
        let ghost x = *old(self);
        *self = *self & !(1u16 << ix as u16);
        proof {
            assert forall|i: nat| i < 16 implies bit_u16(*self, i) == (i != ix && bit_u16(x, i)) by {
                lemma_u16_ops(x, ix as u16, i as u16);
            }
            assert forall|i: nat| #[trigger] self.bits().contains(i) == x.bits().remove(ix as nat).contains(i) by {
                if i < 16 {
                    lemma_u16_ops(x, ix as u16, i as u16);
                }
            }
            assert(self.bits() =~= x.bits().remove(ix as nat));
        }
    }

    /// Tests each bit below the width in turn.
    fn count(&self) -> (r: usize) {
        let len: usize = self.len();
        let ghost f = |i: nat| self.bits().contains(i);
        let mut n: usize = 0;
        let mut i: usize = 0;
        proof {
            assert(flags_below(f, 0) =~= Set::<nat>::empty());
        }
        while i < len
            invariant
                self.wf(),
                i <= len,
                n <= i,
                n == flags_below(f, i as nat).len(),
                f == (|i: nat| self.bits().contains(i)),
                forall|j: nat| self.bits().contains(j) ==> j < len,
            decreases len - i,
        {
            proof {
                lemma_flags_below(f, i as nat);
            }
            if self.test(i) {
                n = n + 1;
            }
            i = i + 1;
        }
        proof {
            assert(flags_below(f, len as nat) =~= self.bits());
        }
        n
    }

    fn duplicate(&self) -> (r: Self) {
        *self
    }
}

/// Whether bit `i` of `x` is set.
pub open spec fn bit_u32(x: u32, i: nat) -> bool {
    i < 32 && (x >> (i as u32)) & 1u32 == 1u32
}

proof fn lemma_u32_ops(x: u32, ix: u32, i: u32)
    by (bit_vector)
    requires
        ix < 32,
        i < 32,
    ensures
        ((x | (1u32 << ix)) >> i) & 1u32 == 1u32 <==> (i == ix || (x >> i) & 1u32 == 1u32),
        ((x & !(1u32 << ix)) >> i) & 1u32 == 1u32 <==> (i != ix && (x >> i) & 1u32 == 1u32),
        (x & (1u32 << ix) != 0) <==> (x >> ix) & 1u32 == 1u32,
        (0u32 >> i) & 1u32 != 1u32,
{
}

impl BitSetLike for u32 {
    proof fn lemma_bits_bounded(&self) {
        lemma_flags_below(|i: nat| bit_u32(*self, i), 32);
    }

    open spec fn bits(&self) -> Set<nat> {
        flags_below(|i: nat| bit_u32(*self, i), 32)
    }

    open spec fn index_limit() -> nat {
        32
    }

    open spec fn extent(&self) -> nat {
        32
    }

    open spec fn new_extent(max: nat) -> nat {
        32
    }

    open spec fn len_is_extent() -> bool {
        true
    }

    open spec fn wf(&self) -> bool {
        true
    }

    fn new_bitset(max: usize) -> (r: Self) {
        proof {
            assert forall|i: nat| !bit_u32(0u32, i) by {
                if i < 32 {
                    lemma_u32_ops(0, 0, i as u32);
                }
            }
            assert(flags_below(|i: nat| bit_u32(0u32, i), 32) =~= Set::<nat>::empty());
        }
        0
    }

    fn len(&self) -> (r: usize) {
        32
    }

    fn test(&self, ix: usize) -> (r: bool) {
        if ix >= 32 {
            return false;
        }
        proof {
            lemma_u32_ops(*self, ix as u32, 0);
        }
        0 != (*self & (1u32 << ix as u32))
    }

    fn set(&mut self, ix: usize) {
        let ghost x = *old(self);
        *self = *self | (1u32 << ix as u32);
        proof {
            assert forall|i: nat| i < 32 implies bit_u32(*self, i) == (i == ix || bit_u32(x, i)) by {
                lemma_u32_ops(x, ix as u32, i as u32);
            }
            assert forall|i: nat| #[trigger] self.bits().contains(i) == x.bits().insert(ix as nat).contains(i) by {
                if i < 32 {
                    lemma_u32_ops(x, ix as u32, i as u32);
                }
            }
            assert(self.bits() =~= x.bits().insert(ix as nat));
        }
    }

    fn clear(&mut self, ix: usize) {
        if ix >= 32 {
            proof {
                assert(self.bits() =~= self.bits().remove(ix as nat));
            }
            return;
        }
        let ghost x = *old(self);
        *self = *self & !(1u32 << ix as u32);
        proof {
            assert forall|i: nat| i < 32 implies bit_u32(*self, i) == (i != ix && bit_u32(x, i)) by {
                lemma_u32_ops(x, ix as u32, i as u32);
            }
            assert forall|i: nat| #[trigger] self.bits().contains(i) == x.bits().remove(ix as nat).contains(i) by {
                if i < 32 {
                    lemma_u32_ops(x, ix as u32, i as u32);
                }
            }
            assert(self.bits() =~= x.bits().remove(ix as nat));
        }
    }

    /// Tests each bit below the width in turn.
    fn count(&self) -> (r: usize) {
        let len: usize = self.len();
        let ghost f = |i: nat| self.bits().contains(i);
        let mut n: usize = 0;
        let mut i: usize = 0;
        proof {
            assert(flags_below(f, 0) =~= Set::<nat>::empty());
        }
        while i < len
            invariant
                self.wf(),
                i <= len,
                n <= i,
                n == flags_below(f, i as nat).len(),
                f == (|i: nat| self.bits().contains(i)),
                forall|j: nat| self.bits().contains(j) ==> j < len,
            decreases len - i,
        {
            proof {
                lemma_flags_below(f, i as nat);
            }
            if self.test(i) {
                n = n + 1;
            }
            i = i + 1;
        }
        proof {
            assert(flags_below(f, len as nat) =~= self.bits());
        }
        n
    }

    fn duplicate(&self) -> (r: Self) {
        *self
    }
}

/// Whether bit `i` of `x` is set.
pub open spec fn bit_u64(x: u64, i: nat) -> bool {
    i < 64 && (x >> (i as u64)) & 1u64 == 1u64
}

proof fn lemma_u64_ops(x: u64, ix: u64, i: u64)
    by (bit_vector)
    requires
        ix < 64,
        i < 64,
    ensures
        ((x | (1u64 << ix)) >> i) & 1u64 == 1u64 <==> (i == ix || (x >> i) & 1u64 == 1u64),
        ((x & !(1u64 << ix)) >> i) & 1u64 == 1u64 <==> (i != ix && (x >> i) & 1u64 == 1u64),
        (x & (1u64 << ix) != 0) <==> (x >> ix) & 1u64 == 1u64,
        (0u64 >> i) & 1u64 != 1u64,
{
}

impl BitSetLike for u64 {
    proof fn lemma_bits_bounded(&self) {
        lemma_flags_below(|i: nat| bit_u64(*self, i), 64);
    }

    open spec fn bits(&self) -> Set<nat> {
        flags_below(|i: nat| bit_u64(*self, i), 64)
    }

    open spec fn index_limit() -> nat {
        64
    }

    open spec fn extent(&self) -> nat {
        64
    }

    open spec fn new_extent(max: nat) -> nat {
        64
    }

    open spec fn len_is_extent() -> bool {
        true
    }

    open spec fn wf(&self) -> bool {
        true
    }

    fn new_bitset(max: usize) -> (r: Self) {
        proof {
            assert forall|i: nat| !bit_u64(0u64, i) by {
                if i < 64 {
                    lemma_u64_ops(0, 0, i as u64);
                }
            }
            assert(flags_below(|i: nat| bit_u64(0u64, i), 64) =~= Set::<nat>::empty());
        }
        0
    }

    fn len(&self) -> (r: usize) {
        64
    }

    fn test(&self, ix: usize) -> (r: bool) {
        if ix >= 64 {
            return false;
        }
        proof {
            lemma_u64_ops(*self, ix as u64, 0);
        }
        0 != (*self & (1u64 << ix as u64))
    }

    fn set(&mut self, ix: usize) {
        let ghost x = *old(self);
        *self = *self | (1u64 << ix as u64);
        proof {
            assert forall|i: nat| i < 64 implies bit_u64(*self, i) == (i == ix || bit_u64(x, i)) by {
                lemma_u64_ops(x, ix as u64, i as u64);
            }
            assert forall|i: nat| #[trigger] self.bits().contains(i) == x.bits().insert(ix as nat).contains(i) by {
                if i < 64 {
                    lemma_u64_ops(x, ix as u64, i as u64);
                }
            }
            assert(self.bits() =~= x.bits().insert(ix as nat));
        }
    }

    fn clear(&mut self, ix: usize) {
        if ix >= 64 {
            proof {
                assert(self.bits() =~= self.bits().remove(ix as nat));
            }
            return;
        }
        let ghost x = *old(self);
        *self = *self & !(1u64 << ix as u64);
        proof {
            assert forall|i: nat| i < 64 implies bit_u64(*self, i) == (i != ix && bit_u64(x, i)) by {
                lemma_u64_ops(x, ix as u64, i as u64);
            }
            assert forall|i: nat| #[trigger] self.bits().contains(i) == x.bits().remove(ix as nat).contains(i) by {
                if i < 64 {
                    lemma_u64_ops(x, ix as u64, i as u64);
                }
            }
            assert(self.bits() =~= x.bits().remove(ix as nat));
        }
    }

    /// Tests each bit below the width in turn.
    fn count(&self) -> (r: usize) {
        let len: usize = self.len();
        let ghost f = |i: nat| self.bits().contains(i);
        let mut n: usize = 0;
        let mut i: usize = 0;
        proof {
            assert(flags_below(f, 0) =~= Set::<nat>::empty());
        }
        while i < len
            invariant
                self.wf(),
                i <= len,
                n <= i,
                n == flags_below(f, i as nat).len(),
                f == (|i: nat| self.bits().contains(i)),
                forall|j: nat| self.bits().contains(j) ==> j < len,
            decreases len - i,
        {
            proof {
                lemma_flags_below(f, i as nat);
            }
            if self.test(i) {
                n = n + 1;
            }
            i = i + 1;
        }
        proof {
            assert(flags_below(f, len as nat) =~= self.bits());
        }
        n
    }

    fn duplicate(&self) -> (r: Self) {
        *self
    }
}

/// Whether bit `i` of `x` is set.
pub open spec fn bit_i8(x: i8, i: nat) -> bool {
    i < 8 && (x >> (i as u32)) & 1i8 == 1i8
}

proof fn lemma_i8_ops(x: i8, ix: u32, i: u32)
    by (bit_vector)
    requires
        ix < 8,
        i < 8,
    ensures
        ((x | (1i8 << ix)) >> i) & 1i8 == 1i8 <==> (i == ix || (x >> i) & 1i8 == 1i8),
        ((x & !(1i8 << ix)) >> i) & 1i8 == 1i8 <==> (i != ix && (x >> i) & 1i8 == 1i8),
        (x & (1i8 << ix) != 0) <==> (x >> ix) & 1i8 == 1i8,
        (0i8 >> i) & 1i8 != 1i8,
{
}

impl BitSetLike for i8 {
    proof fn lemma_bits_bounded(&self) {
        lemma_flags_below(|i: nat| bit_i8(*self, i), 8);
    }

    open spec fn bits(&self) -> Set<nat> {
        flags_below(|i: nat| bit_i8(*self, i), 8)
    }

    open spec fn index_limit() -> nat {
        8
    }

    open spec fn extent(&self) -> nat {
        8
    }

    open spec fn new_extent(max: nat) -> nat {
        8
    }

    open spec fn len_is_extent() -> bool {
        true
    }

    open spec fn wf(&self) -> bool {
        true
    }

    fn new_bitset(max: usize) -> (r: Self) {
        proof {
            assert forall|i: nat| !bit_i8(0i8, i) by {
                if i < 8 {
                    lemma_i8_ops(0, 0, i as u32);
                }
            }
            assert(flags_below(|i: nat| bit_i8(0i8, i), 8) =~= Set::<nat>::empty());
        }
        0
    }

    fn len(&self) -> (r: usize) {
        8
    }

    fn test(&self, ix: usize) -> (r: bool) {
        if ix >= 8 {
            return false;
        }
        proof {
            lemma_i8_ops(*self, ix as u32, 0);
        }
        0 != (*self & (1i8 << ix as u32))
    }

    fn set(&mut self, ix: usize) {
        let ghost x = *old(self);
        *self = *self | (1i8 << ix as u32);
        proof {
            assert forall|i: nat| i < 8 implies bit_i8(*self, i) == (i == ix || bit_i8(x, i)) by {
                lemma_i8_ops(x, ix as u32, i as u32);
            }
            assert forall|i: nat| #[trigger] self.bits().contains(i) == x.bits().insert(ix as nat).contains(i) by {
                if i < 8 {
                    lemma_i8_ops(x, ix as u32, i as u32);
                }
            }
            assert(self.bits() =~= x.bits().insert(ix as nat));
        }
    }

    fn clear(&mut self, ix: usize) {
        if ix >= 8 {
            proof {
                assert(self.bits() =~= self.bits().remove(ix as nat));
            }
            return;
        }
        let ghost x = *old(self);
        *self = *self & !(1i8 << ix as u32);
        proof {
            assert forall|i: nat| i < 8 implies bit_i8(*self, i) == (i != ix && bit_i8(x, i)) by {
                lemma_i8_ops(x, ix as u32, i as u32);
            }
            assert forall|i: nat| #[trigger] self.bits().contains(i) == x.bits().remove(ix as nat).contains(i) by {
                if i < 8 {
                    lemma_i8_ops(x, ix as u32, i as u32);
                }
            }
            assert(self.bits() =~= x.bits().remove(ix as nat));
        }
    }

    /// Tests each bit below the width in turn.
    fn count(&self) -> (r: usize) {
        let len: usize = self.len();
        let ghost f = |i: nat| self.bits().contains(i);
        let mut n: usize = 0;
        let mut i: usize = 0;
        proof {
            assert(flags_below(f, 0) =~= Set::<nat>::empty());
        }
        while i < len
            invariant
                self.wf(),
                i <= len,
                n <= i,
                n == flags_below(f, i as nat).len(),
                f == (|i: nat| self.bits().contains(i)),
                forall|j: nat| self.bits().contains(j) ==> j < len,
            decreases len - i,
        {
            proof {
                lemma_flags_below(f, i as nat);
            }
            if self.test(i) {
                n = n + 1;
            }
            i = i + 1;
        }
        proof {
            assert(flags_below(f, len as nat) =~= self.bits());
        }
        n
    }

    fn duplicate(&self) -> (r: Self) {
        *self
    }
}

/// Whether bit `i` of `x` is set.
pub open spec fn bit_i16(x: i16, i: nat) -> bool {
    i < 16 && (x >> (i as u32)) & 1i16 == 1i16
}

proof fn lemma_i16_ops(x: i16, ix: u32, i: u32)
    by (bit_vector)
    requires
        ix < 16,
        i < 16,
    ensures
        ((x | (1i16 << ix)) >> i) & 1i16 == 1i16 <==> (i == ix || (x >> i) & 1i16 == 1i16),
        ((x & !(1i16 << ix)) >> i) & 1i16 == 1i16 <==> (i != ix && (x >> i) & 1i16 == 1i16),
        (x & (1i16 << ix) != 0) <==> (x >> ix) & 1i16 == 1i16,
        (0i16 >> i) & 1i16 != 1i16,
{
}

impl BitSetLike for i16 {
    proof fn lemma_bits_bounded(&self) {
        lemma_flags_below(|i: nat| bit_i16(*self, i), 16);
    }

    open spec fn bits(&self) -> Set<nat> {
        flags_below(|i: nat| bit_i16(*self, i), 16)
    }

    open spec fn index_limit() -> nat {
        16
    }

    open spec fn extent(&self) -> nat {
        16
    }

    open spec fn new_extent(max: nat) -> nat {
        16
    }

    open spec fn len_is_extent() -> bool {
        true
    }

    open spec fn wf(&self) -> bool {
        true
    }

    fn new_bitset(max: usize) -> (r: Self) {
        proof {
            assert forall|i: nat| !bit_i16(0i16, i) by {
                if i < 16 {
                    lemma_i16_ops(0, 0, i as u32);
                }
            }
            assert(flags_below(|i: nat| bit_i16(0i16, i), 16) =~= Set::<nat>::empty());
        }
        0
    }

    fn len(&self) -> (r: usize) {
        16
    }

    fn test(&self, ix: usize) -> (r: bool) {
        if ix >= 16 {
            return false;
        }
        proof {
            lemma_i16_ops(*self, ix as u32, 0);
        }
        0 != (*self & (1i16 << ix as u32))
    }

    fn set(&mut self, ix: usize) {
        let ghost x = *old(self);
        *self = *self | (1i16 << ix as u32);
        proof {
            assert forall|i: nat| i < 16 implies bit_i16(*self, i) == (i == ix || bit_i16(x, i)) by {
                lemma_i16_ops(x, ix as u32, i as u32);
            }
            assert forall|i: nat| #[trigger] self.bits().contains(i) == x.bits().insert(ix as nat).contains(i) by {
                if i < 16 {
                    lemma_i16_ops(x, ix as u32, i as u32);
                }
            }
            assert(self.bits() =~= x.bits().insert(ix as nat));
        }
    }

    fn clear(&mut self, ix: usize) {
        if ix >= 16 {
            proof {
                assert(self.bits() =~= self.bits().remove(ix as nat));
            }
            return;
        }
        let ghost x = *old(self);
        *self = *self & !(1i16 << ix as u32);
        proof {
            assert forall|i: nat| i < 16 implies bit_i16(*self, i) == (i != ix && bit_i16(x, i)) by {
                lemma_i16_ops(x, ix as u32, i as u32);
            }
            assert forall|i: nat| #[trigger] self.bits().contains(i) == x.bits().remove(ix as nat).contains(i) by {
                if i < 16 {
                    lemma_i16_ops(x, ix as u32, i as u32);
                }
            }
            assert(self.bits() =~= x.bits().remove(ix as nat));
        }
    }

    /// Tests each bit below the width in turn.
    fn count(&self) -> (r: usize) {
        let len: usize = self.len();
        let ghost f = |i: nat| self.bits().contains(i);
        let mut n: usize = 0;
        let mut i: usize = 0;
        proof {
            assert(flags_below(f, 0) =~= Set::<nat>::empty());
        }
        while i < len
            invariant
                self.wf(),
                i <= len,
                n <= i,
                n == flags_below(f, i as nat).len(),
                f == (|i: nat| self.bits().contains(i)),
                forall|j: nat| self.bits().contains(j) ==> j < len,
            decreases len - i,
        {
            proof {
                lemma_flags_below(f, i as nat);
            }
            if self.test(i) {
                n = n + 1;
            }
            i = i + 1;
        }
        proof {
            assert(flags_below(f, len as nat) =~= self.bits());
        }
        n
    }

    fn duplicate(&self) -> (r: Self) {
        *self
    }
}

/// Whether bit `i` of `x` is set.
pub open spec fn bit_i32(x: i32, i: nat) -> bool {
    i < 32 && (x >> (i as u32)) & 1i32 == 1i32
}

proof fn lemma_i32_ops(x: i32, ix: u32, i: u32)
    by (bit_vector)
    requires
        ix < 32,
        i < 32,
    ensures
        ((x | (1i32 << ix)) >> i) & 1i32 == 1i32 <==> (i == ix || (x >> i) & 1i32 == 1i32),
        ((x & !(1i32 << ix)) >> i) & 1i32 == 1i32 <==> (i != ix && (x >> i) & 1i32 == 1i32),
        (x & (1i32 << ix) != 0) <==> (x >> ix) & 1i32 == 1i32,
        (0i32 >> i) & 1i32 != 1i32,
{
}

impl BitSetLike for i32 {
    proof fn lemma_bits_bounded(&self) {
        lemma_flags_below(|i: nat| bit_i32(*self, i), 32);
    }

    open spec fn bits(&self) -> Set<nat> {
        flags_below(|i: nat| bit_i32(*self, i), 32)
    }

    open spec fn index_limit() -> nat {
        32
    }

    open spec fn extent(&self) -> nat {
        32
    }

    open spec fn new_extent(max: nat) -> nat {
        32
    }

    open spec fn len_is_extent() -> bool {
        true
    }

    open spec fn wf(&self) -> bool {
        true
    }

    fn new_bitset(max: usize) -> (r: Self) {
        proof {
            assert forall|i: nat| !bit_i32(0i32, i) by {
                if i < 32 {
                    lemma_i32_ops(0, 0, i as u32);
                }
            }
            assert(flags_below(|i: nat| bit_i32(0i32, i), 32) =~= Set::<nat>::empty());
        }
        0
    }

    fn len(&self) -> (r: usize) {
        32
    }

    fn test(&self, ix: usize) -> (r: bool) {
        if ix >= 32 {
            return false;
        }
        proof {
            lemma_i32_ops(*self, ix as u32, 0);
        }
        0 != (*self & (1i32 << ix as u32))
    }

    fn set(&mut self, ix: usize) {
        let ghost x = *old(self);
        *self = *self | (1i32 << ix as u32);
        proof {
            assert forall|i: nat| i < 32 implies bit_i32(*self, i) == (i == ix || bit_i32(x, i)) by {
                lemma_i32_ops(x, ix as u32, i as u32);
            }
            assert forall|i: nat| #[trigger] self.bits().contains(i) == x.bits().insert(ix as nat).contains(i) by {
                if i < 32 {
                    lemma_i32_ops(x, ix as u32, i as u32);
                }
            }
            assert(self.bits() =~= x.bits().insert(ix as nat));
        }
    }

    fn clear(&mut self, ix: usize) {
        if ix >= 32 {
            proof {
                assert(self.bits() =~= self.bits().remove(ix as nat));
            }
            return;
        }
        let ghost x = *old(self);
        *self = *self & !(1i32 << ix as u32);
        proof {
            assert forall|i: nat| i < 32 implies bit_i32(*self, i) == (i != ix && bit_i32(x, i)) by {
                lemma_i32_ops(x, ix as u32, i as u32);
            }
            assert forall|i: nat| #[trigger] self.bits().contains(i) == x.bits().remove(ix as nat).contains(i) by {
                if i < 32 {
                    lemma_i32_ops(x, ix as u32, i as u32);
                }
            }
            assert(self.bits() =~= x.bits().remove(ix as nat));
        }
    }

    /// Tests each bit below the width in turn.
    fn count(&self) -> (r: usize) {
        let len: usize = self.len();
        let ghost f = |i: nat| self.bits().contains(i);
        let mut n: usize = 0;
        let mut i: usize = 0;
        proof {
            assert(flags_below(f, 0) =~= Set::<nat>::empty());
        }
        while i < len
            invariant
                self.wf(),
                i <= len,
                n <= i,
                n == flags_below(f, i as nat).len(),
                f == (|i: nat| self.bits().contains(i)),
                forall|j: nat| self.bits().contains(j) ==> j < len,
            decreases len - i,
        {
            proof {
                lemma_flags_below(f, i as nat);
            }
            if self.test(i) {
                n = n + 1;
            }
            i = i + 1;
        }
        proof {
            assert(flags_below(f, len as nat) =~= self.bits());
        }
        n
    }

    fn duplicate(&self) -> (r: Self) {
        *self
    }
}

/// Whether bit `i` of `x` is set.
pub open spec fn bit_i64(x: i64, i: nat) -> bool {
    i < 64 && (x >> (i as u32)) & 1i64 == 1i64
}

proof fn lemma_i64_ops(x: i64, ix: u32, i: u32)
    by (bit_vector)
    requires
        ix < 64,
        i < 64,
    ensures
        ((x | (1i64 << ix)) >> i) & 1i64 == 1i64 <==> (i == ix || (x >> i) & 1i64 == 1i64),
        ((x & !(1i64 << ix)) >> i) & 1i64 == 1i64 <==> (i != ix && (x >> i) & 1i64 == 1i64),
        (x & (1i64 << ix) != 0) <==> (x >> ix) & 1i64 == 1i64,
        (0i64 >> i) & 1i64 != 1i64,
{
}

impl BitSetLike for i64 {
    proof fn lemma_bits_bounded(&self) {
        lemma_flags_below(|i: nat| bit_i64(*self, i), 64);
    }

    open spec fn bits(&self) -> Set<nat> {
        flags_below(|i: nat| bit_i64(*self, i), 64)
    }

    open spec fn index_limit() -> nat {
        64
    }

    open spec fn extent(&self) -> nat {
        64
    }

    open spec fn new_extent(max: nat) -> nat {
        64
    }

    open spec fn len_is_extent() -> bool {
        true
    }

    open spec fn wf(&self) -> bool {
        true
    }

    fn new_bitset(max: usize) -> (r: Self) {
        proof {
            assert forall|i: nat| !bit_i64(0i64, i) by {
                if i < 64 {
                    lemma_i64_ops(0, 0, i as u32);
                }
            }
            assert(flags_below(|i: nat| bit_i64(0i64, i), 64) =~= Set::<nat>::empty());
        }
        0
    }

    fn len(&self) -> (r: usize) {
        64
    }

    fn test(&self, ix: usize) -> (r: bool) {
        if ix >= 64 {
            return false;
        }
        proof {
            lemma_i64_ops(*self, ix as u32, 0);
        }
        0 != (*self & (1i64 << ix as u32))
    }

    fn set(&mut self, ix: usize) {
        let ghost x = *old(self);
        *self = *self | (1i64 << ix as u32);
        proof {
            assert forall|i: nat| i < 64 implies bit_i64(*self, i) == (i == ix || bit_i64(x, i)) by {
                lemma_i64_ops(x, ix as u32, i as u32);
            }
            assert forall|i: nat| #[trigger] self.bits().contains(i) == x.bits().insert(ix as nat).contains(i) by {
                if i < 64 {
                    lemma_i64_ops(x, ix as u32, i as u32);
                }
            }
            assert(self.bits() =~= x.bits().insert(ix as nat));
        }
    }

    fn clear(&mut self, ix: usize) {
        if ix >= 64 {
            proof {
                assert(self.bits() =~= self.bits().remove(ix as nat));
            }
            return;
        }
        let ghost x = *old(self);
        *self = *self & !(1i64 << ix as u32);
        proof {
            assert forall|i: nat| i < 64 implies bit_i64(*self, i) == (i != ix && bit_i64(x, i)) by {
                lemma_i64_ops(x, ix as u32, i as u32);
            }
            assert forall|i: nat| #[trigger] self.bits().contains(i) == x.bits().remove(ix as nat).contains(i) by {
                if i < 64 {
                    lemma_i64_ops(x, ix as u32, i as u32);
                }
            }
            assert(self.bits() =~= x.bits().remove(ix as nat));
        }
    }

    /// Tests each bit below the width in turn.
    fn count(&self) -> (r: usize) {
        let len: usize = self.len();
        let ghost f = |i: nat| self.bits().contains(i);
        let mut n: usize = 0;
        let mut i: usize = 0;
        proof {
            assert(flags_below(f, 0) =~= Set::<nat>::empty());
        }
        while i < len
            invariant
                self.wf(),
                i <= len,
                n <= i,
                n == flags_below(f, i as nat).len(),
                f == (|i: nat| self.bits().contains(i)),
                forall|j: nat| self.bits().contains(j) ==> j < len,
            decreases len - i,
        {
            proof {
                lemma_flags_below(f, i as nat);
            }
            if self.test(i) {
                n = n + 1;
            }
            i = i + 1;
        }
        proof {
            assert(flags_below(f, len as nat) =~= self.bits());
        }
        n
    }

    fn duplicate(&self) -> (r: Self) {
        *self
    }
}

/// Whether bit `i` of `x` is set.
pub open spec fn bit_usize(x: usize, i: nat) -> bool {
    i < (usize::BITS as usize) && (x >> (i as usize)) & 1usize == 1usize
}

proof fn lemma_usize_ops(x: usize, ix: usize, i: usize)
    by (bit_vector)
    requires
        ix < (usize::BITS as usize),
        i < (usize::BITS as usize),
    ensures
        ((x | (1usize << ix)) >> i) & 1usize == 1usize <==> (i == ix || (x >> i) & 1usize == 1usize),
        ((x & !(1usize << ix)) >> i) & 1usize == 1usize <==> (i != ix && (x >> i) & 1usize == 1usize),
        (x & (1usize << ix) != 0) <==> (x >> ix) & 1usize == 1usize,
        (0usize >> i) & 1usize != 1usize,
{
}

impl BitSetLike for usize {
    proof fn lemma_bits_bounded(&self) {
        lemma_flags_below(|i: nat| bit_usize(*self, i), usize::BITS as nat);
    }

    open spec fn bits(&self) -> Set<nat> {
        flags_below(|i: nat| bit_usize(*self, i), usize::BITS as nat)
    }

    open spec fn index_limit() -> nat {
        usize::BITS as nat
    }

    open spec fn extent(&self) -> nat {
        usize::BITS as nat
    }

    open spec fn new_extent(max: nat) -> nat {
        usize::BITS as nat
    }

    open spec fn len_is_extent() -> bool {
        true
    }

    open spec fn wf(&self) -> bool {
        true
    }

    fn new_bitset(max: usize) -> (r: Self) {
        proof {
            assert forall|i: nat| !bit_usize(0usize, i) by {
                if i < (usize::BITS as usize) {
                    lemma_usize_ops(0, 0, i as usize);
                }
            }
            assert(flags_below(|i: nat| bit_usize(0usize, i), usize::BITS as nat) =~= Set::<nat>::empty());
        }
        0
    }

    fn len(&self) -> (r: usize) {
        (usize::BITS as usize)
    }

    fn test(&self, ix: usize) -> (r: bool) {
        if ix >= (usize::BITS as usize) {
            return false;
        }
        proof {
            lemma_usize_ops(*self, ix as usize, 0);
        }
        0 != (*self & (1usize << ix as usize))
    }

    fn set(&mut self, ix: usize) {
        let ghost x = *old(self);
        *self = *self | (1usize << ix as usize);
        proof {
            assert forall|i: nat| i < (usize::BITS as usize) implies bit_usize(*self, i) == (i == ix || bit_usize(x, i)) by {
                lemma_usize_ops(x, ix as usize, i as usize);
            }
            assert forall|i: nat| #[trigger] self.bits().contains(i) == x.bits().insert(ix as nat).contains(i) by {
                if i < (usize::BITS as usize) {
                    lemma_usize_ops(x, ix as usize, i as usize);
                }
            }
            assert(self.bits() =~= x.bits().insert(ix as nat));
        }
    }

    fn clear(&mut self, ix: usize) {
        if ix >= (usize::BITS as usize) {
            proof {
                assert(self.bits() =~= self.bits().remove(ix as nat));
            }
            return;
        }
        let ghost x = *old(self);
        *self = *self & !(1usize << ix as usize);
        proof {
            assert forall|i: nat| i < (usize::BITS as usize) implies bit_usize(*self, i) == (i != ix && bit_usize(x, i)) by {
                lemma_usize_ops(x, ix as usize, i as usize);
            }
            assert forall|i: nat| #[trigger] self.bits().contains(i) == x.bits().remove(ix as nat).contains(i) by {
                if i < (usize::BITS as usize) {
                    lemma_usize_ops(x, ix as usize, i as usize);
                }
            }
            assert(self.bits() =~= x.bits().remove(ix as nat));
        }
    }

    /// Tests each bit below the width in turn.
    fn count(&self) -> (r: usize) {
        let len: usize = self.len();
        let ghost f = |i: nat| self.bits().contains(i);
        let mut n: usize = 0;
        let mut i: usize = 0;
        proof {
            assert(flags_below(f, 0) =~= Set::<nat>::empty());
        }
        while i < len
            invariant
                self.wf(),
                i <= len,
                n <= i,
                n == flags_below(f, i as nat).len(),
                f == (|i: nat| self.bits().contains(i)),
                forall|j: nat| self.bits().contains(j) ==> j < len,
            decreases len - i,
        {
            proof {
                lemma_flags_below(f, i as nat);
            }
            if self.test(i) {
                n = n + 1;
            }
            i = i + 1;
        }
        proof {
            assert(flags_below(f, len as nat) =~= self.bits());
        }
        n
    }

    fn duplicate(&self) -> (r: Self) {
        *self
    }
}

/// Whether bit `i` of `x` is set.
pub open spec fn bit_isize(x: isize, i: nat) -> bool {
    i < (usize::BITS as usize) && (x >> (i as u32)) & 1isize == 1isize
}

proof fn lemma_isize_ops(x: isize, ix: u32, i: u32)
    by (bit_vector)
    requires
        ix < (usize::BITS as usize),
        i < (usize::BITS as usize),
    ensures
        ((x | (1isize << ix)) >> i) & 1isize == 1isize <==> (i == ix || (x >> i) & 1isize == 1isize),
        ((x & !(1isize << ix)) >> i) & 1isize == 1isize <==> (i != ix && (x >> i) & 1isize == 1isize),
        (x & (1isize << ix) != 0) <==> (x >> ix) & 1isize == 1isize,
        (0isize >> i) & 1isize != 1isize,
{
}

impl BitSetLike for isize {
    proof fn lemma_bits_bounded(&self) {
        lemma_flags_below(|i: nat| bit_isize(*self, i), usize::BITS as nat);
    }

    open spec fn bits(&self) -> Set<nat> {
        flags_below(|i: nat| bit_isize(*self, i), usize::BITS as nat)
    }

    open spec fn index_limit() -> nat {
        usize::BITS as nat
    }

    open spec fn extent(&self) -> nat {
        usize::BITS as nat
    }

    open spec fn new_extent(max: nat) -> nat {
        usize::BITS as nat
    }

    open spec fn len_is_extent() -> bool {
        true
    }

    open spec fn wf(&self) -> bool {
        true
    }

    fn new_bitset(max: usize) -> (r: Self) {
        proof {
            assert forall|i: nat| !bit_isize(0isize, i) by {
                if i < (usize::BITS as usize) {
                    lemma_isize_ops(0, 0, i as u32);
                }
            }
            assert(flags_below(|i: nat| bit_isize(0isize, i), usize::BITS as nat) =~= Set::<nat>::empty());
        }
        0
    }

    fn len(&self) -> (r: usize) {
        (usize::BITS as usize)
    }

    fn test(&self, ix: usize) -> (r: bool) {
        if ix >= (usize::BITS as usize) {
            return false;
        }
        proof {
            lemma_isize_ops(*self, ix as u32, 0);
        }
        0 != (*self & (1isize << ix as u32))
    }

    fn set(&mut self, ix: usize) {
        let ghost x = *old(self);
        *self = *self | (1isize << ix as u32);
        proof {
            assert forall|i: nat| i < (usize::BITS as usize) implies bit_isize(*self, i) == (i == ix || bit_isize(x, i)) by {
                lemma_isize_ops(x, ix as u32, i as u32);
            }
            assert forall|i: nat| #[trigger] self.bits().contains(i) == x.bits().insert(ix as nat).contains(i) by {
                if i < (usize::BITS as usize) {
                    lemma_isize_ops(x, ix as u32, i as u32);
                }
            }
            assert(self.bits() =~= x.bits().insert(ix as nat));
        }
    }

    fn clear(&mut self, ix: usize) {
        if ix >= (usize::BITS as usize) {
            proof {
                assert(self.bits() =~= self.bits().remove(ix as nat));
            }
            return;
        }
        let ghost x = *old(self);
        *self = *self & !(1isize << ix as u32);
        proof {
            assert forall|i: nat| i < (usize::BITS as usize) implies bit_isize(*self, i) == (i != ix && bit_isize(x, i)) by {
                lemma_isize_ops(x, ix as u32, i as u32);
            }
            assert forall|i: nat| #[trigger] self.bits().contains(i) == x.bits().remove(ix as nat).contains(i) by {
                if i < (usize::BITS as usize) {
                    lemma_isize_ops(x, ix as u32, i as u32);
                }
            }
            assert(self.bits() =~= x.bits().remove(ix as nat));
        }
    }

    /// Tests each bit below the width in turn.
    fn count(&self) -> (r: usize) {
        let len: usize = self.len();
        let ghost f = |i: nat| self.bits().contains(i);
        let mut n: usize = 0;
        let mut i: usize = 0;
        proof {
            assert(flags_below(f, 0) =~= Set::<nat>::empty());
        }
        while i < len
            invariant
                self.wf(),
                i <= len,
                n <= i,
                n == flags_below(f, i as nat).len(),
                f == (|i: nat| self.bits().contains(i)),
                forall|j: nat| self.bits().contains(j) ==> j < len,
            decreases len - i,
        {
            proof {
                lemma_flags_below(f, i as nat);
            }
            if self.test(i) {
                n = n + 1;
            }
            i = i + 1;
        }
        proof {
            assert(flags_below(f, len as nat) =~= self.bits());
        }
        n
    }

    fn duplicate(&self) -> (r: Self) {
        *self
    }
}

} // verus!
