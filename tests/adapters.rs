use bit_set::BitSet;
use proptest_bits::{sampled, BitSetLike, BitSetStrategy, SampledBitSetStrategy, VarBitSet};
use rand::rngs::StdRng;
use rand::SeedableRng;

#[test]
fn integer_set_test_clear_count() {
    let mut x = <u32 as BitSetLike>::new_bitset(5);
    assert_eq!(x, 0);
    assert_eq!(BitSetLike::len(&x), 32);
    BitSetLike::set(&mut x, 3);
    BitSetLike::set(&mut x, 31);
    assert_eq!(x, 0x8000_0008);
    assert!(BitSetLike::test(&x, 3));
    assert!(!BitSetLike::test(&x, 4));
    assert!(!BitSetLike::test(&x, 40));
    assert_eq!(BitSetLike::count(&x), 2);
    BitSetLike::clear(&mut x, 3);
    BitSetLike::clear(&mut x, 50);
    assert_eq!(x, 0x8000_0000);
    assert_eq!(BitSetLike::count(&x), 1);
}

#[test]
fn other_integer_widths() {
    let mut a = <u8 as BitSetLike>::new_bitset(0);
    BitSetLike::set(&mut a, 7);
    assert_eq!(a, 0x80);
    assert_eq!(BitSetLike::len(&a), 8);
    let mut b = <u16 as BitSetLike>::new_bitset(0);
    BitSetLike::set(&mut b, 15);
    BitSetLike::set(&mut b, 0);
    assert_eq!(b, 0x8001);
    assert_eq!(BitSetLike::count(&b), 2);
    let mut c = <u64 as BitSetLike>::new_bitset(0);
    BitSetLike::set(&mut c, 63);
    assert_eq!(c, 1u64 << 63);
    assert_eq!(BitSetLike::len(&c), 64);
    BitSetLike::clear(&mut c, 63);
    assert_eq!(c, 0);
}

#[test]
fn vec_bool_grows_on_set() {
    let mut v = <Vec<bool> as BitSetLike>::new_bitset(2);
    assert_eq!(v, vec![false, false]);
    BitSetLike::set(&mut v, 5);
    assert_eq!(v, vec![false, false, false, false, false, true]);
    assert!(!BitSetLike::test(&v, 9));
    BitSetLike::clear(&mut v, 9);
    assert_eq!(v.len(), 6);
    BitSetLike::set(&mut v, 1);
    assert_eq!(BitSetLike::count(&v), 2);
    BitSetLike::clear(&mut v, 5);
    assert_eq!(BitSetLike::count(&v), 1);
    let w = BitSetLike::duplicate(&v);
    assert_eq!(w, v);
}

#[test]
fn bitset_adapter_ops() {
    let mut s = <BitSet as BitSetLike>::new_bitset(10);
    assert!(BitSetLike::len(&s) >= 10);
    BitSetLike::set(&mut s, 3);
    BitSetLike::set(&mut s, 200);
    assert!(BitSetLike::test(&s, 200));
    assert!(!BitSetLike::test(&s, 4));
    assert!(BitSetLike::len(&s) > 200);
    assert_eq!(BitSetLike::count(&s), 2);
    BitSetLike::clear(&mut s, 3);
    assert_eq!(BitSetLike::count(&s), 1);
    let t = BitSetLike::duplicate(&s);
    assert!(t.contains(200));
    assert!(!t.contains(3));
}

#[test]
fn var_bit_set_saturated_and_indices() {
    let s = VarBitSet::saturated(5);
    assert_eq!(s.iter(), vec![0, 1, 2, 3, 4]);
    assert_eq!(BitSetLike::count(&s), 5);
    let t = VarBitSet::from_iter(&vec![9, 2, 9, 4]);
    assert_eq!(t.iter(), vec![2, 4, 9]);
    assert!(BitSetLike::test(&t, 9));
    assert!(!BitSetLike::test(&t, 3));
    let e = VarBitSet::saturated(0);
    assert_eq!(e.iter(), Vec::<usize>::new());
}

#[test]
fn value_from_coins_sets_allowed_heads() {
    let s = BitSetStrategy::<u32>::new(2, 6);
    let v = s.value_from_coins(&vec![true, false, true, true]);
    assert_eq!(v, 0b11_0100);
    let m = BitSetStrategy::<u32>::masked(0b1010);
    let mut coins = vec![true; 32];
    coins[3] = false;
    assert_eq!(m.value_from_coins(&coins), 0b0010);
}

#[test]
fn value_from_choice_sets_chosen() {
    let s = SampledBitSetStrategy::<u32>::new(2..4, 10..20);
    let mut tree = s.value_from_choice(&vec![15, 11, 19]);
    assert_eq!(tree.current(), (1 << 11) | (1 << 15) | (1 << 19));
    assert!(tree.simplify());
    assert_eq!(tree.current(), (1 << 15) | (1 << 19));
    assert!(!tree.simplify());
    assert_eq!(tree.current(), (1 << 15) | (1 << 19));
    assert!(tree.complicate());
    assert_eq!(tree.current(), (1 << 11) | (1 << 15) | (1 << 19));
    assert!(!tree.complicate());
}

#[test]
fn simplify_clears_lowest_from_cursor() {
    let s = BitSetStrategy::<u32>::new(0, 8);
    let mut tree = s.new_tree(&mut StdRng::seed_from_u64(3));
    let start = tree.current();
    assert!(start.count_ones() >= 2);
    let mut expected = start;
    while tree.simplify() {
        expected &= expected - 1;
        assert_eq!(tree.current(), expected);
    }
    assert_eq!(tree.current(), 0);
    assert!(tree.complicate());
    assert_eq!(tree.current(), 1 << (31 - start.leading_zeros()));
    assert!(!tree.complicate());
}

#[test]
fn masked_values_stay_in_mask() {
    let mut rng = StdRng::seed_from_u64(11);
    let input = BitSetStrategy::<u64>::masked(0x00f0_0000_0000_0f0f);
    let mut seen_set = 0u64;
    let mut seen_clear = 0u64;
    for _ in 0..256 {
        let v = input.new_tree(&mut rng).current();
        assert_eq!(v & !0x00f0_0000_0000_0f0f, 0);
        seen_set |= v;
        seen_clear |= !v;
    }
    assert_eq!(seen_set, 0x00f0_0000_0000_0f0f);
    assert_eq!(seen_clear & 0x00f0_0000_0000_0f0f, 0x00f0_0000_0000_0f0f);
}

#[test]
fn empty_range_generates_zero() {
    let mut rng = StdRng::seed_from_u64(1);
    let input = BitSetStrategy::<u16>::new(5, 5);
    let mut tree = input.new_tree(&mut rng);
    assert_eq!(tree.current(), 0);
    assert!(!tree.simplify());
}

#[test]
fn sampled_full_width_sets_every_index() {
    let mut rng = StdRng::seed_from_u64(2);
    let input = SampledBitSetStrategy::<Vec<bool>>::new(3..4, 7..10);
    for _ in 0..16 {
        let mut tree = input.new_tree(&mut rng);
        let v = tree.current();
        assert_eq!(v.len(), 10);
        assert_eq!(v, vec![false, false, false, false, false, false, false, true, true, true]);
        assert!(!tree.simplify());
    }
}

#[test]
fn var_bit_set_sampled_within_bounds() {
    let mut rng = StdRng::seed_from_u64(4);
    let input = sampled(2..5, 30..40);
    for _ in 0..64 {
        let mut tree = input.new_tree(&mut rng);
        let v = tree.current();
        let ix = v.iter();
        assert!(ix.len() >= 2 && ix.len() < 5);
        assert!(ix.iter().all(|&i| i >= 30 && i < 40));
        while tree.simplify() {}
        assert_eq!(BitSetLike::count(&tree.current()), 2);
    }
}

#[test]
fn signed_and_pointer_width_integers() {
    let mut a = <i32 as BitSetLike>::new_bitset(0);
    BitSetLike::set(&mut a, 31);
    assert_eq!(a, i32::MIN);
    assert!(BitSetLike::test(&a, 31));
    assert_eq!(BitSetLike::count(&a), 1);
    BitSetLike::set(&mut a, 0);
    BitSetLike::clear(&mut a, 31);
    assert_eq!(a, 1);
    let mut b = <i8 as BitSetLike>::new_bitset(0);
    for i in 0..8 {
        BitSetLike::set(&mut b, i);
    }
    assert_eq!(b, -1);
    assert_eq!(BitSetLike::count(&b), 8);
    let mut c = <usize as BitSetLike>::new_bitset(0);
    assert_eq!(BitSetLike::len(&c), usize::BITS as usize);
    BitSetLike::set(&mut c, 2);
    assert_eq!(c, 4);
    let mut d = <isize as BitSetLike>::new_bitset(0);
    BitSetLike::set(&mut d, 1);
    BitSetLike::set(&mut d, 3);
    assert_eq!(d, 10);
    assert_eq!(BitSetLike::count(&d), 2);
    let mut e = <i64 as BitSetLike>::new_bitset(0);
    BitSetLike::set(&mut e, 63);
    assert_eq!(e, i64::MIN);
    let mut f = <i16 as BitSetLike>::new_bitset(0);
    BitSetLike::set(&mut f, 15);
    assert_eq!(f, i16::MIN);
}

#[test]
fn signed_strategy_shrinks_to_zero() {
    let mut rng = StdRng::seed_from_u64(9);
    let input = BitSetStrategy::<i64>::new(0, 64);
    for _ in 0..32 {
        let mut tree = input.new_tree(&mut rng);
        let mut prev = tree.current();
        while tree.simplify() {
            let v = tree.current();
            assert_eq!((prev & !v).count_ones(), 1);
            assert_eq!(v & !prev, 0);
            prev = v;
        }
        assert_eq!(tree.current(), 0);
    }
}

#[test]
fn fixed_width_ignores_capacity() {
    let x = <u8 as BitSetLike>::new_bitset(100);
    assert_eq!(x, 0);
    assert_eq!(BitSetLike::len(&x), 8);
    let v = <Vec<bool> as BitSetLike>::new_bitset(3);
    assert_eq!(v, vec![false; 3]);
    assert_eq!(BitSetLike::len(&v), 3);
}

#[test]
fn masked_vec_values_have_mask_length() {
    let mut rng = StdRng::seed_from_u64(5);
    let input = BitSetStrategy::masked(vec![false, true, false, false, true, false]);
    assert_eq!(input.coin_count(), 6);
    for _ in 0..16 {
        let v = input.new_tree(&mut rng).current();
        assert_eq!(v.len(), 6);
        assert!(!v[0] && !v[2] && !v[3] && !v[5]);
    }
}

#[test]
fn saturated_has_its_length() {
    let s = VarBitSet::saturated(40);
    assert!(BitSetLike::len(&s) >= 40);
    assert_eq!(BitSetLike::count(&s), 40);
    assert!(BitSetLike::test(&s, 39));
    assert!(!BitSetLike::test(&s, 40));
}
