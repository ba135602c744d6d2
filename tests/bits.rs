use bit_set::BitSet;
use proptest_bits::{BitSetStrategy, SampledBitSetStrategy};
use rand::rngs::StdRng;
use rand::SeedableRng;

fn default_rng() -> StdRng {
    StdRng::seed_from_u64(0x5eed)
}

fn deterministic_rng() -> StdRng {
    StdRng::seed_from_u64(0)
}

#[test]
fn generates_values_in_range() {
    let input = BitSetStrategy::<u32>::new(4, 8);

    let mut rng = default_rng();
    for _ in 0..256 {
        let value = input.new_tree(&mut rng).current();
        assert!(0 == value & !0xF0u32, "Generate value {}", value);
    }
}

#[test]
fn generates_values_in_mask() {
    let mut accum = 0;

    let mut rng = deterministic_rng();
    let input = BitSetStrategy::<u32>::masked(0xdeadbeef);
    for _ in 0..1024 {
        accum |= input.new_tree(&mut rng).current();
    }

    assert_eq!(0xdeadbeef, accum);
}

#[test]
fn mask_bounds_for_bitset_correct() {
    let mut seen_0 = false;
    let mut seen_2 = false;

    let mut mask = BitSet::new();
    mask.insert(0);
    mask.insert(2);

    let mut rng = deterministic_rng();
    let input = BitSetStrategy::masked(mask);
    for _ in 0..32 {
        let v = input.new_tree(&mut rng).current();
        seen_0 |= v.contains(0);
        seen_2 |= v.contains(2);
    }

    assert!(seen_0);
    assert!(seen_2);
}

#[test]
fn mask_bounds_for_vecbool_correct() {
    let mut seen_0 = false;
    let mut seen_2 = false;

    let mask = vec![true, false, true, false];

    let mut rng = deterministic_rng();
    let input = BitSetStrategy::masked(mask);
    for _ in 0..32 {
        let v = input.new_tree(&mut rng).current();
        assert_eq!(4, v.len());
        seen_0 |= v[0];
        seen_2 |= v[2];
    }

    assert!(seen_0);
    assert!(seen_2);
}

#[test]
fn shrinks_to_zero() {
    let input = BitSetStrategy::<u32>::new(4, 24);

    let mut rng = default_rng();
    for _ in 0..256 {
        let mut value = input.new_tree(&mut rng);
        let mut prev = value.current();
        while value.simplify() {
            let v = value.current();
            assert!(1 == (prev & !v).count_ones(), "Shrank from {} to {}", prev, v);
            prev = v;
        }

        assert_eq!(0, value.current());
    }
}

#[test]
fn complicates_to_previous() {
    let input = BitSetStrategy::<u32>::new(4, 24);

    let mut rng = default_rng();
    for _ in 0..256 {
        let mut value = input.new_tree(&mut rng);
        let orig = value.current();
        if value.simplify() {
            assert!(value.complicate());
            assert_eq!(orig, value.current());
        }
    }
}

#[test]
fn sampled_selects_correct_sizes_and_bits() {
    let input = SampledBitSetStrategy::<u32>::new(4..8, 10..20);
    let mut seen_counts = [0; 32];
    let mut seen_bits = [0; 32];

    let mut rng = deterministic_rng();
    for _ in 0..2048 {
        let value = input.new_tree(&mut rng).current();
        let count = value.count_ones() as usize;
        assert!(count >= 4 && count < 8);
        seen_counts[count] += 1;

        for bit in 0..32 {
            if 0 != value & (1 << bit) {
                assert!(bit >= 10 && bit < 20);
                seen_bits[bit] += value;
            }
        }
    }

    for i in 4..8 {
        assert!(seen_counts[i] >= 256 && seen_counts[i] < 1024);
    }

    let least_seen_bit_count = seen_bits[10..20].iter().cloned().min().unwrap();
    let most_seen_bit_count = seen_bits[10..20].iter().cloned().max().unwrap();
    assert_eq!(1, most_seen_bit_count / least_seen_bit_count);
}

#[test]
fn sampled_doesnt_shrink_below_min_size() {
    let input = SampledBitSetStrategy::<u32>::new(4..8, 10..20);

    let mut rng = default_rng();
    for _ in 0..256 {
        let mut value = input.new_tree(&mut rng);
        while value.simplify() {}

        assert_eq!(4, value.current().count_ones());
    }
}

#[test]
fn test_sanity() {
    let input = BitSetStrategy::<u32>::masked(0xdeadbeef);
    let mut rng = deterministic_rng();
    for _ in 0..256 {
        let mut tree = input.new_tree(&mut rng);
        let first = tree.current();
        assert_eq!(first & !0xdeadbeef, 0);
        let mut steps = 0;
        while tree.simplify() {
            let v = tree.current();
            assert_eq!(v & !first, 0);
            assert_eq!((first & !v).count_ones(), 1);
            assert!(tree.complicate());
            assert_eq!(tree.current(), first);
            assert!(!tree.complicate());
            assert_eq!(tree.current(), first);
            steps += 1;
        }
        assert_eq!(steps, first.count_ones());
        assert_eq!(tree.current(), first);
    }
}
