//! Behaviour of the range-check and less-than gadgets on concrete
//! values, including the boundary shape of 253 bits in 85 windows of 3.

use range_lt::field::Fe;
use range_lt::less_than::LessThanChip;
use range_lt::native_range_check::{ConfigError, NativeRangeCheckChip};

const MAX_253: (u64, u64, u64, u64) =
    (u64::MAX, u64::MAX, u64::MAX, 0x1FFFFFFFFFFFFFFF);
const TWO_253: (u64, u64, u64, u64) = (0, 0, 0, 0x2000000000000000);
const P_MINUS_1: (u64, u64, u64, u64) =
    (0x992d30ed00000000, 0x224698fc094cf91b, 0, 0x4000000000000000);

fn fe(limbs: (u64, u64, u64, u64)) -> Fe {
    Fe::from_limbs(limbs.0, limbs.1, limbs.2, limbs.3).unwrap()
}

fn range_chip(w: usize, nb: usize, nw: usize) -> NativeRangeCheckChip {
    NativeRangeCheckChip::construct(NativeRangeCheckChip::configure(w, nb, nw).unwrap())
}

fn lt_chip(w: usize, nb: usize, nw: usize) -> LessThanChip {
    LessThanChip::construct(LessThanChip::configure(w, nb, nw).unwrap())
}

#[test]
fn configure_validates_shapes() {
    assert!(NativeRangeCheckChip::configure(3, 253, 85).is_ok());
    assert!(NativeRangeCheckChip::configure(3, 8, 3).is_ok());
    assert_eq!(NativeRangeCheckChip::configure(0, 8, 3), Err(ConfigError::WindowSizeZero));
    assert_eq!(NativeRangeCheckChip::configure(64, 8, 3), Err(ConfigError::WindowSizeTooLarge));
    assert_eq!(NativeRangeCheckChip::configure(3, 257, 86), Err(ConfigError::NumBitsTooLarge));
    assert_eq!(NativeRangeCheckChip::configure(4, 16, 3), Err(ConfigError::NotEnoughWindows));
    assert_eq!(NativeRangeCheckChip::configure(3, 4, 85), Err(ConfigError::TooManyWindows));
    assert_eq!(NativeRangeCheckChip::configure(3, 252, 85), Err(ConfigError::TooManyWindows));
    assert_eq!(LessThanChip::configure(0, 8, 3), Err(ConfigError::WindowSizeZero));
    assert!(LessThanChip::configure(3, 253, 85).is_ok());
}

#[test]
fn table_holds_every_window_value_once() {
    let cfg = NativeRangeCheckChip::configure(3, 253, 85).unwrap();
    let table = NativeRangeCheckChip::load_k_table(&cfg);
    assert_eq!(table.len(), 8);
    for (i, row) in table.iter().enumerate() {
        assert_eq!(*row, i as u64);
    }
    let cfg5 = NativeRangeCheckChip::configure(5, 10, 2).unwrap();
    let table5 = NativeRangeCheckChip::load_k_table(&cfg5);
    assert_eq!(table5.len(), 32);
    for (i, row) in table5.iter().enumerate() {
        assert_eq!(*row, i as u64);
    }
}

#[test]
fn windows_reassemble_the_value() {
    let chip = range_chip(3, 8, 3);
    let w = chip.config.window_size;
    let witness = chip.witness_range_check(&Fe::from_u64(171), true);
    assert_eq!(witness.k.len(), 3);
    let mut sum: u64 = 0;
    for (i, k) in witness.k.iter().enumerate() {
        assert!(*k < 8);
        sum += *k << (w * i);
    }
    assert_eq!(sum, 171);
}

#[test]
fn windows_truncate_beyond_the_bound() {
    let chip = range_chip(3, 8, 3);
    let witness = chip.witness_range_check(&Fe::from_u64(300), false);
    let mut sum: u64 = 0;
    for (i, k) in witness.k.iter().enumerate() {
        assert!(*k < 8);
        sum += *k << (3 * i);
    }
    assert_eq!(sum, 300 % 256);
}

#[test]
fn strict_check_accepts_values_in_range() {
    let chip = range_chip(3, 8, 3);
    for v in [0u64, 1, 7, 128, 254, 255] {
        let witness = chip.witness_range_check(&Fe::from_u64(v), true);
        assert_eq!(witness.z.len(), 4);
        assert!(witness.satisfied());
    }
}

#[test]
fn strict_check_rejects_values_beyond_capacity() {
    let chip = range_chip(3, 8, 3);
    for v in [512u64, 513, 1000, u64::MAX] {
        let witness = chip.witness_range_check(&Fe::from_u64(v), true);
        assert!(!witness.satisfied());
    }
}

#[test]
fn non_strict_bound_is_the_window_capacity() {
    let chip = range_chip(3, 8, 3);
    // values beyond the exact bound, up to the window capacity 2^9 - 1:
    // every lookup row still passes, only the strict remainder fails
    for v in [256u64, 300, 511] {
        let lax = chip.witness_range_check(&Fe::from_u64(v), false);
        assert!(lax.satisfied());
        for k in lax.k.iter() {
            assert!(*k < 8);
        }
        let strict = chip.witness_range_check(&Fe::from_u64(v), true);
        assert!(!strict.satisfied());
    }
}

#[test]
fn chain_divides_step_by_step() {
    let chip = range_chip(3, 8, 3);
    let witness = chip.witness_range_check(&Fe::from_u64(171), true);
    // 171 = 0b10101011: windows 3, 5, 2; chain 171, 21, 2, 0
    assert_eq!(witness.k, vec![3, 5, 2]);
    let expected: [u64; 4] = [171, 21, 2, 0];
    for (z, e) in witness.z.iter().zip(expected.iter()) {
        assert_eq!(*z, Fe::from_u64(*e));
    }
}

#[test]
fn less_than_accepts_ordered_small_pairs() {
    let chip = lt_chip(3, 8, 3);
    for (a, b) in [(0u64, 1u64), (3, 5), (0, 255), (254, 255)] {
        let witness = chip.witness_less_than(&Fe::from_u64(a), &Fe::from_u64(b), true);
        assert!(witness.satisfied());
    }
    // a_offset = a + 2^8 - b
    let witness = chip.witness_less_than(&Fe::from_u64(3), &Fe::from_u64(5), true);
    assert_eq!(witness.a_offset, Fe::from_u64(254));
}

#[test]
fn less_than_rejects_unordered_small_pairs() {
    let chip = lt_chip(3, 8, 3);
    for (a, b) in [(0u64, 0u64), (1, 0), (5, 3), (255, 255), (255, 0)] {
        let witness = chip.witness_less_than(&Fe::from_u64(a), &Fe::from_u64(b), true);
        assert!(!witness.satisfied());
    }
}

#[test]
fn copy_variants_agree_with_fresh_witnesses() {
    let chip = lt_chip(3, 8, 3);
    let a = Fe::from_u64(3);
    let b = Fe::from_u64(5);
    let fresh = chip.witness_less_than(&a, &b, true);
    let copied = chip.copy_less_than(&a, &b, true);
    assert_eq!(fresh.a_offset, copied.a_offset);
    assert_eq!(fresh.range_a.z, copied.range_a.z);
    let rchip = range_chip(3, 8, 3);
    let w1 = rchip.witness_range_check(&a, true);
    let w2 = rchip.copy_range_check(&a, true);
    assert_eq!(w1.z, w2.z);
    assert_eq!(w1.k, w2.k);
}

#[test]
fn boundary_shape_orders_big_values() {
    let chip = lt_chip(3, 253, 85);
    let max253 = fe(MAX_253);
    // the driver pairs that must pass
    let valid = [
        (Fe::zero(), Fe::one()),
        (Fe::from_u64(u64::MAX), fe((0, 1, 0, 0))),
        (fe((u64::MAX, u64::MAX, 0, 0)), fe((0, 0, 1, 0))),
        (max253.sub_mod(&Fe::from_u64(2)), max253.sub_mod(&Fe::one())),
        (max253.sub_mod(&Fe::one()), max253),
    ];
    for (a, b) in valid.iter() {
        let witness = chip.witness_less_than(a, b, true);
        assert!(witness.satisfied());
    }
}

#[test]
fn boundary_shape_rejects_unordered_big_values() {
    let chip = lt_chip(3, 253, 85);
    let max253 = fe(MAX_253);
    let two253 = fe(TWO_253);
    let pm1 = fe(P_MINUS_1);
    let invalid = [
        (Fe::zero(), Fe::zero()),
        (Fe::one(), Fe::zero()),
        (pm1.sub_mod(&Fe::one()), pm1),
        (pm1, pm1),
        (pm1, Fe::zero()),
        (max253, max253),
        (max253, Fe::zero()),
        (max253, Fe::one()),
        (two253, Fe::zero()),
        (two253, Fe::one()),
        (two253, two253),
        (two253, two253.add_mod(&Fe::one())),
    ];
    for (a, b) in invalid.iter() {
        let witness = chip.witness_less_than(a, b, true);
        assert!(!witness.satisfied());
    }
}

#[test]
fn boundary_comparison_at_the_representable_edge() {
    // a = 2^253 - 1 is the largest in-range value; b = 2^253 exceeds the
    // bound.  The gadget never range-checks b — only a and the offset —
    // and the offset a + 2^253 - b = 2^253 - 1 is in range, so the
    // constraints are satisfied.  The comparison guarantee is only
    // meaningful when b is separately known to be in range.
    let chip = lt_chip(3, 253, 85);
    let witness = chip.witness_less_than(&fe(MAX_253), &fe(TWO_253), true);
    assert_eq!(witness.a_offset, fe(MAX_253));
    assert!(witness.satisfied());
}

#[test]
fn strict_flag_reaches_the_witness() {
    let chip = range_chip(3, 8, 3);
    assert!(chip.witness_range_check(&Fe::from_u64(1), true).strict);
    assert!(!chip.witness_range_check(&Fe::from_u64(1), false).strict);
}
