//! The comparisons on bit patterns against the numbers they stand for.
use octree_dual_contour::scalar::{
    at_most, less_than, magnitude_exceeds_padded, nan, negative, non_negative, INFINITY,
    NEGATIVE_INFINITY, NEGATIVE_ZERO, ZERO,
};

fn samples() -> Vec<f32> {
    let mut values = vec![
        0.0,
        -0.0,
        1.0,
        -1.0,
        1.5,
        -1.5,
        2.0,
        3.0,
        0.1,
        -0.1,
        0.75,
        f32::MIN_POSITIVE,
        -f32::MIN_POSITIVE,
        f32::from_bits(1),
        f32::from_bits(0x8000_0001),
        f32::from_bits(0x007F_FFFF),
        f32::from_bits(0x0080_0001),
        f32::from_bits(0x00C0_0000),
        f32::MAX,
        -f32::MAX,
        f32::MAX / 1.5,
        f32::MAX / 2.0,
        f32::INFINITY,
        f32::NEG_INFINITY,
        f32::NAN,
        f32::from_bits(0xFFC0_0000),
        f32::from_bits(0x7F80_0001),
        f32::from_bits(0xFFFF_FFFF),
        34.641_016,
        51.961_525,
        12.320_508,
    ];
    // A fixed pseudo-random walk over all patterns.
    let mut state: u32 = 0x1234_5678;
    for _ in 0..2000 {
        state = state.wrapping_mul(1_664_525).wrapping_add(1_013_904_223);
        values.push(f32::from_bits(state));
    }
    values
}

#[test]
fn sign_is_read_off_the_pattern() {
    for x in samples() {
        assert_eq!(negative(x.to_bits()), x < 0.0, "{x}");
        assert_eq!(non_negative(x.to_bits()), x >= 0.0, "{x}");
        assert_eq!(nan(x.to_bits()), x.is_nan(), "{x}");
    }
}

#[test]
fn zero_of_either_sign_is_not_negative() {
    assert!(!negative(ZERO));
    assert!(!negative(NEGATIVE_ZERO));
    assert!(non_negative(ZERO));
    assert!(non_negative(NEGATIVE_ZERO));
    assert_eq!(ZERO, 0.0f32.to_bits());
    assert_eq!(NEGATIVE_ZERO, (-0.0f32).to_bits());
    assert_eq!(INFINITY, f32::INFINITY.to_bits());
    assert_eq!(NEGATIVE_INFINITY, f32::NEG_INFINITY.to_bits());
}

#[test]
fn nan_is_neither_negative_nor_positive() {
    for bits in [f32::NAN.to_bits(), 0x7F80_0001, 0xFFC0_0000, 0xFFFF_FFFF] {
        assert!(nan(bits));
        assert!(!negative(bits));
        assert!(!non_negative(bits));
    }
}

#[test]
fn order_is_read_off_the_patterns() {
    let values = samples();
    for (i, x) in values.iter().enumerate() {
        for y in values.iter().skip(i % 7).step_by(7) {
            assert_eq!(at_most(x.to_bits(), y.to_bits()), x <= y, "{x} <= {y}");
            assert_eq!(less_than(x.to_bits(), y.to_bits()), x < y, "{x} < {y}");
        }
    }
}

#[test]
fn zeros_are_equal_in_the_order() {
    assert!(at_most(ZERO, NEGATIVE_ZERO));
    assert!(at_most(NEGATIVE_ZERO, ZERO));
    assert!(!less_than(NEGATIVE_ZERO, ZERO));
    assert!(!less_than(ZERO, NEGATIVE_ZERO));
}

#[test]
fn padded_comparison_is_exact() {
    let values = samples();
    for (i, x) in values.iter().enumerate() {
        for y in values.iter().skip(i % 5).step_by(5) {
            // Both sides are exact in double precision.
            let expected = (*x as f64).abs() > 1.5 * (*y as f64);
            let found = magnitude_exceeds_padded(x.to_bits(), y.to_bits());
            assert_eq!(found, expected, "|{x}| > 1.5 * {y}");
        }
    }
}

#[test]
fn padded_comparison_at_the_threshold() {
    let exceeds = |x: f32, y: f32| magnitude_exceeds_padded(x.to_bits(), y.to_bits());
    assert!(!exceeds(1.5, 1.0));
    assert!(!exceeds(-1.5, 1.0));
    assert!(exceeds(f32::from_bits(1.5f32.to_bits() + 1), 1.0));
    assert!(!exceeds(f32::from_bits(1.5f32.to_bits() - 1), 1.0));
    assert!(exceeds(-3.1, 2.0));
    assert!(!exceeds(3.0, 2.0));
    assert!(!exceeds(0.0, 0.0));
    assert!(exceeds(f32::from_bits(1), 0.0));
    assert!(exceeds(0.0, -1.0));
    assert!(!exceeds(f32::NAN, 0.0));
    assert!(!exceeds(1.0, f32::NAN));
    assert!(exceeds(f32::INFINITY, f32::MAX));
    assert!(!exceeds(f32::INFINITY, f32::INFINITY));
    assert!(!exceeds(f32::MAX, f32::INFINITY));
    // The least positive number: one and a half of it is no number of this
    // width, and two of them exceed it.
    assert!(!exceeds(f32::from_bits(1), f32::from_bits(1)));
    assert!(exceeds(f32::from_bits(2), f32::from_bits(1)));
    // Where the product would round up in single precision, the comparison
    // still takes it as it is.
    let y = f32::from_bits(0x3F80_0001);
    let rounded = 1.5f32 * y;
    assert!((rounded as f64) > 1.5 * (y as f64));
    assert!(exceeds(rounded, y));
}
