//! Scalars as the library holds them.
//!
//! A field value, a coordinate or an error is an IEEE 754 binary32 number. The
//! library does no arithmetic on such numbers; it stores them, hands them to
//! the caller's numeric kernel and compares them. It therefore holds each one
//! by its bit pattern, of which the sign and the order can be read exactly.
use vstd::arithmetic::power2::{
    lemma2_to64, lemma_pow2_adds, lemma_pow2_pos, lemma_pow2_strictly_increases, pow2,
};
use vstd::prelude::*;

verus! {

/// The bit pattern of a binary32 number: sign in bit 31, exponent in bits 23
/// to 30, fraction in bits 0 to 22.
pub type Scalar = u32;

/// The pattern of positive zero.
pub const ZERO: Scalar = 0;

/// The pattern of negative zero.
pub const NEGATIVE_ZERO: Scalar = 0x8000_0000;

/// The pattern of positive infinity; every larger pattern with a clear sign
/// bit is a NaN.
pub const INFINITY: Scalar = 0x7F80_0000;

/// The pattern of negative infinity; every larger pattern is a NaN.
pub const NEGATIVE_INFINITY: Scalar = 0xFF80_0000;

/// Whether the pattern is not a number.
pub open spec fn is_nan(x: Scalar) -> bool {
    INFINITY < x < NEGATIVE_ZERO || NEGATIVE_INFINITY < x
}

/// Whether the number is less than zero. Neither zero nor a NaN is.
pub open spec fn is_negative(x: Scalar) -> bool {
    NEGATIVE_ZERO < x <= NEGATIVE_INFINITY
}

/// Whether the number is greater than or equal to zero. Both zeros are; a NaN
/// is not.
pub open spec fn is_non_negative(x: Scalar) -> bool {
    x <= INFINITY || x == NEGATIVE_ZERO
}

/// The place of a number that is not a NaN in the order of the numbers: an
/// integer that grows with the number, the same for both zeros.
pub open spec fn order_key(x: Scalar) -> int {
    if x < NEGATIVE_ZERO {
        x as int
    } else {
        NEGATIVE_ZERO - x
    }
}

/// Whether `x` is less than or equal to `y` as numbers. A NaN is neither below
/// nor above anything.
pub open spec fn is_at_most(x: Scalar, y: Scalar) -> bool {
    !is_nan(x) && !is_nan(y) && order_key(x) <= order_key(y)
}

/// Whether `x` is less than `y` as numbers. A NaN is neither below nor above
/// anything, and the two zeros are equal.
pub open spec fn is_less_than(x: Scalar, y: Scalar) -> bool {
    !is_nan(x) && !is_nan(y) && order_key(x) < order_key(y)
}

/// Tells whether the number is less than zero.
pub fn negative(x: Scalar) -> (r: bool)
    ensures
        r == is_negative(x),
{
    NEGATIVE_ZERO < x && x <= NEGATIVE_INFINITY
}

/// Tells whether the number is greater than or equal to zero.
pub fn non_negative(x: Scalar) -> (r: bool)
    ensures
        r == is_non_negative(x),
{
    x <= INFINITY || x == NEGATIVE_ZERO
}

/// Tells whether the pattern is a NaN.
pub fn nan(x: Scalar) -> (r: bool)
    ensures
        r == is_nan(x),
{
    (INFINITY < x && x < NEGATIVE_ZERO) || NEGATIVE_INFINITY < x
}

/// Tells whether `x` is less than or equal to `y` as numbers.
pub fn at_most(x: Scalar, y: Scalar) -> (r: bool)
    ensures
        r == is_at_most(x, y),
{
    if nan(x) || nan(y) {
        return false;
    }
    if x < NEGATIVE_ZERO {
        // x >= 0: y must be at least as large and not below zero.
        (y < NEGATIVE_ZERO && x <= y) || (x == 0 && y == NEGATIVE_ZERO)
    } else {
        // x <= 0: every y >= 0 is above it, a negative y if its magnitude is smaller.
        y < NEGATIVE_ZERO || y <= x
    }
}

/// Tells whether `x` is less than `y` as numbers.
pub fn less_than(x: Scalar, y: Scalar) -> (r: bool)
    ensures
        r == is_less_than(x, y),
{
    if nan(x) || nan(y) {
        return false;
    }
    !at_most(y, x)
}

/// The exponent field of the pattern.
pub open spec fn exponent_field(x: Scalar) -> int {
    (x as int / 0x80_0000) % 0x100
}

/// The fraction field of the pattern.
pub open spec fn fraction_field(x: Scalar) -> int {
    x as int % 0x80_0000
}

/// Whether the pattern is that of positive or negative infinity.
pub open spec fn is_infinite(x: Scalar) -> bool {
    x == INFINITY || x == NEGATIVE_INFINITY
}

/// The magnitude of a finite number as a multiple of the least positive number
/// (2 to the power -149).
pub open spec fn magnitude(x: Scalar) -> int {
    if exponent_field(x) == 0 {
        fraction_field(x)
    } else {
        (0x80_0000 + fraction_field(x)) * pow2((exponent_field(x) - 1) as nat)
    }
}

/// A finite number as a multiple of the least positive number.
pub open spec fn scaled_value(x: Scalar) -> int {
    if x < NEGATIVE_ZERO {
        magnitude(x)
    } else {
        -magnitude(x)
    }
}

/// Whether the magnitude of `x` is greater than one and a half times `y`, the
/// two taken as real numbers or infinities: the product is exact, not rounded.
/// With a NaN on either side the answer is no.
pub open spec fn exceeds_padded(x: Scalar, y: Scalar) -> bool {
    &&& !is_nan(x)
    &&& !is_nan(y)
    &&& if is_infinite(x) {
        y != INFINITY
    } else if is_infinite(y) {
        y == NEGATIVE_INFINITY
    } else {
        2 * magnitude(x) > 3 * scaled_value(y)
    }
}

/// The magnitude as a whole number times a power of two.
proof fn lemma_magnitude(x: Scalar, mantissa: int, power: nat)
    requires
        exponent_field(x) == 0 ==> mantissa == fraction_field(x) && power == 0,
        exponent_field(x) != 0 ==> mantissa == 0x80_0000 + fraction_field(x) && power
            == exponent_field(x) - 1,
    ensures
        magnitude(x) == mantissa * pow2(power),
        0 <= mantissa < 0x100_0000,
        power >= 1 ==> mantissa >= 0x80_0000,
{
    lemma2_to64();
}

/// Multiples of powers of two compare by their whole parts once the gap
/// between the powers is known.
proof fn lemma_compare_scaled(mx: int, px: nat, my: int, py: nat)
    requires
        0 <= mx < 0x100_0000,
        0 <= my < 0x100_0000,
        px >= 1 ==> mx >= 0x80_0000,
        py >= 1 ==> my >= 0x80_0000,
    ensures
        px >= py + 2 ==> 2 * (mx * pow2(px)) > 3 * (my * pow2(py)),
        px == py + 1 ==> (2 * (mx * pow2(px)) > 3 * (my * pow2(py)) <==> 4 * mx > 3 * my),
        px == py ==> (2 * (mx * pow2(px)) > 3 * (my * pow2(py)) <==> 2 * mx > 3 * my),
        px < py ==> !(2 * (mx * pow2(px)) > 3 * (my * pow2(py))),
{
    lemma2_to64();
    lemma_pow2_pos(px);
    lemma_pow2_pos(py);
    let a = pow2(px) as int;
    let b = pow2(py) as int;
    if px >= py + 2 {
        lemma_pow2_adds((px - py) as nat, py);
        let g = pow2((px - py) as nat) as int;
        if px - py > 2 {
            lemma_pow2_strictly_increases(2, (px - py) as nat);
        }
        assert(g >= 4);
        assert(a == g * b);
        assert(2 * (mx * a) > 3 * (my * b)) by (nonlinear_arith)
            requires
                a == g * b,
                g >= 4,
                b > 0,
                mx >= 0x80_0000,
                0 <= my < 0x100_0000,
        ;
    } else if px == py + 1 {
        lemma_pow2_adds(1, py);
        assert(a == 2 * b);
        assert((2 * (mx * a) > 3 * (my * b)) <==> 4 * mx > 3 * my) by (nonlinear_arith)
            requires
                a == 2 * b,
                b > 0,
        ;
    } else if px == py {
        assert((2 * (mx * a) > 3 * (my * b)) <==> 2 * mx > 3 * my) by (nonlinear_arith)
            requires
                a == b,
                b > 0,
        ;
    } else {
        lemma_pow2_adds((py - px) as nat, px);
        let g = pow2((py - px) as nat) as int;
        if py - px > 1 {
            lemma_pow2_strictly_increases(1, (py - px) as nat);
        }
        assert(g >= 2);
        assert(b == g * a);
        assert(!(2 * (mx * a) > 3 * (my * b))) by (nonlinear_arith)
            requires
                b == g * a,
                g >= 2,
                a > 0,
                my >= 0x80_0000,
                0 <= mx < 0x100_0000,
        ;
    }
}

/// Tells whether the magnitude of `x` is greater than one and a half times `y`.
pub fn magnitude_exceeds_padded(x: Scalar, y: Scalar) -> (r: bool)
    ensures
        r == exceeds_padded(x, y),
{
    if nan(x) || nan(y) {
        return false;
    }
    if x == INFINITY || x == NEGATIVE_INFINITY {
        return y != INFINITY;
    }
    if y == INFINITY || y == NEGATIVE_INFINITY {
        return y == NEGATIVE_INFINITY;
    }
    let ex: u32 = (x / 0x80_0000) % 0x100;
    let fx: u32 = x % 0x80_0000;
    let ey: u32 = (y / 0x80_0000) % 0x100;
    let fy: u32 = y % 0x80_0000;
    let (mx, px): (u32, u32) = if ex == 0 { (fx, 0) } else { (0x80_0000 + fx, ex - 1) };
    let (my, py): (u32, u32) = if ey == 0 { (fy, 0) } else { (0x80_0000 + fy, ey - 1) };
    proof {
        lemma_magnitude(x, mx as int, px as nat);
        lemma_magnitude(y, my as int, py as nat);
        lemma_compare_scaled(mx as int, px as nat, my as int, py as nat);
        lemma_pow2_pos(px as nat);
        lemma_pow2_pos(py as nat);
    }
    if y >= NEGATIVE_ZERO {
        // y is zero or below: everything but a zero has a greater magnitude.
        assert(my * pow2(py as nat) >= 0) by (nonlinear_arith)
            requires
                my >= 0,
                pow2(py as nat) > 0,
        ;
        assert(mx * pow2(px as nat) >= 0 && (mx > 0 ==> mx * pow2(px as nat) > 0) && (mx == 0
            ==> mx * pow2(px as nat) == 0)) by (nonlinear_arith)
            requires
                mx >= 0,
                pow2(px as nat) > 0,
        ;
        assert(my > 0 ==> my * pow2(py as nat) > 0) by (nonlinear_arith)
            requires
                pow2(py as nat) > 0,
        ;
        assert(my == 0 ==> my * pow2(py as nat) == 0) by (nonlinear_arith);
        return mx > 0 || my > 0;
    }
    if px >= py + 2 {
        true
    } else if px == py + 1 {
        4 * (mx as u64) > 3 * (my as u64)
    } else if px == py {
        2 * (mx as u64) > 3 * (my as u64)
    } else {
        false
    }
}

/// The sign of a finite number is the sign of its multiple of the least
/// positive number.
pub proof fn lemma_scaled_sign(x: Scalar)
    requires
        !is_nan(x),
        !is_infinite(x),
    ensures
        is_negative(x) <==> scaled_value(x) < 0,
        is_non_negative(x) <==> scaled_value(x) >= 0,
        magnitude(x) >= 0,
{
    if exponent_field(x) != 0 {
        let mantissa = 0x80_0000 + fraction_field(x);
        let power = pow2((exponent_field(x) - 1) as nat) as int;
        lemma_pow2_pos((exponent_field(x) - 1) as nat);
        assert(mantissa * power > 0) by (nonlinear_arith)
            requires
                mantissa > 0,
                power > 0,
        ;
    }
}

/// A field that changes by no more than the distance keeps its sign within
/// reach of a corner that is out of reach of the surface. If the magnitude of
/// the field at a corner exceeds one and a half times a length, then wherever
/// the field differs from its value at the corner by no more than that length,
/// it is not zero and has the sign that it has at the corner.
pub proof fn lemma_out_of_reach_keeps_sign(corner: Scalar, length: Scalar, within: Scalar)
    requires
        exceeds_padded(corner, length),
        is_non_negative(length),
        !is_infinite(corner),
        !is_infinite(length),
        !is_nan(within),
        !is_infinite(within),
        -scaled_value(length) <= scaled_value(within) - scaled_value(corner) <= scaled_value(
            length,
        ),
    ensures
        scaled_value(within) != 0,
        is_negative(within) == is_negative(corner),
{
    lemma_scaled_sign(corner);
    lemma_scaled_sign(length);
    lemma_scaled_sign(within);
}

/// A number is below zero, or at least zero, or a NaN, and only one of these.
pub proof fn lemma_sign_trichotomy(x: Scalar)
    ensures
        is_negative(x) || is_non_negative(x) || is_nan(x),
        !(is_negative(x) && is_non_negative(x)),
        !(is_negative(x) && is_nan(x)),
        !(is_non_negative(x) && is_nan(x)),
{
}

} // verus!
