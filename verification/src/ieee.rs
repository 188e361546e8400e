//! The IEEE-754 single-precision reading of a bit pattern, and how the
//! library's treatment of vector components agrees with it.

use vstd::arithmetic::mul::lemma_mul_strict_inequality;
use vstd::arithmetic::power2::{lemma_pow2_pos, lemma_pow2_strictly_increases, lemma_pow2_unfold, pow2};
use vstd::prelude::*;

use crate::embedding::{is_nan_bits, order_key};

verus! {

/// The sign bit (bit 31) is set.
pub open spec fn sign_bit(b: u32) -> bool {
    b >= 0x8000_0000
}

/// The exponent field: bits 23 to 30.
pub open spec fn exponent_bits(b: u32) -> int {
    (b / 0x80_0000) as int % 0x100
}

/// The fraction field: bits 0 to 22.
pub open spec fn fraction_bits(b: u32) -> int {
    b as int % 0x80_0000
}

/// The pattern encodes an infinity.
pub open spec fn is_infinite(b: u32) -> bool {
    exponent_bits(b) == 0xff && fraction_bits(b) == 0
}

/// The absolute value of a finite pattern, counted in units of the smallest
/// subnormal number, 2^-149: the fraction itself when the exponent field is
/// zero, otherwise the fraction with its leading one, scaled by 2^(e - 1).
pub open spec fn magnitude(b: u32) -> int {
    let e = exponent_bits(b);
    let f = fraction_bits(b);
    if e == 0 {
        f
    } else {
        (f + 0x80_0000) * pow2((e - 1) as nat)
    }
}

/// The value of a finite pattern, in units of 2^-149.
pub open spec fn finite_value(b: u32) -> int {
    if sign_bit(b) {
        -magnitude(b)
    } else {
        magnitude(b)
    }
}

/// `x < y` as IEEE-754 compares two numbers that are not NaN.
pub open spec fn float_lt(x: u32, y: u32) -> bool {
    if is_infinite(x) {
        sign_bit(x) && !(is_infinite(y) && sign_bit(y))
    } else if is_infinite(y) {
        !sign_bit(y)
    } else {
        finite_value(x) < finite_value(y)
    }
}

/// `x == y` as IEEE-754 compares two numbers that are not NaN (so that
/// `-0.0 == 0.0`).
pub open spec fn float_eq(x: u32, y: u32) -> bool {
    if is_infinite(x) || is_infinite(y) {
        is_infinite(x) && is_infinite(y) && sign_bit(x) == sign_bit(y)
    } else {
        finite_value(x) == finite_value(y)
    }
}

/// A component is NaN exactly when its exponent field is all ones and its
/// fraction is not zero, whatever its sign: no finite number and no
/// infinity is NaN.
pub proof fn lemma_nan_bits_exact(b: u32)
    ensures
        is_nan_bits(b) <==> (exponent_bits(b) == 0xff && fraction_bits(b) != 0),
{
    assert(((b % 0x8000_0000) > 0x7f80_0000) <==> ((b / 0x80_0000) % 0x100 == 0xff && b % 0x80_0000
        != 0)) by (bit_vector);
}

/// The fields of `b`, read from its pattern without the sign bit.
proof fn lemma_fields(b: u32)
    ensures
        exponent_bits(b) == (b % 0x8000_0000) as int / 0x80_0000,
        fraction_bits(b) == (b % 0x8000_0000) as int % 0x80_0000,
        (b % 0x8000_0000) as int == ((b % 0x8000_0000) as int / 0x80_0000) * 0x80_0000 + (b
            % 0x8000_0000) as int % 0x80_0000,
        sign_bit(b) ==> (b % 0x8000_0000) as int == b - 0x8000_0000,
        !sign_bit(b) ==> (b % 0x8000_0000) as int == b,
        order_key(b) == if sign_bit(b) {
            -((b % 0x8000_0000) as int)
        } else {
            (b % 0x8000_0000) as int
        },
{
    assert((b / 0x80_0000) % 0x100 == (b % 0x8000_0000) / 0x80_0000) by (bit_vector);
    assert(b % 0x80_0000 == (b % 0x8000_0000) % 0x80_0000) by (bit_vector);
    assert(b % 0x8000_0000 == ((b % 0x8000_0000) / 0x80_0000) * 0x80_0000 + (b % 0x8000_0000)
        % 0x80_0000) by (bit_vector);
    assert(b >= 0x8000_0000 ==> b % 0x8000_0000 == b - 0x8000_0000) by (bit_vector);
    assert(b < 0x8000_0000 ==> b % 0x8000_0000 == b) by (bit_vector);
}

/// Without its sign bit, a pattern that is not NaN is at most the pattern of
/// infinity, and below it exactly when it is finite.
proof fn lemma_finite_below_infinity(b: u32)
    requires
        !is_nan_bits(b),
    ensures
        (b % 0x8000_0000) as int <= 0x7f80_0000,
        is_infinite(b) <==> (b % 0x8000_0000) as int == 0x7f80_0000,
{
    lemma_fields(b);
    lemma_nan_bits_exact(b);
}

/// Among finite patterns of one sign, a larger pattern (sign bit aside)
/// has a larger magnitude.
proof fn lemma_magnitude_increases(x: u32, y: u32)
    requires
        (x % 0x8000_0000) < (y % 0x8000_0000) < 0x7f80_0000,
    ensures
        magnitude(x) < magnitude(y),
{
    lemma_fields(x);
    lemma_fields(y);
    let ex = exponent_bits(x);
    let ey = exponent_bits(y);
    let fx = fraction_bits(x);
    let fy = fraction_bits(y);
    assert(0 <= fx < 0x80_0000 && 0 <= fy < 0x80_0000);
    assert(ex <= ey);
    assert(ey < 0xff);
    if ex == ey {
        assert(fx < fy);
        if ex > 0 {
            lemma_pow2_pos((ex - 1) as nat);
            lemma_mul_strict_inequality(fx + 0x80_0000, fy + 0x80_0000, pow2((ex - 1) as nat) as int);
        }
    } else {
        let p = pow2((ey - 1) as nat) as int;
        lemma_pow2_pos((ey - 1) as nat);
        assert(magnitude(y) >= 0x80_0000 * p) by (nonlinear_arith)
            requires
                magnitude(y) == (fy + 0x80_0000) * p,
                fy >= 0,
                p > 0,
        ;
        if ex == 0 {
            assert(magnitude(x) < 0x80_0000 * p) by (nonlinear_arith)
                requires
                    magnitude(x) == fx,
                    fx < 0x80_0000,
                    p >= 1,
            ;
        } else {
            let q = pow2((ex - 1) as nat) as int;
            lemma_pow2_pos((ex - 1) as nat);
            lemma_pow2_unfold(ex as nat);
            if ex < ey - 1 {
                lemma_pow2_strictly_increases(ex as nat, (ey - 1) as nat);
            }
            assert(2 * q <= p);
            assert(magnitude(x) < 0x80_0000 * p) by (nonlinear_arith)
                requires
                    magnitude(x) == (fx + 0x80_0000) * q,
                    fx < 0x80_0000,
                    q > 0,
                    2 * q <= p,
            ;
        }
    }
}

/// Only the patterns of zero (of either sign) have magnitude zero.
proof fn lemma_magnitude_zero(x: u32)
    requires
        (x % 0x8000_0000) < 0x7f80_0000,
    ensures
        magnitude(x) >= 0,
        magnitude(x) == 0 <==> (x % 0x8000_0000) == 0,
{
    lemma_fields(x);
    if exponent_bits(x) > 0 {
        lemma_pow2_pos((exponent_bits(x) - 1) as nat);
        assert(magnitude(x) > 0) by (nonlinear_arith)
            requires
                magnitude(x) == (fraction_bits(x) + 0x80_0000) * pow2((exponent_bits(x) - 1) as nat),
                fraction_bits(x) >= 0,
                pow2((exponent_bits(x) - 1) as nat) > 0,
        ;
    }
}

/// The key by which search ranks distances follows their IEEE-754 order:
/// of two components that are not NaN, the smaller number has the smaller
/// key, and equal numbers (such as `-0.0` and `0.0`) have equal keys.
pub proof fn lemma_order_key_follows_value(x: u32, y: u32)
    requires
        !is_nan_bits(x),
        !is_nan_bits(y),
    ensures
        float_lt(x, y) ==> order_key(x) < order_key(y),
        float_eq(x, y) ==> order_key(x) == order_key(y),
{
    lemma_fields(x);
    lemma_fields(y);
    lemma_finite_below_infinity(x);
    lemma_finite_below_infinity(y);
    let ax = (x % 0x8000_0000) as int;
    let ay = (y % 0x8000_0000) as int;
    if !is_infinite(x) && !is_infinite(y) {
        lemma_magnitude_zero(x);
        lemma_magnitude_zero(y);
        if ax < ay {
            lemma_magnitude_increases(x, y);
        } else if ay < ax {
            lemma_magnitude_increases(y, x);
        }
    }
}

/// Ranking by key agrees with IEEE-754 order both ways: of two components
/// that are not NaN, one has the smaller key exactly when it is the smaller
/// number.
pub proof fn lemma_order_key_exact(x: u32, y: u32)
    requires
        !is_nan_bits(x),
        !is_nan_bits(y),
    ensures
        order_key(x) < order_key(y) <==> float_lt(x, y),
        order_key(x) == order_key(y) <==> float_eq(x, y),
{
    lemma_order_key_follows_value(x, y);
    lemma_order_key_follows_value(y, x);
    lemma_fields(x);
    lemma_fields(y);
    lemma_finite_below_infinity(x);
    lemma_finite_below_infinity(y);
    if !is_infinite(x) && !is_infinite(y) {
        lemma_magnitude_zero(x);
        lemma_magnitude_zero(y);
    }
}

} // verus!
