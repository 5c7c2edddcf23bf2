//! Ordering and sign of `f32` values, decided on their IEEE-754 bit
//! patterns.
//!
//! A `u32` here is always the bit pattern of an `f32` (`f32::to_bits`).
//! [`total_order_key`] maps a bit pattern to an unsigned key whose natural
//! order is the IEEE-754 `totalOrder` predicate (the order of
//! `f32::total_cmp`); [`ieee_less`] is the ordinary `<` of `f32`, NaN and
//! signed zeros included; [`negate_bits`] is unary `-`.

use vstd::prelude::*;

verus! {

/// The sign bit of an `f32` bit pattern.
pub open spec fn sign_bit() -> u32 {
    0x8000_0000u32
}

/// True when the bit pattern has its sign bit set.
pub open spec fn is_sign_negative_spec(b: u32) -> bool {
    b >= 0x8000_0000u32
}

/// The biased exponent field (bits 23..31).
pub open spec fn exponent_field(b: u32) -> int {
    (b as int % 0x8000_0000) / 0x80_0000
}

/// The mantissa field (bits 0..23).
pub open spec fn mantissa_field(b: u32) -> int {
    b as int % 0x80_0000
}

/// True when the bit pattern encodes a NaN.
pub open spec fn is_nan_spec(b: u32) -> bool {
    exponent_field(b) == 255 && mantissa_field(b) != 0
}

/// True when the bit pattern encodes `+0.0` or `-0.0`.
pub open spec fn is_zero_spec(b: u32) -> bool {
    b as int % 0x8000_0000 == 0
}

/// True when the bit pattern encodes a finite value (not NaN, not infinite).
pub open spec fn is_finite_spec(b: u32) -> bool {
    exponent_field(b) != 255
}

/// The key whose unsigned order is the IEEE-754 total order on bit
/// patterns: negative patterns are reflected below all positive ones, and
/// within each sign the order follows the magnitude.
pub open spec fn total_key(b: u32) -> u32 {
    if b >= 0x8000_0000u32 {
        (0xFFFF_FFFFu32 - b) as u32
    } else {
        (b + 0x8000_0000u32) as u32
    }
}

/// `f32` comparison `<` on bit patterns: false when either side is NaN,
/// false between the two zeros, and otherwise the total order.
pub open spec fn ieee_lt(a: u32, b: u32) -> bool {
    &&& !is_nan_spec(a)
    &&& !is_nan_spec(b)
    &&& !(is_zero_spec(a) && is_zero_spec(b))
    &&& total_key(a) < total_key(b)
}

/// `f32` unary minus on bit patterns: flip the sign bit.
pub open spec fn neg_spec(b: u32) -> u32 {
    if b >= 0x8000_0000u32 {
        (b - 0x8000_0000u32) as u32
    } else {
        (b + 0x8000_0000u32) as u32
    }
}

/// Distinct bit patterns have distinct keys: the key is a bijection.
pub proof fn lemma_total_key_injective(a: u32, b: u32)
    ensures
        total_key(a) == total_key(b) <==> a == b,
{
}

/// Negating twice gives back the same bit pattern.
pub proof fn lemma_negate_involutive(b: u32)
    ensures
        neg_spec(neg_spec(b)) == b,
{
}

/// Negation reverses `<`: for non-NaN values that are not both zero,
/// `-a < -b` exactly when `b < a`.
pub proof fn lemma_negate_reverses_order(a: u32, b: u32)
    requires
        !is_nan_spec(a),
        !is_nan_spec(b),
        !(is_zero_spec(a) && is_zero_spec(b)),
    ensures
        ieee_lt(neg_spec(a), neg_spec(b)) <==> ieee_lt(b, a),
{
}

/// The total-order key of an `f32` bit pattern (see [`total_key`]).
pub fn total_order_key(b: u32) -> (k: u32)
    ensures
        k == total_key(b),
{
    if b >= 0x8000_0000u32 {
        0xFFFF_FFFFu32 - b
    } else {
        b + 0x8000_0000u32
    }
}

/// `f32::is_nan` on a bit pattern.
pub fn is_nan_bits(b: u32) -> (r: bool)
    ensures
        r == is_nan_spec(b),
{
    let magnitude = b % 0x8000_0000u32;
    magnitude / 0x80_0000u32 == 255 && magnitude % 0x80_0000u32 != 0
}

/// `f32::is_finite` on a bit pattern.
pub fn is_finite_bits(b: u32) -> (r: bool)
    ensures
        r == is_finite_spec(b),
{
    (b % 0x8000_0000u32) / 0x80_0000u32 != 255
}

/// `a < b` for the `f32` values whose bit patterns are `a` and `b`.
pub fn ieee_less(a: u32, b: u32) -> (r: bool)
    ensures
        r == ieee_lt(a, b),
{
    if is_nan_bits(a) || is_nan_bits(b) {
        return false;
    }
    if a % 0x8000_0000u32 == 0 && b % 0x8000_0000u32 == 0 {
        return false;
    }
    total_order_key(a) < total_order_key(b)
}

/// Unary `-` of the `f32` value whose bit pattern is `b`.
pub fn negate_bits(b: u32) -> (r: u32)
    ensures
        r == neg_spec(b),
{
    if b >= 0x8000_0000u32 {
        b - 0x8000_0000u32
    } else {
        b + 0x8000_0000u32
    }
}

} // verus!
