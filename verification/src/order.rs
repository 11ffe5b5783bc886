//! The order of `f32` values read from their bit patterns.
//!
//! Intensities and angles reach the library as the `u32` bit patterns of
//! their `f32` values (`f32::to_bits`). A NaN compares with nothing. Any
//! other value's order is that of its sign-magnitude integer: non-negative
//! values grow with their bits, negative ones shrink, and `-0 == +0`.
use vstd::prelude::*;

verus! {

/// Bits of `+0.0`.
pub const F32_ZERO_BITS: u32 = 0;

/// Bits of `+∞`.
pub const F32_INFINITY_BITS: u32 = 0x7f80_0000;

/// Bits of `-∞`.
pub const F32_NEG_INFINITY_BITS: u32 = 0xff80_0000;

/// A NaN: all exponent bits set and a non-zero mantissa.
pub open spec fn f32_is_nan(b: u32) -> bool {
    b % 0x8000_0000 > 0x7f80_0000
}

/// Position of a non-NaN value on the number line: the magnitude bits,
/// negated for a set sign bit.
pub open spec fn f32_rank(b: u32) -> int {
    if b >= 0x8000_0000 {
        -(b - 0x8000_0000)
    } else {
        b as int
    }
}

/// `a < b` between the `f32` values with bits `a` and `b`.
pub open spec fn f32_lt(a: u32, b: u32) -> bool {
    !f32_is_nan(a) && !f32_is_nan(b) && f32_rank(a) < f32_rank(b)
}

/// `a >= b` between the `f32` values with bits `a` and `b`.
pub open spec fn f32_ge(a: u32, b: u32) -> bool {
    !f32_is_nan(a) && !f32_is_nan(b) && f32_rank(a) >= f32_rank(b)
}

/// `a < b` on `f32` bit patterns.
pub fn f32_bits_lt(a: u32, b: u32) -> (r: bool)
    ensures
        r == f32_lt(a, b),
{
    if a % 0x8000_0000 > 0x7f80_0000 || b % 0x8000_0000 > 0x7f80_0000 {
        return false;
    }
    let ra: i64 = if a >= 0x8000_0000 {
        -((a - 0x8000_0000) as i64)
    } else {
        a as i64
    };
    let rb: i64 = if b >= 0x8000_0000 {
        -((b - 0x8000_0000) as i64)
    } else {
        b as i64
    };
    ra < rb
}

/// `a >= b` on `f32` bit patterns.
pub fn f32_bits_ge(a: u32, b: u32) -> (r: bool)
    ensures
        r == f32_ge(a, b),
{
    if a % 0x8000_0000 > 0x7f80_0000 || b % 0x8000_0000 > 0x7f80_0000 {
        return false;
    }
    !f32_bits_lt(a, b)
}

/// Law: the order of IEEE-754 single precision on bit patterns. A NaN is
/// neither below nor above anything. Among non-negative values (sign bit
/// clear) a larger pattern is a larger value; among negative values (sign
/// bit set) a larger pattern is a smaller value; a negative value lies
/// below every non-negative one except that `-0` and `+0` are equal;
/// `+∞` and `-∞` bound every other value; and `>=` is the negation of `<`
/// on values that are not NaN.
pub proof fn lemma_f32_order(a: u32, b: u32)
    ensures
        f32_is_nan(a) || f32_is_nan(b) ==> !f32_lt(a, b) && !f32_ge(a, b),
        !f32_is_nan(a) && !f32_is_nan(b) && a < 0x8000_0000 && b < 0x8000_0000 ==> (f32_lt(a, b)
            <==> a < b),
        !f32_is_nan(a) && !f32_is_nan(b) && a >= 0x8000_0000 && b >= 0x8000_0000 ==> (f32_lt(a, b)
            <==> a > b),
        !f32_is_nan(a) && !f32_is_nan(b) && a >= 0x8000_0000 && b < 0x8000_0000 ==> (f32_lt(a, b)
            <==> !(a == 0x8000_0000 && b == 0)),
        !f32_is_nan(a) && !f32_is_nan(b) && a < 0x8000_0000 && b >= 0x8000_0000 ==> !f32_lt(a, b),
        !f32_is_nan(a) && !f32_is_nan(b) ==> (f32_ge(a, b) <==> !f32_lt(a, b)),
        !f32_is_nan(a) && a != F32_INFINITY_BITS ==> f32_lt(a, F32_INFINITY_BITS),
        !f32_is_nan(a) && a != F32_NEG_INFINITY_BITS ==> f32_lt(F32_NEG_INFINITY_BITS, a),
{
}

} // verus!
