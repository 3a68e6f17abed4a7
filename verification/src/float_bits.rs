//! Single-precision numbers as their bit patterns: which are NaN, and how the rest compare.
//!
//! A bit pattern has the sign in its top bit, then eight exponent bits, then the fraction. An
//! exponent of all ones is infinity where the fraction is zero and NaN where it is not.

use vstd::prelude::*;

verus! {

/// The sign bit.
pub const SIGN: u32 = 0x8000_0000;

/// Positive infinity: the greatest magnitude that is not NaN.
pub const INFINITY: u32 = 0x7f80_0000;

/// The bit pattern without its sign.
pub open spec fn magnitude(bits: u32) -> int {
    if bits < SIGN {
        bits as int
    } else {
        bits - SIGN
    }
}

/// Whether the pattern is one of the NaNs.
pub open spec fn nan(bits: u32) -> bool {
    magnitude(bits) > INFINITY
}

/// Where the pattern stands in the IEEE 754 `totalOrder`, which puts -0 right below +0 and NaNs at
/// both ends.
pub open spec fn total_rank(bits: u32) -> int {
    if bits < SIGN {
        bits as int
    } else {
        -1 - magnitude(bits)
    }
}

/// Where the pattern stands in the numeric order, in which -0 and +0 are equal.
pub open spec fn numeric_rank(bits: u32) -> int {
    if bits < SIGN {
        bits as int
    } else {
        -magnitude(bits)
    }
}

/// Whether the number is zero or below; false of NaN.
pub open spec fn not_positive(bits: u32) -> bool {
    !nan(bits) && numeric_rank(bits) <= 0
}

/// Tells a NaN from a number.
pub fn is_nan(bits: u32) -> (answer: bool)
    ensures
        answer == nan(bits),
{
    if bits < SIGN {
        bits > INFINITY
    } else {
        bits - SIGN > INFINITY
    }
}

/// The place of a pattern in the total order.
pub fn total_order_key(bits: u32) -> (key: i64)
    ensures
        key == total_rank(bits),
{
    if bits < SIGN {
        bits as i64
    } else {
        -1 - (bits - SIGN) as i64
    }
}

/// The place of a pattern in the numeric order.
pub fn numeric_order_key(bits: u32) -> (key: i64)
    ensures
        key == numeric_rank(bits),
{
    if bits < SIGN {
        bits as i64
    } else {
        -((bits - SIGN) as i64)
    }
}

/// Tells a number that is zero or below.
pub fn is_not_positive(bits: u32) -> (answer: bool)
    ensures
        answer == not_positive(bits),
{
    !is_nan(bits) && numeric_order_key(bits) <= 0
}

/// The total order tells any two patterns apart.
pub proof fn law_total_order_separates(a: u32, b: u32)
    ensures
        total_rank(a) == total_rank(b) <==> a == b,
{
}

/// The total order never contradicts the numeric order.
pub proof fn law_total_order_refines_numeric_order(a: u32, b: u32)
    ensures
        numeric_rank(a) < numeric_rank(b) ==> total_rank(a) < total_rank(b),
{
}

/// A pattern is a NaN exactly where its exponent bits are all ones and its fraction is not zero.
pub proof fn law_nan_is_told_by_its_bits(bits: u32)
    ensures
        nan(bits) <==> (bits & 0x7f80_0000) == 0x7f80_0000 && (bits & 0x007f_ffff) != 0,
{
    assert((bits & 0x7fff_ffff) == if bits < 0x8000_0000 {
        bits
    } else {
        (bits - 0x8000_0000) as u32
    }) by (bit_vector);
    assert((bits & 0x7fff_ffff) > 0x7f80_0000 <==> (bits & 0x7f80_0000) == 0x7f80_0000 && (bits
        & 0x007f_ffff) != 0) by (bit_vector);
}

/// The total order goes by sign, then by magnitude: of two patterns without a sign the smaller
/// stands first, of two with one the greater, and those with a sign stand before those without.
pub proof fn law_total_order_goes_by_sign_and_magnitude(a: u32, b: u32)
    ensures
        a < 0x8000_0000 && b < 0x8000_0000 ==> (total_rank(a) < total_rank(b) <==> a < b),
        a >= 0x8000_0000 && b >= 0x8000_0000 ==> (total_rank(a) < total_rank(b) <==> b < a),
        a >= 0x8000_0000 && b < 0x8000_0000 ==> total_rank(a) < total_rank(b),
{
}

/// The numeric order is the total order, but for the two zeros, which are equal in it.
pub proof fn law_numeric_order_joins_the_zeros(a: u32, b: u32)
    ensures
        (a == 0 || a == 0x8000_0000) && (b == 0 || b == 0x8000_0000) ==> numeric_rank(a)
            == numeric_rank(b),
        !((a == 0 || a == 0x8000_0000) && (b == 0 || b == 0x8000_0000)) ==> (numeric_rank(a)
            < numeric_rank(b) <==> total_rank(a) < total_rank(b)),
{
}

/// Not above zero are the zeros and the numbers with a sign, and no NaN.
pub proof fn law_not_positive_is_zero_or_signed(bits: u32)
    ensures
        not_positive(bits) <==> bits == 0 || 0x8000_0000 <= bits <= 0xff80_0000,
{
}

} // verus!
