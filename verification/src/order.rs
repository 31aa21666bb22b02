//! How `f64` values compare, read from their IEEE-754 binary64 bit patterns.
//!
//! Distances and ranges reach the library as bit patterns. These are the
//! comparisons the simulation makes on the values themselves: `f64::total_cmp`
//! and the IEEE `<` and `<=` (false whenever a NaN takes part, and `-0.0`
//! equal to `0.0`).
use vstd::prelude::*;

verus! {

/// The sign bit of a binary64 pattern.
pub const SIGN_BIT: u64 = 0x8000_0000_0000_0000;

/// The bits of a binary64 pattern other than the sign.
pub const MAGNITUDE_BITS: u64 = 0x7fff_ffff_ffff_ffff;

/// The magnitude bits of +infinity; any larger magnitude is a NaN.
pub const INFINITY_MAGNITUDE: u64 = 0x7ff0_0000_0000_0000;

/// The value is a NaN.
pub open spec fn is_nan(x: u64) -> bool {
    x & MAGNITUDE_BITS > INFINITY_MAGNITUDE
}

/// The value is `0.0` or `-0.0`.
pub open spec fn is_zero(x: u64) -> bool {
    x & MAGNITUDE_BITS == 0
}

/// The key by which `f64::total_cmp` orders values: negative values with
/// every bit flipped, the others with the sign bit set, compared as
/// unsigned integers.
pub open spec fn total_key(x: u64) -> u64 {
    if x & SIGN_BIT != 0 {
        !x
    } else {
        x | SIGN_BIT
    }
}

/// IEEE `a < b`.
pub open spec fn f64_lt(a: u64, b: u64) -> bool {
    &&& !is_nan(a)
    &&& !is_nan(b)
    &&& !(is_zero(a) && is_zero(b))
    &&& total_key(a) < total_key(b)
}

/// IEEE `a <= b`.
pub open spec fn f64_le(a: u64, b: u64) -> bool {
    &&& !is_nan(a)
    &&& !is_nan(b)
    &&& (is_zero(a) && is_zero(b) || total_key(a) <= total_key(b))
}

/// The `total_cmp` key of `x`.
pub fn total_key_of(x: u64) -> (r: u64)
    ensures
        r == total_key(x),
{
    if x & SIGN_BIT != 0 {
        !x
    } else {
        x | SIGN_BIT
    }
}

/// IEEE `a < b` on the values whose bit patterns are `a` and `b`.
pub fn lt(a: u64, b: u64) -> (r: bool)
    ensures
        r == f64_lt(a, b),
{
    let nan = a & MAGNITUDE_BITS > INFINITY_MAGNITUDE || b & MAGNITUDE_BITS > INFINITY_MAGNITUDE;
    let zeros = a & MAGNITUDE_BITS == 0 && b & MAGNITUDE_BITS == 0;
    !nan && !zeros && total_key_of(a) < total_key_of(b)
}

/// IEEE `a <= b` on the values whose bit patterns are `a` and `b`.
pub fn le(a: u64, b: u64) -> (r: bool)
    ensures
        r == f64_le(a, b),
{
    let nan = a & MAGNITUDE_BITS > INFINITY_MAGNITUDE || b & MAGNITUDE_BITS > INFINITY_MAGNITUDE;
    let zeros = a & MAGNITUDE_BITS == 0 && b & MAGNITUDE_BITS == 0;
    !nan && (zeros || total_key_of(a) <= total_key_of(b))
}

/// On values with the sign bit clear that are not NaN, as every distance
/// is, the IEEE order and `total_cmp` are the order of the bit patterns.
pub proof fn lemma_nonnegative_order(a: u64, b: u64)
    requires
        a < INFINITY_MAGNITUDE + 1,
        b < INFINITY_MAGNITUDE + 1,
    ensures
        total_key(a) < total_key(b) <==> a < b,
        f64_le(a, b) <==> a <= b,
        f64_lt(a, b) <==> a < b,
{
    assert(a & SIGN_BIT == 0 && b & SIGN_BIT == 0) by (bit_vector)
        requires
            a < 0x7ff0_0000_0000_0001u64,
            b < 0x7ff0_0000_0000_0001u64,
    ;
    assert(a | SIGN_BIT == a + SIGN_BIT && b | SIGN_BIT == b + SIGN_BIT) by (bit_vector)
        requires
            a < 0x7ff0_0000_0000_0001u64,
            b < 0x7ff0_0000_0000_0001u64,
    ;
    assert(a & MAGNITUDE_BITS == a && b & MAGNITUDE_BITS == b) by (bit_vector)
        requires
            a < 0x7ff0_0000_0000_0001u64,
            b < 0x7ff0_0000_0000_0001u64,
    ;
}

} // verus!
