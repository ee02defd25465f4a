//! Comparison of single-precision values given by their IEEE-754 bit
//! patterns, as the language's `<` and `==` on `f32` compare them: a NaN is
//! neither smaller than, greater than nor equal to anything, and the two
//! zeros are equal.
use vstd::prelude::*;

verus! {

pub const SIGN_BIT: u32 = 0x8000_0000;

/// The largest magnitude field that is not a NaN (that of an infinity).
pub const INFINITY_BITS: u32 = 0x7f80_0000;

/// The pattern of `+0.0`.
pub const POSITIVE_ZERO: u32 = 0;

pub open spec fn is_negative(a: u32) -> bool {
    a >= SIGN_BIT
}

/// The bits below the sign bit: exponent and significand.
pub open spec fn magnitude(a: u32) -> u32 {
    if is_negative(a) { (a - SIGN_BIT) as u32 } else { a }
}

pub open spec fn is_nan(a: u32) -> bool {
    magnitude(a) > INFINITY_BITS
}

pub open spec fn is_zero(a: u32) -> bool {
    magnitude(a) == 0
}

/// `a < b` on the values whose patterns these are.
pub open spec fn spec_lt(a: u32, b: u32) -> bool {
    &&& !is_nan(a)
    &&& !is_nan(b)
    &&& !(is_zero(a) && is_zero(b))
    &&& if !is_negative(a) && !is_negative(b) {
        magnitude(a) < magnitude(b)
    } else if is_negative(a) && is_negative(b) {
        magnitude(a) > magnitude(b)
    } else {
        is_negative(a)
    }
}

/// `a == b` on the values whose patterns these are.
pub open spec fn spec_eq(a: u32, b: u32) -> bool {
    &&& !is_nan(a)
    &&& !is_nan(b)
    &&& (a == b || (is_zero(a) && is_zero(b)))
}

fn magnitude_of(a: u32) -> (m: u32)
    ensures
        m == magnitude(a),
{
    if a >= SIGN_BIT { a - SIGN_BIT } else { a }
}

/// `a < b` on the single-precision values with bit patterns `a` and `b`.
pub fn value_lt(a: u32, b: u32) -> (r: bool)
    ensures
        r == spec_lt(a, b),
{
    let ma = magnitude_of(a);
    let mb = magnitude_of(b);
    if ma > INFINITY_BITS || mb > INFINITY_BITS {
        false
    } else if ma == 0 && mb == 0 {
        false
    } else if a < SIGN_BIT && b < SIGN_BIT {
        ma < mb
    } else if a >= SIGN_BIT && b >= SIGN_BIT {
        ma > mb
    } else {
        a >= SIGN_BIT
    }
}

/// `a == b` on the single-precision values with bit patterns `a` and `b`.
pub fn value_eq(a: u32, b: u32) -> (r: bool)
    ensures
        r == spec_eq(a, b),
{
    let ma = magnitude_of(a);
    let mb = magnitude_of(b);
    if ma > INFINITY_BITS || mb > INFINITY_BITS {
        false
    } else {
        a == b || (ma == 0 && mb == 0)
    }
}

/// Ordering values by their patterns is a strict partial order: never
/// reflexive, and transitive.
pub proof fn lemma_lt_strict_order(a: u32, b: u32, c: u32)
    ensures
        !spec_lt(a, a),
        spec_lt(a, b) && spec_lt(b, c) ==> spec_lt(a, c),
        spec_lt(a, b) ==> !spec_lt(b, a),
{
}

/// Equality of values is symmetric and transitive, reflexive on every
/// pattern that is not a NaN, and excludes both orders.
pub proof fn lemma_eq_equivalence(a: u32, b: u32, c: u32)
    ensures
        !is_nan(a) ==> spec_eq(a, a),
        spec_eq(a, b) ==> spec_eq(b, a),
        spec_eq(a, b) && spec_eq(b, c) ==> spec_eq(a, c),
        spec_eq(a, b) ==> !spec_lt(a, b) && !spec_lt(b, a),
{
}

/// Two values that are not NaNs compare one way: less, equal or greater.
pub proof fn lemma_trichotomy(a: u32, b: u32)
    requires
        !is_nan(a),
        !is_nan(b),
    ensures
        spec_lt(a, b) || spec_eq(a, b) || spec_lt(b, a),
{
}

/// A value equal to one that is less than a third is less than the third.
pub proof fn lemma_eq_lt(a: u32, b: u32, c: u32)
    ensures
        spec_eq(a, b) && spec_lt(b, c) ==> spec_lt(a, c),
        spec_lt(a, b) && spec_eq(b, c) ==> spec_lt(a, c),
{
}

} // verus!
