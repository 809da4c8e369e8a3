//! Numbers are IEEE-754 binary64 values, held as their bit patterns. Negation,
//! equality and ordering are exact functions of the bits and are computed here;
//! rounding arithmetic, parsing and printing are left to the embedding program.
use vstd::prelude::*;

verus! {

/// The sign bit of a binary64 value.
pub const SIGN_BIT: u64 = 0x8000_0000_0000_0000;

/// The bit pattern of positive infinity: every larger magnitude is a NaN.
pub const INFINITY_BITS: u64 = 0x7ff0_0000_0000_0000;

/// The value's bits without the sign bit.
pub open spec fn magnitude(x: u64) -> int {
    if x >= SIGN_BIT {
        x - SIGN_BIT
    } else {
        x as int
    }
}

pub open spec fn is_nan(x: u64) -> bool {
    magnitude(x) > INFINITY_BITS
}

/// A key that orders non-NaN values as the reals they stand for, with both
/// zeros at 0.
pub open spec fn order_key(x: u64) -> int {
    if x >= SIGN_BIT {
        -magnitude(x)
    } else {
        magnitude(x)
    }
}

/// IEEE equality: false when either side is NaN, and `-0 == +0`.
pub open spec fn number_eq(a: u64, b: u64) -> bool {
    !is_nan(a) && !is_nan(b) && order_key(a) == order_key(b)
}

/// IEEE `a < b`: false when either side is NaN.
pub open spec fn number_lt(a: u64, b: u64) -> bool {
    !is_nan(a) && !is_nan(b) && order_key(a) < order_key(b)
}

/// The value with its sign bit flipped.
pub open spec fn negated(x: u64) -> u64 {
    if x >= SIGN_BIT {
        (x - SIGN_BIT) as u64
    } else {
        (x + SIGN_BIT) as u64
    }
}

fn magnitude_of(x: u64) -> (r: u64)
    ensures
        r == magnitude(x),
{
    if x >= SIGN_BIT {
        x - SIGN_BIT
    } else {
        x
    }
}

pub fn is_nan_bits(x: u64) -> (r: bool)
    ensures
        r == is_nan(x),
{
    magnitude_of(x) > INFINITY_BITS
}

/// IEEE equality of two numbers.
pub fn equal(a: u64, b: u64) -> (r: bool)
    ensures
        r == number_eq(a, b),
{
    if is_nan_bits(a) || is_nan_bits(b) {
        return false;
    }
    if a == b {
        return true;
    }
    magnitude_of(a) == 0 && magnitude_of(b) == 0
}

/// IEEE `a < b` on two numbers.
pub fn less(a: u64, b: u64) -> (r: bool)
    ensures
        r == number_lt(a, b),
{
    if is_nan_bits(a) || is_nan_bits(b) {
        return false;
    }
    let ma = magnitude_of(a);
    let mb = magnitude_of(b);
    let a_negative = a >= SIGN_BIT;
    let b_negative = b >= SIGN_BIT;
    if a_negative && b_negative {
        mb < ma
    } else if a_negative {
        !(ma == 0 && mb == 0)
    } else if b_negative {
        false
    } else {
        ma < mb
    }
}

/// Unary minus: flips the sign bit, as IEEE negation does, NaNs included.
pub fn negate(x: u64) -> (r: u64)
    ensures
        r == negated(x),
{
    if x >= SIGN_BIT {
        x - SIGN_BIT
    } else {
        x + SIGN_BIT
    }
}

} // verus!
