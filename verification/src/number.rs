//! Double-precision numbers as bit patterns.
//!
//! A length is never negative, so the pattern of a length orders as the
//! length does when it is read as an unsigned integer. Coordinates may have
//! either sign, and are only ever tested for equality.

use vstd::prelude::*;

verus! {

/// Pattern of the largest finite number. A length of this pattern or above
/// (unbounded, or undefined) is never taken into a polygon.
pub const LENGTH_MAX: u64 = 0x7FEF_FFFF_FFFF_FFFF;

/// Pattern of the sign alone, which is also that of negative zero.
pub const SIGN: u64 = 0x8000_0000_0000_0000;

/// Pattern of positive infinity: every larger magnitude is undefined.
pub const INFINITE: u64 = 0x7FF0_0000_0000_0000;

/// The pattern without its sign.
pub open spec fn magnitude(bits: u64) -> int {
    if bits >= SIGN {
        bits - SIGN
    } else {
        bits as int
    }
}

/// The pattern stands for a number: finite or infinite, but defined.
pub open spec fn is_number(bits: u64) -> bool {
    magnitude(bits) <= INFINITE
}

/// Two patterns stand for equal numbers: both are defined, and they are the
/// same pattern or the two zeros.
pub open spec fn same_number(a: u64, b: u64) -> bool {
    is_number(a) && is_number(b) && (a == b || (magnitude(a) == 0 && magnitude(b) == 0))
}

/// Whether two patterns stand for equal numbers.
pub fn equal_numbers(a: u64, b: u64) -> (equal: bool)
    ensures
        equal == same_number(a, b),
{
    let mag_a: u64 = if a >= SIGN {
        a - SIGN
    } else {
        a
    };
    let mag_b: u64 = if b >= SIGN {
        b - SIGN
    } else {
        b
    };
    mag_a <= INFINITE && mag_b <= INFINITE && (a == b || (mag_a == 0 && mag_b == 0))
}

} // verus!
