//! IEEE 754 binary64 bit patterns.
//!
//! Reading values travel through the library as the raw 64-bit patterns of
//! double-precision values.  The predicates here read the standard binary64
//! layout (1 sign bit, 11 exponent bits, 52 mantissa bits) directly off the
//! pattern, so that classification and ordering need no floating-point
//! evaluation: a pattern is non-finite exactly when its exponent field is
//! all ones, and for patterns that are numbers, the numeric order is the
//! order of the sign-magnitude integer made of sign and absolute bits, with
//! the two zero patterns sharing the key `0`.

use vstd::prelude::*;

verus! {

/// The bit pattern with the sign bit cleared.
pub open spec fn bits_abs(b: u64) -> u64 {
    b & 0x7fff_ffff_ffff_ffff
}

/// Whether the sign bit is set.
pub open spec fn bits_is_negative(b: u64) -> bool {
    b >= 0x8000_0000_0000_0000
}

/// Not a number: exponent field all ones and a non-zero mantissa.
pub open spec fn bits_is_nan(b: u64) -> bool {
    bits_abs(b) > 0x7ff0_0000_0000_0000
}

/// Zero, subnormal or normal: neither infinite nor NaN.
pub open spec fn bits_is_finite(b: u64) -> bool {
    bits_abs(b) < 0x7ff0_0000_0000_0000
}

/// A key that orders every pattern that is a number (infinities included)
/// exactly as the values they denote: negative patterns in reverse order of
/// their magnitude bits.  Both zero patterns get the key `0`.
pub open spec fn bits_order_key(b: u64) -> int {
    if bits_is_negative(b) {
        -(bits_abs(b) as int)
    } else {
        bits_abs(b) as int
    }
}

/// The strict `>` comparison of two binary64 values, read off their bit
/// patterns: false whenever either side is NaN, and `+0 > -0` is false.
pub open spec fn bits_gt(a: u64, b: u64) -> bool {
    !bits_is_nan(a) && !bits_is_nan(b) && bits_order_key(a) > bits_order_key(b)
}

/// Executable check for `bits_is_finite`.
pub fn is_finite_bits(b: u64) -> (r: bool)
    ensures
        r == bits_is_finite(b),
{
    (b & 0x7fff_ffff_ffff_ffff) < 0x7ff0_0000_0000_0000
}

/// Executable check for `bits_gt`.
pub fn gt_bits(a: u64, b: u64) -> (r: bool)
    ensures
        r == bits_gt(a, b),
{
    let aa = a & 0x7fff_ffff_ffff_ffff;
    let ba = b & 0x7fff_ffff_ffff_ffff;
    if aa > 0x7ff0_0000_0000_0000 || ba > 0x7ff0_0000_0000_0000 {
        return false;
    }
    let an = a >= 0x8000_0000_0000_0000;
    let bn = b >= 0x8000_0000_0000_0000;
    if an && bn {
        ba > aa
    } else if !an && !bn {
        aa > ba
    } else if an && !bn {
        false
    } else {
        aa > 0 || ba > 0
    }
}

} // verus!
