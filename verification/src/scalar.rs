//! Real numbers carried as single-precision bit patterns.
//!
//! A value is the 32-bit encoding of a binary floating-point number: one sign
//! bit, then 31 bits of magnitude. For numbers that are not NaN, a larger
//! magnitude is a larger absolute value, so the order of two numbers can be
//! read off the bits without decoding them.

use vstd::prelude::*;

verus! {

/// The encoding of positive zero.
pub const ZERO: u32 = 0;

/// The encoding of one.
pub const ONE: u32 = 0x3f80_0000;

/// The magnitude part of an encoding: everything but the sign bit.
pub open spec fn magnitude(bits: u32) -> u32 {
    bits & 0x7fff_ffff
}

/// Whether the sign bit of an encoding is set.
pub open spec fn is_negative(bits: u32) -> bool {
    bits & 0x8000_0000 != 0
}

/// Whether an encoding stands for no number at all: its magnitude lies above
/// that of infinity.
pub open spec fn is_nan(bits: u32) -> bool {
    magnitude(bits) > 0x7f80_0000
}

/// An integer that orders encoded numbers as the numbers themselves are
/// ordered. Both zeros get the key 0. Meaningful for encodings that are not
/// NaN.
pub open spec fn order_key(bits: u32) -> int {
    if is_negative(bits) {
        -(magnitude(bits) as int)
    } else {
        magnitude(bits) as int
    }
}

/// Tells whether the encoding is a NaN.
pub fn not_a_number(bits: u32) -> (r: bool)
    ensures
        r == is_nan(bits),
{
    (bits & 0x7fff_ffff) > 0x7f80_0000
}

/// Computes the ordering key of an encoding.
pub fn key_of(bits: u32) -> (r: i64)
    ensures
        r == order_key(bits),
{
    let mag: u32 = bits & 0x7fff_ffff;
    if bits & 0x8000_0000 != 0 {
        -(mag as i64)
    } else {
        mag as i64
    }
}

/// Tells whether the first number is strictly greater than the second.
/// A comparison that involves a NaN is false.
pub fn greater(a: u32, b: u32) -> (r: bool)
    ensures
        r == (!is_nan(a) && !is_nan(b) && order_key(a) > order_key(b)),
{
    !not_a_number(a) && !not_a_number(b) && key_of(a) > key_of(b)
}

} // verus!
