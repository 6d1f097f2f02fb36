//! Floating-point numbers as bit patterns.
//!
//! A single-precision number travels through the library as the `u32` of its
//! IEEE 754 encoding, a double-precision one as the `u64` of its encoding.
//! This module reads off such a pattern what the indexes ask of a number: where
//! it stands in the total order of its format, whether it is finite, whether it
//! is zero, and whether its square underflows.

use vstd::prelude::*;

verus! {

/// The position of a single-precision number in the IEEE 754 total order:
/// patterns with the sign bit clear ascend from zero, those with the sign bit
/// set descend from minus one.
pub open spec fn order_32(bits: u32) -> int {
    if bits < 0x8000_0000 {
        bits as int
    } else {
        0x7fff_ffff - bits
    }
}

/// The position of a double-precision number in the IEEE 754 total order.
pub open spec fn order_64(bits: u64) -> int {
    if bits < 0x8000_0000_0000_0000 {
        bits as int
    } else {
        0x7fff_ffff_ffff_ffff - bits
    }
}

/// The encoding of a single-precision number without its sign bit.
pub open spec fn magnitude_32(bits: u32) -> int {
    if bits < 0x8000_0000 {
        bits as int
    } else {
        bits - 0x8000_0000
    }
}

/// Whether a single-precision number is neither infinite nor a NaN: its
/// exponent field is not all ones.
pub open spec fn finite_32(bits: u32) -> bool {
    magnitude_32(bits) < 0x7f80_0000
}

/// Whether a single-precision number is zero, of either sign.
pub open spec fn zero_32(bits: u32) -> bool {
    magnitude_32(bits) == 0
}

/// Whether a double-precision number is zero, of either sign.
pub open spec fn zero_64(bits: u64) -> bool {
    bits == 0 || bits == 0x8000_0000_0000_0000
}

/// Whether the single-precision square of a finite number is zero. The
/// smallest positive number is two to the power -149, and a product halfway
/// between it and zero rounds to the even neighbour, zero; so the square
/// vanishes up to two to the power -75, whose encoding is `0x1a00_0000`.
pub open spec fn square_vanishes_32(bits: u32) -> bool {
    magnitude_32(bits) <= 0x1a00_0000
}

/// The position of `bits` in the total order of single-precision numbers.
pub fn total_order_32(bits: u32) -> (key: i64)
    ensures
        key == order_32(bits),
{
    if bits < 0x8000_0000 {
        bits as i64
    } else {
        0x7fff_ffff - bits as i64
    }
}

/// The position of `bits` in the total order of double-precision numbers.
pub fn total_order_64(bits: u64) -> (key: i64)
    ensures
        key == order_64(bits),
{
    if bits < 0x8000_0000_0000_0000 {
        bits as i64
    } else {
        -1 - (bits - 0x8000_0000_0000_0000) as i64
    }
}

fn magnitude(bits: u32) -> (magnitude: u32)
    ensures
        magnitude == magnitude_32(bits),
{
    if bits < 0x8000_0000 {
        bits
    } else {
        bits - 0x8000_0000
    }
}

/// Tells whether a single-precision number is finite.
pub fn is_finite_32(bits: u32) -> (finite: bool)
    ensures
        finite == finite_32(bits),
{
    magnitude(bits) < 0x7f80_0000
}

/// Tells whether a single-precision number is zero.
pub fn is_zero_32(bits: u32) -> (zero: bool)
    ensures
        zero == zero_32(bits),
{
    magnitude(bits) == 0
}

/// Tells whether a double-precision number is zero.
pub fn is_zero_64(bits: u64) -> (zero: bool)
    ensures
        zero == zero_64(bits),
{
    bits == 0 || bits == 0x8000_0000_0000_0000
}

/// Tells whether the single-precision square of a finite number is zero.
pub fn square_is_zero_32(bits: u32) -> (vanishes: bool)
    ensures
        vanishes == square_vanishes_32(bits),
{
    magnitude(bits) <= 0x1a00_0000
}

/// The total order is strict on patterns: two single-precision numbers at one
/// position are one pattern.
pub proof fn order_32_is_injective(left: u32, right: u32)
    requires
        order_32(left) == order_32(right),
    ensures
        left == right,
{
}

/// The total order is strict on patterns: two double-precision numbers at one
/// position are one pattern.
pub proof fn order_64_is_injective(left: u64, right: u64)
    requires
        order_64(left) == order_64(right),
    ensures
        left == right,
{
}

} // verus!
