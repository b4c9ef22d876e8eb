//! The order of 64-bit floating-point numbers, on their bits.
//!
//! A number is given by its bits in the IEEE 754 format: a sign, eleven bits of
//! exponent and 52 bits of fraction.

use vstd::prelude::*;

verus! {

/// The bits without the sign.
pub open spec fn magnitude(b: u64) -> int {
    b as int % 0x8000_0000_0000_0000
}

/// Whether the bits are no number.
pub open spec fn is_nan(b: u64) -> bool {
    magnitude(b) > 0x7ff0_0000_0000_0000
}

/// Whether the bits are a finite number.
pub open spec fn is_finite(b: u64) -> bool {
    magnitude(b) < 0x7ff0_0000_0000_0000
}

/// A number that orders as the bits do; the two zeros are equal.
pub open spec fn order_key(b: u64) -> int {
    if b < 0x8000_0000_0000_0000 {
        magnitude(b)
    } else {
        -magnitude(b)
    }
}

/// Whether a number is less than another.
pub open spec fn less(a: u64, b: u64) -> bool {
    !is_nan(a) && !is_nan(b) && order_key(a) < order_key(b)
}

/// Whether a number is at most another.
pub open spec fn at_most(a: u64, b: u64) -> bool {
    !is_nan(a) && !is_nan(b) && order_key(a) <= order_key(b)
}

/// Whether two numbers are equal.
pub open spec fn equal(a: u64, b: u64) -> bool {
    !is_nan(a) && !is_nan(b) && order_key(a) == order_key(b)
}

/// The smaller of two numbers, or the one that is a number.
pub open spec fn smaller(a: u64, b: u64) -> u64 {
    if is_nan(a) {
        b
    } else if less(b, a) {
        b
    } else {
        a
    }
}

/// The larger of two numbers, or the one that is a number.
pub open spec fn larger(a: u64, b: u64) -> u64 {
    if is_nan(a) {
        b
    } else if less(a, b) {
        b
    } else {
        a
    }
}

fn key(b: u64) -> (r: i64)
    ensures
        r == order_key(b),
{
    if b < 0x8000_0000_0000_0000 {
        b as i64
    } else {
        -((b - 0x8000_0000_0000_0000) as i64)
    }
}

/// Whether the bits are no number.
pub fn nan_bits(b: u64) -> (r: bool)
    ensures
        r == is_nan(b),
{
    b % 0x8000_0000_0000_0000 > 0x7ff0_0000_0000_0000
}

/// Whether the bits are a finite number.
pub fn finite_bits(b: u64) -> (r: bool)
    ensures
        r == is_finite(b),
{
    b % 0x8000_0000_0000_0000 < 0x7ff0_0000_0000_0000
}

/// Whether a number is less than another.
pub fn bits_less(a: u64, b: u64) -> (r: bool)
    ensures
        r == less(a, b),
{
    !nan_bits(a) && !nan_bits(b) && key(a) < key(b)
}

/// Whether a number is at most another.
pub fn bits_at_most(a: u64, b: u64) -> (r: bool)
    ensures
        r == at_most(a, b),
{
    !nan_bits(a) && !nan_bits(b) && key(a) <= key(b)
}

/// Whether two numbers are equal.
pub fn bits_equal(a: u64, b: u64) -> (r: bool)
    ensures
        r == equal(a, b),
{
    !nan_bits(a) && !nan_bits(b) && key(a) == key(b)
}

/// The smaller of two numbers, or the one that is a number.
pub fn bits_smaller(a: u64, b: u64) -> (r: u64)
    ensures
        r == smaller(a, b),
{
    if nan_bits(a) || bits_less(b, a) {
        b
    } else {
        a
    }
}

/// The larger of two numbers, or the one that is a number.
pub fn bits_larger(a: u64, b: u64) -> (r: u64)
    ensures
        r == larger(a, b),
{
    if nan_bits(a) || bits_less(a, b) {
        b
    } else {
        a
    }
}

} // verus!
