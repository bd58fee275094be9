//! IEEE-754 binary32 values carried as their bit patterns.
//!
//! Coordinates, sizes and confidences are produced by the PDF layer as
//! `f32`.  The library never does arithmetic on them; it stores their bit
//! patterns and decides comparisons exactly from those patterns.  For every
//! non-NaN value `x`, `key(x)` is the signed magnitude of the pattern, and
//! `x <= y` in floating point holds exactly when `key(x) <= key(y)` (both
//! zeros have key 0; the infinities have the largest magnitudes).

use vstd::prelude::*;

verus! {

pub const SIGN_MASK: u32 = 0x8000_0000;

pub const MAG_MASK: u32 = 0x7FFF_FFFF;

pub const EXP_MASK: u32 = 0x7F80_0000;

pub const FRAC_MASK: u32 = 0x007F_FFFF;

/// Bit pattern of `0.0f32`.
pub const ZERO: u32 = 0;

/// Bit pattern of `1.0f32`.
pub const ONE: u32 = 0x3F80_0000;

/// The exponent field is all ones: an infinity or a NaN.
pub open spec fn spec_nonfinite(b: u32) -> bool {
    b & EXP_MASK == EXP_MASK
}

/// Not-a-number: exponent all ones and a non-zero fraction.
pub open spec fn spec_nan(b: u32) -> bool {
    b & EXP_MASK == EXP_MASK && b & FRAC_MASK != 0
}

/// Signed magnitude: the order key of a non-NaN value.
pub open spec fn key(b: u32) -> int {
    if b & SIGN_MASK != 0 {
        -((b & MAG_MASK) as int)
    } else {
        (b & MAG_MASK) as int
    }
}

/// Floating-point `a <= b`.
pub open spec fn spec_le(a: u32, b: u32) -> bool {
    !spec_nan(a) && !spec_nan(b) && key(a) <= key(b)
}

/// Floating-point `a < b`.
pub open spec fn spec_lt(a: u32, b: u32) -> bool {
    !spec_nan(a) && !spec_nan(b) && key(a) < key(b)
}

/// Floating-point `a == b` (so `-0.0 == 0.0`, and NaN equals nothing).
pub open spec fn spec_eq(a: u32, b: u32) -> bool {
    !spec_nan(a) && !spec_nan(b) && key(a) == key(b)
}

/// `f32::min`: a NaN operand yields the other one; on a tie the first
/// operand is kept.
pub open spec fn spec_min(a: u32, b: u32) -> u32 {
    if spec_nan(a) {
        b
    } else if spec_nan(b) {
        a
    } else if key(b) < key(a) {
        b
    } else {
        a
    }
}

/// `f32::max`: a NaN operand yields the other one; on a tie the first
/// operand is kept.
pub open spec fn spec_max(a: u32, b: u32) -> u32 {
    if spec_nan(a) {
        b
    } else if spec_nan(b) {
        a
    } else if key(a) < key(b) {
        b
    } else {
        a
    }
}

pub fn is_finite(b: u32) -> (r: bool)
    ensures
        r == !spec_nonfinite(b),
{
    b & EXP_MASK != EXP_MASK
}

pub fn is_nan(b: u32) -> (r: bool)
    ensures
        r == spec_nan(b),
{
    b & EXP_MASK == EXP_MASK && b & FRAC_MASK != 0
}

/// Exact comparison of the order keys of two patterns.
fn key_le(a: u32, b: u32) -> (r: bool)
    ensures
        r == (key(a) <= key(b)),
{
    let sa = a & SIGN_MASK != 0;
    let sb = b & SIGN_MASK != 0;
    let ma = a & MAG_MASK;
    let mb = b & MAG_MASK;
    if sa && sb {
        mb <= ma
    } else if sa {
        true
    } else if sb {
        ma == 0 && mb == 0
    } else {
        ma <= mb
    }
}

pub fn le(a: u32, b: u32) -> (r: bool)
    ensures
        r == spec_le(a, b),
{
    !is_nan(a) && !is_nan(b) && key_le(a, b)
}

pub fn lt(a: u32, b: u32) -> (r: bool)
    ensures
        r == spec_lt(a, b),
{
    !is_nan(a) && !is_nan(b) && !key_le(b, a)
}

pub fn eq(a: u32, b: u32) -> (r: bool)
    ensures
        r == spec_eq(a, b),
{
    !is_nan(a) && !is_nan(b) && key_le(a, b) && key_le(b, a)
}

pub fn min(a: u32, b: u32) -> (r: u32)
    ensures
        r == spec_min(a, b),
{
    if is_nan(a) {
        b
    } else if is_nan(b) {
        a
    } else if !key_le(a, b) {
        b
    } else {
        a
    }
}

pub fn max(a: u32, b: u32) -> (r: u32)
    ensures
        r == spec_max(a, b),
{
    if is_nan(a) {
        b
    } else if is_nan(b) {
        a
    } else if !key_le(b, a) {
        b
    } else {
        a
    }
}

} // verus!
