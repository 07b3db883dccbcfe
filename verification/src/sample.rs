//! Saturating fixed-point arithmetic on signal samples.
//!
//! A signal sample is an `i64` holding an amplitude scaled by
//! [`crate::constants::SIGNAL_UNIT`].  All sample arithmetic saturates at the
//! `i64` range instead of wrapping or panicking.

use vstd::prelude::*;

use crate::constants::SIGNAL_UNIT;

verus! {

/// Clamp a mathematical integer into the `i64` range.
pub open spec fn clamp_sample(x: int) -> int {
    if x > i64::MAX {
        i64::MAX as int
    } else if x < i64::MIN {
        i64::MIN as int
    } else {
        x
    }
}

/// Saturating sum of two samples.
pub open spec fn sat_add_spec(a: int, b: int) -> int {
    clamp_sample(a + b)
}

/// Saturating difference of two samples.
pub open spec fn sat_sub_spec(a: int, b: int) -> int {
    clamp_sample(a - b)
}

/// Magnitude of a mathematical integer.
pub open spec fn abs_int(a: int) -> int {
    if a < 0 {
        -a
    } else {
        a
    }
}

/// Fixed-point product of two samples: the full product divided by the
/// signal scale, rounded toward zero and saturated at the `i64` range.
pub open spec fn mul_unit_spec(a: int, b: int) -> int {
    let m = (abs_int(a) * abs_int(b)) / (SIGNAL_UNIT as int);
    if (a < 0) != (b < 0) {
        clamp_sample(-m)
    } else {
        clamp_sample(m)
    }
}

/// Saturating addition of two samples.
pub fn sat_add(a: i64, b: i64) -> (r: i64)
    ensures
        r as int == sat_add_spec(a as int, b as int),
{
    match a.checked_add(b) {
        Some(v) => v,
        None => {
            if a >= 0 {
                i64::MAX
            } else {
                i64::MIN
            }
        },
    }
}

/// Saturating subtraction of two samples.
pub fn sat_sub(a: i64, b: i64) -> (r: i64)
    ensures
        r as int == sat_sub_spec(a as int, b as int),
{
    match a.checked_sub(b) {
        Some(v) => v,
        None => {
            if a >= 0 {
                i64::MAX
            } else {
                i64::MIN
            }
        },
    }
}

/// Magnitude of a sample, widened so that `i64::MIN` has a representation.
fn abs_u64(a: i64) -> (r: u64)
    ensures
        r as int == abs_int(a as int),
{
    if a >= 0 {
        a as u64
    } else {
        let wide: i128 = -(a as i128);
        wide as u64
    }
}

/// Saturating fixed-point multiplication of two samples.
pub fn mul_unit(a: i64, b: i64) -> (r: i64)
    ensures
        r as int == mul_unit_spec(a as int, b as int),
{
    let neg = (a < 0) != (b < 0);
    let ma = abs_u64(a) as u128;
    let mb = abs_u64(b) as u128;
    assert(ma * mb <= u128::MAX) by (nonlinear_arith)
        requires
            ma <= 0x8000_0000_0000_0000u128,
            mb <= 0x8000_0000_0000_0000u128,
    ;
    let m: u128 = (ma * mb) / (SIGNAL_UNIT as u128);
    if neg {
        if m >= 0x8000_0000_0000_0000u128 {
            i64::MIN
        } else {
            -(m as i64)
        }
    } else {
        if m > i64::MAX as u128 {
            i64::MAX
        } else {
            m as i64
        }
    }
}

} // verus!
