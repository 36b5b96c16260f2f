//! The local UTC offset: in whole hours, and from a time-zone bias.
use vstd::prelude::*;

verus! {

/// `x` divided by `d`, rounded toward zero.
pub open spec fn div_toward_zero(x: int, d: int) -> int {
    if x >= 0 {
        x / d
    } else {
        -((-x) / d)
    }
}

/// The UTC offset `offset_seconds` (seconds east of UTC) in whole hours, rounded toward
/// zero.
pub fn utc_offset_hours(offset_seconds: i32) -> (res: i32)
    ensures
        res == div_toward_zero(offset_seconds as int, 3600),
{
    offset_seconds / 3600
}


/// Whether `v` fits in an `i32`.
pub open spec fn fits_i32(v: int) -> bool {
    i32::MIN <= v <= i32::MAX
}

/// The UTC offset in seconds east for a time-zone bias in minutes west of UTC, with the
/// daylight-saving or the standard extra bias added; computed in `i32`, `None` where a
/// step leaves its range.
pub open spec fn spec_offset_from_bias(
    bias: int,
    daylight: bool,
    standard_bias: int,
    daylight_bias: int,
) -> Option<i32> {
    let total = bias + if daylight {
        daylight_bias
    } else {
        standard_bias
    };
    if fits_i32(total) && fits_i32(-total) && fits_i32(-total * 60) {
        Some((-total * 60) as i32)
    } else {
        None
    }
}

/// The UTC offset in seconds east for a time-zone bias in minutes west of UTC; see
/// [`spec_offset_from_bias`].
pub fn utc_offset_from_bias(bias: i32, daylight: bool, standard_bias: i32, daylight_bias: i32) -> (res:
    Option<i32>)
    ensures
        res == spec_offset_from_bias(bias as int, daylight, standard_bias as int, daylight_bias as int),
{
    let extra: i64 = if daylight {
        daylight_bias as i64
    } else {
        standard_bias as i64
    };
    let total: i64 = bias as i64 + extra;
    if total < -0x8000_0000i64 || total > 0x7fff_ffffi64 || -total > 0x7fff_ffffi64 {
        return None;
    }
    let v: i64 = -total * 60;
    if v < -0x8000_0000i64 || v > 0x7fff_ffffi64 {
        return None;
    }
    Some(v as i32)
}

} // verus!
