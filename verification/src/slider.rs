//! The slider's value/thumb arithmetic: clamping the declared range and
//! mapping between the thumb's track offset and the value.

use vstd::prelude::*;

use crate::geometry::{coord_ok, GEOM_BOUND};

verus! {

/// Forces a value into the declared range: below `min` it becomes `min`,
/// above `max` it becomes `max`.
pub fn adjust_val(val: i64, min: i64, max: i64) -> (r: i64)
    ensures
        val < min ==> r == min,
        val > max && val >= min ==> r == max,
        min <= val <= max ==> r == val,
{
    if val < min {
        return min;
    }
    if val > max {
        return max;
    }
    val
}

/// A minimum above the maximum collapses onto the maximum.
pub fn adjust_min(min: i64, max: i64) -> (r: i64)
    ensures
        min > max ==> r == max,
        min <= max ==> r == min,
{
    if min > max {
        return max;
    }
    min
}

/// A maximum below the minimum collapses onto the minimum.
pub fn adjust_max(min: i64, max: i64) -> (r: i64)
    ensures
        max < min ==> r == min,
        max >= min ==> r == max,
{
    if max < min {
        return min;
    }
    max
}

/// Where the thumb lands for a pointer position: the offset from the track's
/// start less the thumb's width, held inside the track.
pub fn calculate_thumb_x(mouse_x: i64, thumb_width: i64, slider_x: i64, track_width: i64) -> (r:
    i64)
    requires
        coord_ok(mouse_x as int),
        coord_ok(thumb_width as int),
        coord_ok(slider_x as int),
        coord_ok(track_width as int),
    ensures
        r as int == {
            let raw = mouse_x - slider_x - thumb_width;
            let hi = track_width - thumb_width;
            if raw < 0 {
                if hi < 0 {
                    hi as int
                } else {
                    0
                }
            } else if raw > hi {
                hi as int
            } else {
                raw as int
            }
        },
{
    let raw = mouse_x - slider_x - thumb_width;
    let lo = if raw > 0 {
        raw
    } else {
        0
    };
    let hi = track_width - thumb_width;
    if lo < hi {
        lo
    } else {
        hi
    }
}

/// The value a thumb offset stands for: the offset's share of the usable
/// track, scaled into the declared range.
pub fn calculate_val(thumb_x: i64, min: i64, max: i64, thumb_width: i64, track_width: i64) -> (r:
    i64)
    requires
        0 <= thumb_x <= GEOM_BOUND,
        0 <= thumb_width <= GEOM_BOUND,
        0 <= track_width <= GEOM_BOUND,
        -GEOM_BOUND <= min <= max <= GEOM_BOUND,
        thumb_width < track_width,
    ensures
        r as int == (thumb_x * (max - min)) / (track_width - thumb_width),
{
    proof {
        let a = thumb_x as int;
        let b = max as int - min as int;
        assert(0 <= a * b <= 0x4000000000000000int) by (nonlinear_arith)
            requires
                0 <= a <= 0x40000000int,
                0 <= b <= 0x100000000int,
        ;
    }
    let p: u64 = (thumb_x as u64) * ((max - min) as u64);
    let q: u64 = (track_width - thumb_width) as u64;
    proof {
        assert(p as int / q as int <= p as int) by (nonlinear_arith)
            requires
                q as int >= 1,
                p as int >= 0,
        ;
    }
    (p / q) as i64
}

/// The thumb offset a value stands for: the inverse mapping of
/// `calculate_val`.
pub fn calculate_thumb_x_from_val(val: i64, min: i64, max: i64, track_width: i64, thumb_width: i64) -> (r: i64)
    requires
        0 <= val <= GEOM_BOUND,
        -GEOM_BOUND <= min < max <= GEOM_BOUND,
        0 <= thumb_width < track_width <= GEOM_BOUND,
    ensures
        r as int == (val * (track_width - thumb_width)) / (max - min),
{
    proof {
        let a = val as int;
        let b = track_width as int - thumb_width as int;
        assert(0 <= a * b <= 0x4000000000000000int) by (nonlinear_arith)
            requires
                0 <= a <= 0x40000000int,
                0 <= b <= 0x100000000int,
        ;
    }
    let p: u64 = (val as u64) * ((track_width - thumb_width) as u64);
    let q: u64 = (max - min) as u64;
    proof {
        assert(p as int / q as int <= p as int) by (nonlinear_arith)
            requires
                q as int >= 1,
                p as int >= 0,
        ;
    }
    (p / q) as i64
}

} // verus!
