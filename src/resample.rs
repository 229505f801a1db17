use vstd::prelude::*;

use crate::knot::VALUE_ONE;

verus! {

/// Sinc taps past the first one: taps `0..=SINC_TAPS` are used per frame.
pub const SINC_TAPS: u32 = 10;

/// Seconds per minute times beats per bar (4/4 time).
pub const BAR_SECONDS_PER_BPM: u64 = 240;

/// Output frames for `bars` bars at `bpm` beats per minute and `rate`
/// frames per second: `rate * bars * 4 * 60 / bpm`, rounded down; `None`
/// when that does not fit a `u64`.
pub fn frame_count(rate: u32, bars: u32, bpm: u32) -> (r: Option<u64>)
    requires
        bpm > 0,
    ensures
        r == (if (rate * bars * 240) / (bpm as int) <= u64::MAX {
            Some(((rate * bars * 240) / (bpm as int)) as u64)
        } else {
            None::<u64>
        }),
{
    let a = rate as u128;
    let b = bars as u128;
    proof {
        assert(a * b <= 0xFFFF_FFFF_FFFF_FFFF) by (nonlinear_arith)
            requires
                a <= 0xFFFF_FFFF,
                b <= 0xFFFF_FFFF,
        ;
    }
    let n = a * b * (BAR_SECONDS_PER_BPM as u128) / (bpm as u128);
    if n > u64::MAX as u128 {
        None
    } else {
        Some(n as u64)
    }
}

/// Index of tap `tap` around frame `base`: `base + tap - half`, when that
/// lies in `[0, len)`; outside, the sample counts as silence (`None`).
pub fn tap_position(base: i128, tap: u32, half: u32, len: u32) -> (r: Option<u32>)
    ensures
        r == (if 0 <= base + tap - half < len {
            Some((base + tap - half) as u32)
        } else {
            None::<u32>
        }),
{
    if base < -0x4_0000_0000 || base > 0x4_0000_0000 {
        return None;
    }
    let idx = base + tap as i128 - half as i128;
    if 0 <= idx && idx < len as i128 {
        Some(idx as u32)
    } else {
        None
    }
}

/// A sample position `pos` (a fraction of `VALUE_ONE`) in a sample of `len`
/// frames, split into the frame at or before it and the fraction past that
/// frame, in `VALUE_ONE` units: `pos * len == base * VALUE_ONE + frac`.
pub fn split_position(pos: i64, len: u32) -> (r: (i128, u32))
    ensures
        pos * len == r.0 * VALUE_ONE + r.1,
        r.1 < VALUE_ONE,
{
    let p = pos as i128;
    let l = len as i128;
    proof {
        assert(-0x8000_0000_0000_0000_0000_0000 <= p * l <= 0x8000_0000_0000_0000_0000_0000) by (nonlinear_arith)
            requires
                -0x8000_0000_0000_0000 <= p <= 0x8000_0000_0000_0000,
                0 <= l <= 0x1_0000_0000,
        ;
    }
    let x = p * l;
    let one = VALUE_ONE as i128;
    let mut base = x / one;
    let mut frac = x % one;
    if frac < 0 {
        base = base - 1;
        frac = frac + one;
    }
    (base, frac as u32)
}

} // verus!
