//! Turning an accumulated color into a line of a plain-text image.

use vstd::prelude::*;
use crate::fixed::{fdiv, fsqrt, fx_div, fx_sqrt, ONE};
use crate::vec::Color;

verus! {

/// The brightest channel value written, just below one.
pub const CHANNEL_MAX: i64 = 268167020;

/// The raw value of `1 / 256`.
pub const BYTE_STEP: i64 = 1048576;

pub open spec fn clamp_spec(val: int, min: int, max: int) -> int {
    if val < min {
        min
    } else if val > max {
        max
    } else {
        val
    }
}

pub fn clamp(val: i64, min: i64, max: i64) -> (r: i64)
    ensures
        r == clamp_spec(val as int, min as int, max as int),
{
    if val < min {
        min
    } else if val > max {
        max
    } else {
        val
    }
}

/// The byte for one channel: the mean over the samples, gamma corrected
/// (gamma two: a square root), clamped below one and scaled to `0..=255`.
pub open spec fn channel_byte(sum: int, samples: int) -> int {
    clamp_spec(fsqrt(fdiv(sum, samples * ONE)), 0, CHANNEL_MAX as int) / (BYTE_STEP as int)
}

/// The decimal digits of `n`, in ASCII.
pub open spec fn decimal(n: nat) -> Seq<u8>
    decreases n,
{
    if n < 10 {
        seq![(48 + n) as u8]
    } else {
        decimal(n / 10) + seq![(48 + n % 10) as u8]
    }
}

/// The line written for a pixel: its three channel bytes in decimal, each
/// followed by a space but the last, which a newline follows.
pub open spec fn color_line(color: Color, samples: int) -> Seq<u8> {
    decimal(channel_byte(color.x as int, samples) as nat) + seq![32u8] + decimal(
        channel_byte(color.y as int, samples) as nat,
    ) + seq![32u8] + decimal(channel_byte(color.z as int, samples) as nat) + seq![10u8]
}

fn channel(sum: i64, samples: u32) -> (r: u8)
    ensures
        r == channel_byte(sum as int, samples as int),
{
    let mean = fx_div(sum, samples as i64 * ONE);
    let c = clamp(fx_sqrt(mean), 0, CHANNEL_MAX);
    (c / BYTE_STEP) as u8
}

fn push_decimal(out: &mut std::vec::Vec<u8>, n: u8)
    ensures
        final(out)@ == old(out)@ + decimal(n as nat),
{
    proof {
        reveal_with_fuel(decimal, 3);
    }
    if n >= 100 {
        out.push(48 + n / 100);
        out.push(48 + n / 10 % 10);
        out.push(48 + n % 10);
        assert(decimal(n as nat) == seq![(48 + n / 100) as u8, (48 + n / 10 % 10) as u8, (48 + n % 10) as u8]);
    } else if n >= 10 {
        out.push(48 + n / 10);
        out.push(48 + n % 10);
        assert(decimal(n as nat) == seq![(48 + n / 10) as u8, (48 + n % 10) as u8]);
    } else {
        out.push(48 + n);
    }
}

/// Appends to `out` the line for a pixel whose samples add up to `color`.
pub fn write_color(out: &mut std::vec::Vec<u8>, color: Color, samples: u32)
    ensures
        final(out)@ == old(out)@ + color_line(color, samples as int),
{
    let r = channel(color.x, samples);
    let g = channel(color.y, samples);
    let b = channel(color.z, samples);
    push_decimal(out, r);
    out.push(32);
    push_decimal(out, g);
    out.push(32);
    push_decimal(out, b);
    out.push(10);
    assert(out@ =~= old(out)@ + color_line(color, samples as int));
}

} // verus!
