//! Luma converters: derive a single-channel intensity from an RGBA pixel
//! under a selectable policy, and the transparency rule every per-pixel
//! transform shares.

use vstd::prelude::*;
use crate::buffer::Pixel;

verus! {

/// The luma policy: integer-weighted ITU-R BT.601, or the channel-wise
/// maximum or minimum of R, G and B.
#[derive(Clone, Copy, PartialEq, Eq, Structural, Debug)]
pub enum GrayscaleMode {
    Default,
    Max,
    Min,
}

/// Integer-weighted ITU-R BT.601 luma: (299 R + 587 G + 114 B) / 1000.
pub open spec fn spec_luma_bt601(r: int, g: int, b: int) -> int {
    (299 * r + 587 * g + 114 * b) / 1000
}

pub open spec fn spec_max3(r: int, g: int, b: int) -> int {
    if r >= g && r >= b {
        r
    } else if g >= b {
        g
    } else {
        b
    }
}

pub open spec fn spec_min3(r: int, g: int, b: int) -> int {
    if r <= g && r <= b {
        r
    } else if g <= b {
        g
    } else {
        b
    }
}

/// The intensity of a pixel's color under the chosen policy.
pub open spec fn spec_luma(mode: GrayscaleMode, p: Pixel) -> int {
    match mode {
        GrayscaleMode::Default => spec_luma_bt601(p.r as int, p.g as int, p.b as int),
        GrayscaleMode::Max => spec_max3(p.r as int, p.g as int, p.b as int),
        GrayscaleMode::Min => spec_min3(p.r as int, p.g as int, p.b as int),
    }
}

/// Luma totality and range: every policy maps every color to [0, 255].
pub proof fn lemma_luma_range(mode: GrayscaleMode, p: Pixel)
    ensures
        0 <= spec_luma(mode, p) <= 255,
{
    assert(299 * (p.r as int) + 587 * (p.g as int) + 114 * (p.b as int) <= 1000 * 255);
}

/// The shared transparency rule: a fully transparent input pixel comes out
/// as (0, 0, 0, 0); any other input pixel takes the transform's value `v`
/// on all three color channels and becomes fully opaque.
pub open spec fn spec_apply_rule(p: Pixel, v: int) -> Pixel {
    if p.a == 0 {
        Pixel { r: 0, g: 0, b: 0, a: 0 }
    } else {
        Pixel { r: v as u8, g: v as u8, b: v as u8, a: 255 }
    }
}

/// What grayscale conversion makes of one pixel.
pub open spec fn spec_gray_pixel(mode: GrayscaleMode, p: Pixel) -> Pixel {
    spec_apply_rule(p, spec_luma(mode, p))
}

/// Computes the intensity of a pixel's color under the chosen policy.
pub fn luma(p: Pixel, mode: GrayscaleMode) -> (v: u8)
    ensures
        v == spec_luma(mode, p),
{
    match mode {
        GrayscaleMode::Default => {
            let s: u32 = 299 * (p.r as u32) + 587 * (p.g as u32) + 114 * (p.b as u32);
            proof {
                lemma_luma_range(mode, p);
            }
            (s / 1000) as u8
        },
        GrayscaleMode::Max => {
            let mut m = p.r;
            if p.g > m {
                m = p.g;
            }
            if p.b > m {
                m = p.b;
            }
            m
        },
        GrayscaleMode::Min => {
            let mut m = p.r;
            if p.g < m {
                m = p.g;
            }
            if p.b < m {
                m = p.b;
            }
            m
        },
    }
}

/// Applies the shared transparency rule to one pixel.
pub fn apply_rule(p: Pixel, v: u8) -> (q: Pixel)
    ensures
        q == spec_apply_rule(p, v as int),
{
    if p.a == 0 {
        Pixel { r: 0, g: 0, b: 0, a: 0 }
    } else {
        Pixel { r: v, g: v, b: v, a: 255 }
    }
}

} // verus!
