//! The metric evaluator: pure key functions mapping one RGBA pixel to an
//! integer sort key under a selected metric, together with each metric's
//! inclusive key domain. Luminance and saturation keys lie in [0, 255]; hue
//! keys lie in [0, 360), truncated toward zero.

use vstd::prelude::*;

use crate::Pixel;

verus! {

/// The metric a row is sorted by: a closed set of three variants, each with
/// its own key function and key domain.
#[derive(Clone, Copy, PartialEq, Eq, Structural, Debug)]
pub enum SortBy {
    Luminance,
    Hue,
    Saturation,
}

/// The largest of the three colour channels, as a mathematical integer.
pub open spec fn max_channel(p: Pixel) -> int {
    if p.r >= p.g && p.r >= p.b {
        p.r as int
    } else if p.g >= p.b {
        p.g as int
    } else {
        p.b as int
    }
}

/// The smallest of the three colour channels, as a mathematical integer.
pub open spec fn min_channel(p: Pixel) -> int {
    if p.r <= p.g && p.r <= p.b {
        p.r as int
    } else if p.g <= p.b {
        p.g as int
    } else {
        p.b as int
    }
}

/// Perceptual luma of a pixel, the same weighting a grayscale conversion
/// uses: (2126 R + 7152 G + 722 B) / 10000, rounded down.
pub open spec fn luminance_spec(p: Pixel) -> int {
    (2126 * p.r + 7152 * p.g + 722 * p.b) / 10000
}

/// HSL hue of a pixel in degrees, truncated toward zero. A pixel with zero
/// chroma (all channels equal) maps to 0 by convention. The branch taken for
/// a tied maximum channel prefers red, then green, then blue.
pub open spec fn hue_spec(p: Pixel) -> int {
    let r = p.r as int;
    let g = p.g as int;
    let b = p.b as int;
    let d = max_channel(p) - min_channel(p);
    if d == 0 {
        0
    } else if max_channel(p) == r {
        if g >= b {
            (60 * (g - b)) / d
        } else {
            (360 * d + 60 * (g - b)) / d
        }
    } else if max_channel(p) == g {
        (120 * d + 60 * (b - r)) / d
    } else {
        (240 * d + 60 * (r - g)) / d
    }
}

/// HSL saturation scaled into [0, 255]: with channels scaled to [0, 1], the
/// chroma (max - min) divided by 1 - |2 L - 1| where L is the lightness
/// (max + min) / 2, then rescaled by 255 and truncated. In integer form,
/// 255 (max - min) divided by 255 - |max + min - 255|. A pixel with zero
/// chroma maps to 0 by convention.
pub open spec fn saturation_spec(p: Pixel) -> int {
    let mx = max_channel(p);
    let mn = min_channel(p);
    if mx == mn {
        0
    } else if mx + mn >= 255 {
        (255 * (mx - mn)) / (510 - (mx + mn))
    } else {
        (255 * (mx - mn)) / (mx + mn)
    }
}

/// The sort key of a pixel under a metric: the single point where a key
/// function is selected, by exhaustive match.
pub open spec fn key_spec(method: SortBy, p: Pixel) -> int {
    match method {
        SortBy::Luminance => luminance_spec(p),
        SortBy::Hue => hue_spec(p),
        SortBy::Saturation => saturation_spec(p),
    }
}

/// The inclusive upper end of a metric's key domain as exposed to threshold
/// controls: 255 for luminance and saturation, 360 for hue.
pub open spec fn upper_boundary_spec(method: SortBy) -> int {
    match method {
        SortBy::Luminance | SortBy::Saturation => 255,
        SortBy::Hue => 360,
    }
}

/// The inclusive upper end of the threshold domain for a metric.
pub fn threshold_upper_boundary(method: &SortBy) -> (bound: u16)
    ensures
        bound == upper_boundary_spec(*method),
{
    match method {
        SortBy::Luminance | SortBy::Saturation => 255,
        SortBy::Hue => 360,
    }
}

/// Perceptual luma key of a pixel, in [0, 255].
pub fn luminance(pixel: &Pixel) -> (k: u16)
    ensures
        k == luminance_spec(*pixel),
        k <= 255,
{
    let weighted: u32 = 2126 * (pixel.r as u32) + 7152 * (pixel.g as u32) + 722 * (pixel.b as u32);
    assert(weighted <= 10000 * 255);
    assert(weighted / 10000 <= 255) by (nonlinear_arith)
        requires
            weighted <= 10000 * 255,
    ;
    (weighted / 10000) as u16
}

/// The largest colour channel of a pixel.
fn max_channel_exec(pixel: &Pixel) -> (mx: u8)
    ensures
        mx == max_channel(*pixel),
{
    if pixel.r >= pixel.g && pixel.r >= pixel.b {
        pixel.r
    } else if pixel.g >= pixel.b {
        pixel.g
    } else {
        pixel.b
    }
}

/// The smallest colour channel of a pixel.
fn min_channel_exec(pixel: &Pixel) -> (mn: u8)
    ensures
        mn == min_channel(*pixel),
{
    if pixel.r <= pixel.g && pixel.r <= pixel.b {
        pixel.r
    } else if pixel.g <= pixel.b {
        pixel.g
    } else {
        pixel.b
    }
}

/// HSL hue key of a pixel in degrees, in [0, 360); 0 for a gray pixel.
pub fn hue(pixel: &Pixel) -> (k: u16)
    ensures
        k == hue_spec(*pixel),
        k < 360,
{
    let r: u32 = pixel.r as u32;
    let g: u32 = pixel.g as u32;
    let b: u32 = pixel.b as u32;
    let mx: u32 = max_channel_exec(pixel) as u32;
    let mn: u32 = min_channel_exec(pixel) as u32;
    assert(mn <= r <= mx && mn <= g <= mx && mn <= b <= mx);
    let d: u32 = mx - mn;

    if d == 0 {
        return 0;
    }

    let k32: u32 = if mx == r {
        if g >= b {
            (60 * (g - b)) / d
        } else {
            (360 * d - 60 * (b - g)) / d
        }
    } else if mx == g {
        if b >= r {
            (120 * d + 60 * (b - r)) / d
        } else {
            (120 * d - 60 * (r - b)) / d
        }
    } else {
        if r >= g {
            (240 * d + 60 * (r - g)) / d
        } else {
            (240 * d - 60 * (g - r)) / d
        }
    };
    proof {
        lemma_key_in_domain(SortBy::Hue, *pixel);
    }
    k32 as u16
}

/// HSL saturation key of a pixel, scaled into [0, 255]; 0 for a gray pixel.
pub fn saturation(pixel: &Pixel) -> (k: u16)
    ensures
        k == saturation_spec(*pixel),
        k <= 255,
{
    let mx: u32 = max_channel_exec(pixel) as u32;
    let mn: u32 = min_channel_exec(pixel) as u32;
    if mx == mn {
        return 0;
    }
    assert(mn < mx <= 255);
    let sum: u32 = mx + mn;
    let denom: u32 = if sum >= 255 {
        510 - sum
    } else {
        sum
    };
    assert(1 <= denom <= 255);
    let k32: u32 = (255 * (mx - mn)) / denom;
    proof {
        lemma_key_in_domain(SortBy::Saturation, *pixel);
    }
    k32 as u16
}

/// The sort key of a pixel under a metric: the single point where a key
/// function is selected, by exhaustive match over the closed variant set.
pub fn key(method: &SortBy, pixel: &Pixel) -> (k: u16)
    ensures
        k == key_spec(*method, *pixel),
        k <= upper_boundary_spec(*method),
{
    match method {
        SortBy::Luminance => luminance(pixel),
        SortBy::Hue => hue(pixel),
        SortBy::Saturation => saturation(pixel),
    }
}

/// One step of the interactive threshold controls: the requested lower value
/// is capped by the current higher threshold, then the requested higher value
/// is capped by the metric's domain bound and raised to the new lower
/// threshold. The result is always an ordered pair, fit to hand to the row
/// sorter.
pub fn clamp_thresholds(
    method: &SortBy,
    requested_lower: u16,
    requested_higher: u16,
    current_higher: u16,
) -> (r: (u16, u16))
    ensures
        r.0 == if requested_lower <= current_higher {
            requested_lower
        } else {
            current_higher
        },
        r.1 == if requested_higher > upper_boundary_spec(*method) {
            if upper_boundary_spec(*method) >= r.0 {
                upper_boundary_spec(*method)
            } else {
                r.0 as int
            }
        } else {
            if requested_higher >= r.0 {
                requested_higher as int
            } else {
                r.0 as int
            }
        },
        r.0 <= r.1,
{
    let lower: u16 = if requested_lower <= current_higher {
        requested_lower
    } else {
        current_higher
    };
    let bound: u16 = threshold_upper_boundary(method);
    let capped: u16 = if requested_higher > bound {
        bound
    } else {
        requested_higher
    };
    let higher: u16 = if capped >= lower {
        capped
    } else {
        lower
    };
    (lower, higher)
}

/// Every key lies in its metric's domain: luminance and saturation keys in
/// [0, 255], hue keys in [0, 360).
pub proof fn lemma_key_in_domain(method: SortBy, p: Pixel)
    ensures
        0 <= key_spec(method, p),
        key_spec(method, p) <= upper_boundary_spec(method),
        method == SortBy::Hue ==> key_spec(method, p) < 360,
{
    let r = p.r as int;
    let g = p.g as int;
    let b = p.b as int;
    let mx = max_channel(p);
    let mn = min_channel(p);
    let d = mx - mn;
    match method {
        SortBy::Luminance => {
            assert(2126 * r + 7152 * g + 722 * b <= 10000 * 255);
            assert((2126 * r + 7152 * g + 722 * b) / 10000 <= 255) by (nonlinear_arith)
                requires
                    0 <= 2126 * r + 7152 * g + 722 * b <= 10000 * 255,
            ;
        },
        SortBy::Hue => {
            if d != 0 {
                if mx == r {
                    if g >= b {
                        assert(0 <= 60 * (g - b) < 360 * d) by (nonlinear_arith)
                            requires
                                0 <= g - b <= d,
                                d >= 1,
                        ;
                        assert(0 <= (60 * (g - b)) / d < 360) by (nonlinear_arith)
                            requires
                                0 <= 60 * (g - b) < 360 * d,
                                d >= 1,
                        ;
                    } else {
                        assert(0 <= 360 * d + 60 * (g - b) < 360 * d) by (nonlinear_arith)
                            requires
                                -d <= g - b <= -1,
                                d >= 1,
                        ;
                        assert(0 <= (360 * d + 60 * (g - b)) / d < 360) by (nonlinear_arith)
                            requires
                                0 <= 360 * d + 60 * (g - b) < 360 * d,
                                d >= 1,
                        ;
                    }
                } else if mx == g {
                    assert(0 <= 120 * d + 60 * (b - r) < 360 * d) by (nonlinear_arith)
                        requires
                            -d <= b - r <= d,
                            d >= 1,
                    ;
                    assert(0 <= (120 * d + 60 * (b - r)) / d < 360) by (nonlinear_arith)
                        requires
                            0 <= 120 * d + 60 * (b - r) < 360 * d,
                            d >= 1,
                    ;
                } else {
                    assert(0 <= 240 * d + 60 * (r - g) < 360 * d) by (nonlinear_arith)
                        requires
                            -d <= r - g <= d,
                            d >= 1,
                    ;
                    assert(0 <= (240 * d + 60 * (r - g)) / d < 360) by (nonlinear_arith)
                        requires
                            0 <= 240 * d + 60 * (r - g) < 360 * d,
                            d >= 1,
                    ;
                }
            }
        },
        SortBy::Saturation => {
            if mx != mn {
                let sum = mx + mn;
                let denom = if sum >= 255 {
                    510 - sum
                } else {
                    sum
                };
                assert(mn < mx);
                assert(1 <= denom);
                assert(mx - mn <= denom);
                assert(0 <= 255 * (mx - mn) <= 255 * denom) by (nonlinear_arith)
                    requires
                        0 <= mx - mn <= denom,
                ;
                assert(0 <= (255 * (mx - mn)) / denom <= 255) by (nonlinear_arith)
                    requires
                        0 <= 255 * (mx - mn) <= 255 * denom,
                        1 <= denom,
                ;
            }
        },
    }
}

/// The gray-pixel convention: a pixel with equal channels has zero chroma, so
/// its hue and saturation keys are both 0 by the documented design choice.
pub proof fn lemma_gray_pixel(p: Pixel)
    requires
        p.r == p.g,
        p.g == p.b,
    ensures
        hue_spec(p) == 0,
        saturation_spec(p) == 0,
{
}

} // verus!
