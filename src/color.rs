use vstd::prelude::*;
use crate::palette::ColorRange;

verus! {

/// HSV of a pixel, held exactly:
/// half-hue `H/2 = hue_num / hue_den` in degrees on the 0..180 axis,
/// `S * 255 = sat_num / sat_den`, and `V * 255 = value`.
#[derive(Clone, Copy, PartialEq, Eq, Structural, Debug)]
pub struct HSV {
    pub hue_num: u32,
    pub hue_den: u32,
    pub sat_num: u32,
    pub sat_den: u32,
    pub value: u8,
}

pub open spec fn max3(r: int, g: int, b: int) -> int {
    if r >= g && r >= b {
        r
    } else if g >= b {
        g
    } else {
        b
    }
}

pub open spec fn min3(r: int, g: int, b: int) -> int {
    if r <= g && r <= b {
        r
    } else if g <= b {
        g
    } else {
        b
    }
}

/// Numerator of `H/2` over the denominator `max - min`, where
/// `H = 60 * ((g - b) / d mod 6)` when red is largest,
/// `60 * ((b - r) / d + 2)` when green is, `60 * ((r - g) / d + 4)` otherwise;
/// the modulus is the mathematical one, so `H` lies in `[0, 360)`.
pub open spec fn half_hue_num(r: int, g: int, b: int) -> int {
    let mx = max3(r, g, b);
    let d = mx - min3(r, g, b);
    if d == 0 {
        0
    } else if mx == r {
        if g >= b {
            30 * (g - b)
        } else {
            30 * (g - b) + 180 * d
        }
    } else if mx == g {
        30 * (b - r) + 60 * d
    } else {
        30 * (r - g) + 120 * d
    }
}

pub open spec fn half_hue_den(r: int, g: int, b: int) -> int {
    let d = max3(r, g, b) - min3(r, g, b);
    if d == 0 {
        1
    } else {
        d
    }
}

/// The exact HSV of `(r, g, b)`.
pub open spec fn hsv_of(r: u8, g: u8, b: u8) -> HSV {
    let mx = max3(r as int, g as int, b as int);
    let d = mx - min3(r as int, g as int, b as int);
    HSV {
        hue_num: half_hue_num(r as int, g as int, b as int) as u32,
        hue_den: half_hue_den(r as int, g as int, b as int) as u32,
        sat_num: (if mx == 0 { 0 } else { 255 * d }) as u32,
        sat_den: (if mx == 0 { 1 } else { mx }) as u32,
        value: mx as u8,
    }
}

/// `H/2` within `[lower_h, upper_h]`, or outside `(upper_h, lower_h)` when the
/// range wraps around.
pub open spec fn hue_matches(h: HSV, c: ColorRange) -> bool {
    let lo = c.lower_h * h.hue_den;
    let hi = c.upper_h * h.hue_den;
    if c.lower_h <= c.upper_h {
        lo <= h.hue_num && h.hue_num <= hi
    } else {
        h.hue_num >= lo || h.hue_num <= hi
    }
}

/// `S * 255` within `[lower_s * (1 - t), upper_s * (1 + t)]`.
pub open spec fn sat_matches(h: HSV, c: ColorRange) -> bool {
    let t = c.tolerance_pct as int;
    100 * h.sat_num >= c.lower_s * (100 - t) * h.sat_den
        && 100 * h.sat_num <= c.upper_s * (100 + t) * h.sat_den
}

/// `V * 255` within `[lower_v * (1 - t), upper_v * (1 + t)]`.
pub open spec fn value_matches(h: HSV, c: ColorRange) -> bool {
    let t = c.tolerance_pct as int;
    100 * h.value >= c.lower_v * (100 - t) && 100 * h.value <= c.upper_v * (100 + t)
}

pub open spec fn spec_matches(h: HSV, c: ColorRange) -> bool {
    hue_matches(h, c) && sat_matches(h, c) && value_matches(h, c)
}

/// Whether pixel `(r, g, b)` falls in color range `c`.
pub open spec fn pixel_matches(r: u8, g: u8, b: u8, c: ColorRange) -> bool {
    spec_matches(hsv_of(r, g, b), c)
}

/// Converts a pixel to its exact HSV.
pub fn rgb_to_hsv(r: u8, g: u8, b: u8) -> (h: HSV)
    ensures
        h == hsv_of(r, g, b),
        h.hue_den > 0,
        h.sat_den > 0,
        h.hue_num < 180 * h.hue_den,
{
    let mx: u8 = if r >= g && r >= b {
        r
    } else if g >= b {
        g
    } else {
        b
    };
    let mn: u8 = if r <= g && r <= b {
        r
    } else if g <= b {
        g
    } else {
        b
    };
    let d: u32 = (mx - mn) as u32;
    let (hue_num, hue_den): (u32, u32) = if d == 0 {
        (0, 1)
    } else if mx == r {
        if g >= b {
            (30 * (g - b) as u32, d)
        } else {
            (180 * d - 30 * (b - g) as u32, d)
        }
    } else if mx == g {
        if b >= r {
            (60 * d + 30 * (b - r) as u32, d)
        } else {
            (60 * d - 30 * (r - b) as u32, d)
        }
    } else {
        if r >= g {
            (120 * d + 30 * (r - g) as u32, d)
        } else {
            (120 * d - 30 * (g - r) as u32, d)
        }
    };
    let (sat_num, sat_den): (u32, u32) = if mx == 0 {
        (0, 1)
    } else {
        (255 * d, mx as u32)
    };
    HSV { hue_num, hue_den, sat_num, sat_den, value: mx }
}

/// Whether an HSV value falls in color range `c`: hue, saturation and value
/// must all match.
pub fn color_matches_range(h: &HSV, c: &ColorRange) -> (m: bool)
    ensures
        m == spec_matches(*h, *c),
{
    let hn = h.hue_num as u64;
    let hd = h.hue_den as u64;
    let sd = h.sat_den as u64;
    proof {
        let (a, b, x, y) = (c.lower_h as int, c.upper_h as int, hd as int, sd as int);
        assert(a * x <= 255 * 0x1_0000_0000) by (nonlinear_arith)
            requires 0 <= a <= 255, 0 <= x < 0x1_0000_0000;
        assert(b * x <= 255 * 0x1_0000_0000) by (nonlinear_arith)
            requires 0 <= b <= 255, 0 <= x < 0x1_0000_0000;
        let (ls, us, t) = (c.lower_s as int, c.upper_s as int, c.tolerance_pct as int);
        if t <= 100 {
            assert(ls * (100 - t) <= 255 * 100) by (nonlinear_arith)
                requires 0 <= ls <= 255, 0 <= t <= 100;
            assert(ls * (100 - t) * y <= 255 * 100 * 0x1_0000_0000) by (nonlinear_arith)
                requires 0 <= ls * (100 - t) <= 255 * 100, 0 <= y < 0x1_0000_0000;
        }
        assert(us * (100 + t) <= 255 * 355) by (nonlinear_arith)
            requires 0 <= us <= 255, 0 <= t <= 255;
        let (lv, uv) = (c.lower_v as int, c.upper_v as int);
        assert(uv * (100 + t) <= 255 * 355) by (nonlinear_arith)
            requires 0 <= uv <= 255, 0 <= t <= 255;
        if t <= 100 {
            assert(lv * (100 - t) <= 255 * 100) by (nonlinear_arith)
                requires 0 <= lv <= 255, 0 <= t <= 100;
        } else {
            assert(lv * (100 - t) <= 0) by (nonlinear_arith)
                requires 0 <= lv, t > 100;
            assert(ls * (100 - t) * y <= 0) by (nonlinear_arith)
                requires 0 <= ls, t > 100, 0 <= y;
        }
        assert(us * (100 + t) * y <= 255 * 355 * 0x1_0000_0000) by (nonlinear_arith)
            requires 0 <= us * (100 + t) <= 255 * 355, 0 <= y < 0x1_0000_0000;
    }
    let lo = c.lower_h as u64 * hd;
    let hi = c.upper_h as u64 * hd;
    let hue_ok = if c.lower_h <= c.upper_h {
        lo <= hn && hn <= hi
    } else {
        hn >= lo || hn <= hi
    };
    let t = c.tolerance_pct as u64;
    let sn = 100 * h.sat_num as u64;
    let sat_ok = if t <= 100 {
        sn >= c.lower_s as u64 * (100 - t) * sd
    } else {
        true
    } && sn <= c.upper_s as u64 * (100 + t) * sd;
    let vn = 100 * h.value as u64;
    let val_ok = if t <= 100 {
        vn >= c.lower_v as u64 * (100 - t)
    } else {
        true
    } && vn <= c.upper_v as u64 * (100 + t);
    hue_ok && sat_ok && val_ok
}

} // verus!
