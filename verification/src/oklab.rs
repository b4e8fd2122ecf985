//! Colour arithmetic in the Oklab space, in whole numbers.
//!
//! Every quantity is a fixed-point number.  Lightness and the two colour axes
//! count millionths; linear light counts hundred-millionths.  Distances are
//! Euclidean in Oklab and count millionths too.

use vstd::arithmetic::div_mod::lemma_hoist_over_denominator;
use vstd::prelude::*;

verus! {

/// Linear light of each of the 256 levels of an sRGB channel, in
/// hundred-millionths of full intensity: the inverse of the sRGB transfer
/// curve, rounded to the nearest whole number.
pub const SRGB_LINEAR: [u32; 256] = [
    0, 30353, 60705, 91058, 121411, 151763, 182116, 212469,
    242822, 273174, 303527, 334654, 367651, 402472, 439144, 477695,
    518152, 560539, 604883, 651209, 699541, 749903, 802319, 856813,
    913406, 972122, 1032982, 1096009, 1161225, 1228649, 1298303, 1370208,
    1444384, 1520851, 1599629, 1680738, 1764195, 1850022, 1938236, 2028856,
    2121901, 2217388, 2315337, 2415763, 2518686, 2624122, 2732089, 2842604,
    2955683, 3071344, 3189603, 3310477, 3433981, 3560131, 3688945, 3820437,
    3954624, 4091520, 4231141, 4373503, 4518620, 4666509, 4817182, 4970657,
    5126946, 5286065, 5448028, 5612849, 5780543, 5951124, 6124605, 6301002,
    6480327, 6662594, 6847817, 7036010, 7227185, 7421357, 7618538, 7818742,
    8021982, 8228271, 8437621, 8650046, 8865559, 9084171, 9305896, 9530747,
    9758735, 9989873, 10224173, 10461648, 10702310, 10946171, 11193243, 11443537,
    11697067, 11953843, 12213877, 12477182, 12743768, 13013648, 13286832, 13563333,
    13843162, 14126329, 14412847, 14702727, 14995979, 15292615, 15592646, 15896084,
    16202938, 16513219, 16826940, 17144110, 17464740, 17788842, 18116424, 18447499,
    18782077, 19120168, 19461783, 19806932, 20155625, 20507874, 20863687, 21223076,
    21586050, 21952620, 22322796, 22696587, 23074005, 23455058, 23839757, 24228112,
    24620133, 25015828, 25415209, 25818285, 26225066, 26635560, 27049779, 27467731,
    27889426, 28314874, 28744084, 29177065, 29613827, 30054379, 30498731, 30946892,
    31398871, 31854678, 32314321, 32777810, 33245154, 33716362, 34191442, 34670406,
    35153260, 35640014, 36130678, 36625260, 37123768, 37626212, 38132601, 38642943,
    39157248, 39675523, 40197778, 40724021, 41254261, 41788507, 42326767, 42869050,
    43415364, 43965717, 44520119, 45078578, 45641102, 46207700, 46778380, 47353150,
    47932018, 48514994, 49102085, 49693300, 50288646, 50888132, 51491767, 52099557,
    52711513, 53327640, 53947949, 54572446, 55201140, 55834039, 56471151, 57112483,
    57758044, 58407842, 59061884, 59720179, 60382734, 61049557, 61720656, 62396039,
    63075714, 63759687, 64447968, 65140564, 65837482, 66538730, 67244316, 67954247,
    68668531, 69387176, 70110189, 70837578, 71569350, 72305513, 73046074, 73791041,
    74540421, 75294222, 76052450, 76815115, 77582222, 78353779, 79129794, 79910274,
    80695226, 81484657, 82278575, 83076988, 83879901, 84687323, 85499261, 86315721,
    87136712, 87962240, 88792312, 89626935, 90466117, 91309865, 92158186, 93011086,
    93868573, 94730654, 95597335, 96468625, 97344529, 98225055, 99110210, 100000000,
];

/// The divisor of the mixing coefficients: ten to the tenth.
pub const COEFF_ONE: u64 = 10000000000;

/// No component of a colour that this module produces is further from zero.
pub const COMPONENT_BOUND: i32 = 4000000;

/// A colour in Oklab, each component in millionths.
#[derive(Clone, Copy, Debug, PartialEq, Eq, Structural)]
pub struct Oklab {
    pub l: i32,
    pub a: i32,
    pub b: i32,
}

impl Oklab {
    /// Every component is within the bound, so that differences can be
    /// squared and summed without care.
    pub open spec fn bounded(&self) -> bool {
        &&& -4000000 <= self.l <= 4000000
        &&& -4000000 <= self.a <= 4000000
        &&& -4000000 <= self.b <= 4000000
    }
}

/// Linear light of level `c`.
pub open spec fn linear_of(c: int) -> int {
    SRGB_LINEAR[c] as int
}

/// `r` is the whole part of the square root of `x`.
pub open spec fn is_sqrt(x: int, r: int) -> bool {
    0 <= r && r * r <= x < (r + 1) * (r + 1)
}

/// The whole part of the square root of `x`.
pub open spec fn isqrt(x: int) -> int {
    choose|r: int| is_sqrt(x, r)
}

/// `r` is the whole part of the cube root of `x`.
pub open spec fn is_cbrt(x: int, r: int) -> bool {
    0 <= r && r * r * r <= x < (r + 1) * (r + 1) * (r + 1)
}

/// The whole part of the cube root of `x`.
pub open spec fn icbrt(x: int) -> int {
    choose|r: int| is_cbrt(x, r)
}

/// A number has one whole square root.
pub proof fn lemma_sqrt_unique(x: int, r: int, s: int)
    requires
        is_sqrt(x, r),
        is_sqrt(x, s),
    ensures
        r == s,
{
    assert(r < s ==> (r + 1) * (r + 1) <= s * s) by (nonlinear_arith)
        requires
            0 <= r,
            0 <= s,
    ;
    assert(s < r ==> (s + 1) * (s + 1) <= r * r) by (nonlinear_arith)
        requires
            0 <= r,
            0 <= s,
    ;
}

/// A number has one whole cube root.
pub proof fn lemma_cbrt_unique(x: int, r: int, s: int)
    requires
        is_cbrt(x, r),
        is_cbrt(x, s),
    ensures
        r == s,
{
    assert(r < s ==> (r + 1) * (r + 1) * (r + 1) <= s * s * s) by (nonlinear_arith)
        requires
            0 <= r,
            0 <= s,
    ;
    assert(s < r ==> (s + 1) * (s + 1) * (s + 1) <= r * r * r) by (nonlinear_arith)
        requires
            0 <= r,
            0 <= s,
    ;
}

/// Whole part of the square root.
pub fn sqrt_floor(x: u64) -> (r: u32)
    ensures
        r == isqrt(x as int),
        is_sqrt(x as int, r as int),
{
    let mut lo: u64 = 0;
    let mut hi: u64 = 0x1_0000_0000;
    while hi - lo > 1
        invariant
            0 <= lo < hi <= 0x1_0000_0000,
            lo * lo <= x < hi * hi,
        decreases hi - lo,
    {
        let mid = lo + (hi - lo) / 2;
        assert(mid * mid <= 0x1_0000_0000 * 0x1_0000_0000) by (nonlinear_arith)
            requires
                0 <= mid <= 0x1_0000_0000,
        ;
        if (mid as u128) * (mid as u128) <= x as u128 {
            lo = mid;
        } else {
            hi = mid;
        }
    }
    proof {
        assert(is_sqrt(x as int, lo as int));
        lemma_sqrt_unique(x as int, lo as int, isqrt(x as int));
    }
    lo as u32
}

/// Whole part of the cube root.
pub fn cbrt_floor(x: u64) -> (r: u32)
    ensures
        r == icbrt(x as int),
        is_cbrt(x as int, r as int),
        x <= 1000000000000000000 ==> r <= 1000000,
{
    let mut lo: u64 = 0;
    let mut hi: u64 = 0x40_0000;
    assert(x < 0x40_0000 * 0x40_0000 * 0x40_0000) by (nonlinear_arith)
        requires
            x <= 0xFFFF_FFFF_FFFF_FFFF,
    ;
    while hi - lo > 1
        invariant
            0 <= lo < hi <= 0x40_0000,
            lo * lo * lo <= x < hi * hi * hi,
        decreases hi - lo,
    {
        let mid = lo + (hi - lo) / 2;
        assert(mid * mid <= 0x40_0000 * 0x40_0000 && mid * mid * mid <= 0x40_0000 * 0x40_0000
            * 0x40_0000) by (nonlinear_arith)
            requires
                0 <= mid <= 0x40_0000,
        ;
        if (mid as u128) * (mid as u128) * (mid as u128) <= x as u128 {
            lo = mid;
        } else {
            hi = mid;
        }
    }
    proof {
        assert(is_cbrt(x as int, lo as int));
        lemma_cbrt_unique(x as int, lo as int, icbrt(x as int));
        assert(lo > 1000000 ==> lo * lo * lo > 1000000000000000000) by (nonlinear_arith)
            requires
                0 <= lo,
        ;
    }
    lo as u32
}

/// Linear light mixed into the first of the three cone-like responses.
pub open spec fn lms_l(r: int, g: int, b: int) -> int {
    4122214708 * linear_of(r) + 5363325363 * linear_of(g) + 514459929 * linear_of(b)
}

/// Linear light mixed into the second response.
pub open spec fn lms_m(r: int, g: int, b: int) -> int {
    2119034982 * linear_of(r) + 6806995451 * linear_of(g) + 1073969566 * linear_of(b)
}

/// Linear light mixed into the third response.
pub open spec fn lms_s(r: int, g: int, b: int) -> int {
    883024619 * linear_of(r) + 2817188376 * linear_of(g) + 6299787005 * linear_of(b)
}

/// The compressed responses mixed into lightness and the two colour axes.
pub open spec fn oklab_mix(lp: int, mp: int, sp: int) -> Oklab {
    Oklab {
        l: ((2104542553 * lp + 7936177850 * mp - 40720468 * sp) / 10000000000) as i32,
        a: ((19779984951 * lp - 24285922050 * mp + 4505937099 * sp) / 10000000000) as i32,
        b: ((259040371 * lp + 7827717662 * mp - 8086757660 * sp) / 10000000000) as i32,
    }
}

/// The Oklab colour of an sRGB colour: channels to linear light, linear light
/// mixed into three responses, each compressed by a cube root, and those mixed
/// into lightness and two colour axes.
pub open spec fn oklab_of(r: u8, g: u8, b: u8) -> Oklab {
    oklab_mix(
        icbrt(lms_l(r as int, g as int, b as int)),
        icbrt(lms_m(r as int, g as int, b as int)),
        icbrt(lms_s(r as int, g as int, b as int)),
    )
}

/// Square of the distance between two colours.
pub open spec fn dist2(p: Oklab, q: Oklab) -> int {
    (p.l - q.l) * (p.l - q.l) + (p.a - q.a) * (p.a - q.a) + (p.b - q.b) * (p.b - q.b)
}

/// Distance between two colours, rounded down.
pub open spec fn delta_e(p: Oklab, q: Oklab) -> int {
    isqrt(dist2(p, q))
}

/// Linear light of an sRGB level.
pub fn srgb_to_linear(c: u8) -> (v: u32)
    ensures
        v == linear_of(c as int),
        v <= 100000000,
{
    SRGB_LINEAR[c as usize]
}

/// `x / 10^10`, rounded down, for a numerator of either sign.
fn div_coeff(x: i64) -> (q: i32)
    requires
        -40000000000000000 <= x <= 40000000000000000,
    ensures
        q == x / 10000000000,
        -4000000 <= q <= 4000000,
{
    proof {
        lemma_hoist_over_denominator(x as int, 4000000, 10000000000);
    }
    let shifted: u64 = (x + 40000000000000000) as u64;
    ((shifted / COEFF_ONE) as i64 - 4000000) as i32
}

/// Converts an sRGB colour to Oklab.
pub fn rgb_to_oklab(r: u8, g: u8, b: u8) -> (lab: Oklab)
    ensures
        lab == oklab_of(r, g, b),
        lab.bounded(),
{
    let lr = srgb_to_linear(r) as u64;
    let lg = srgb_to_linear(g) as u64;
    let lb = srgb_to_linear(b) as u64;
    let lp = cbrt_floor(4122214708 * lr + 5363325363 * lg + 514459929 * lb) as i64;
    let mp = cbrt_floor(2119034982 * lr + 6806995451 * lg + 1073969566 * lb) as i64;
    let sp = cbrt_floor(883024619 * lr + 2817188376 * lg + 6299787005 * lb) as i64;
    Oklab {
        l: div_coeff(2104542553 * lp + 7936177850 * mp - 40720468 * sp),
        a: div_coeff(19779984951 * lp - 24285922050 * mp + 4505937099 * sp),
        b: div_coeff(259040371 * lp + 7827717662 * mp - 8086757660 * sp),
    }
}

/// Square of the distance between two colours.
pub fn dist2_oklab(p: Oklab, q: Oklab) -> (d: u64)
    requires
        p.bounded(),
        q.bounded(),
    ensures
        d == dist2(p, q),
        d <= 192000000000000,
{
    let dl = p.l as i64 - q.l as i64;
    let da = p.a as i64 - q.a as i64;
    let db = p.b as i64 - q.b as i64;
    assert(dl * dl <= 64000000000000 && da * da <= 64000000000000 && db * db <= 64000000000000
        && dl * dl >= 0 && da * da >= 0 && db * db >= 0) by (nonlinear_arith)
        requires
            -8000000 <= dl <= 8000000,
            -8000000 <= da <= 8000000,
            -8000000 <= db <= 8000000,
    ;
    (dl * dl + da * da + db * db) as u64
}

/// Perceptual distance between two colours: Euclidean in Oklab, in
/// millionths, rounded down.
pub fn delta_e_oklab(lab1: Oklab, lab2: Oklab) -> (d: u32)
    requires
        lab1.bounded(),
        lab2.bounded(),
    ensures
        d == delta_e(lab1, lab2),
        d <= 13856407,
{
    let d2 = dist2_oklab(lab1, lab2);
    let d = sqrt_floor(d2);
    assert(d > 13856407 ==> d * d > 192000000000000) by (nonlinear_arith)
        requires
            0 <= d,
    ;
    d
}

/// How far linear light `x` is from that of level `c`.
pub open spec fn level_gap(x: int, c: int) -> int {
    if linear_of(c) >= x {
        linear_of(c) - x
    } else {
        x - linear_of(c)
    }
}

/// Among the first `n` levels the one whose linear light is nearest to `x`,
/// the lower one of two that are equally near.
pub open spec fn nearest_level(x: int, n: int) -> int
    decreases n,
{
    if n <= 1 {
        0
    } else {
        let j = nearest_level(x, n - 1);
        if level_gap(x, n - 1) < level_gap(x, j) {
            n - 1
        } else {
            j
        }
    }
}

/// The sRGB level whose linear light is nearest to `x`.  Light below that of
/// level 0 or above that of level 255 gives those levels.
pub fn linear_to_srgb(x: u64) -> (c: u8)
    ensures
        c == nearest_level(x as int, 256),
{
    let mut best: u8 = 0;
    let mut n: usize = 1;
    while n < 256
        invariant
            1 <= n <= 256,
            best == nearest_level(x as int, n as int),
            best < n,
        decreases 256 - n,
    {
        let here = SRGB_LINEAR[n] as u64;
        let held = SRGB_LINEAR[best as usize] as u64;
        let gap_here = if here >= x {
            here - x
        } else {
            x - here
        };
        let gap_held = if held >= x {
            held - x
        } else {
            x - held
        };
        if gap_here < gap_held {
            best = n as u8;
        }
        n = n + 1;
    }
    best
}

/// Lightness and colour axes unmixed into one of the compressed responses.
pub open spec fn unmix(l: int, a: int, b: int, ca: int, cb: int) -> int {
    (10000000000 * l + ca * a + cb * b) / 10000000000
}

/// Linear light of one channel from the three responses, in
/// hundred-millionths; what would be negative is 0.
pub open spec fn channel_light(l: int, m: int, s: int, cl: int, cm: int, cs: int) -> int {
    let num = cl * (l * l * l) + cm * (m * m * m) + cs * (s * s * s);
    if num < 0 {
        0
    } else {
        num / 100000000000000000000
    }
}

/// The sRGB colour of an Oklab colour: the two mixes undone and the cube
/// root undone between them, then each channel set to the nearest level.
pub open spec fn rgb_of(lab: Oklab) -> (u8, u8, u8) {
    let l = unmix(lab.l as int, lab.a as int, lab.b as int, 3963377774, 2158037573);
    let m = unmix(lab.l as int, lab.a as int, lab.b as int, -1055613458, -638541728);
    let s = unmix(lab.l as int, lab.a as int, lab.b as int, -894841775, -12914855480);
    (
        nearest_level(channel_light(l, m, s, 40767416621, -33077115913, 2309699292), 256) as u8,
        nearest_level(channel_light(l, m, s, -12684380046, 26097574011, -3413193965), 256) as u8,
        nearest_level(channel_light(l, m, s, -41960863, -7034186147, 17076147010), 256) as u8,
    )
}

/// The nearest of the first `n` levels is one of them.
pub proof fn lemma_nearest_level_range(x: int, n: int)
    requires
        1 <= n,
    ensures
        0 <= nearest_level(x, n) < n,
    decreases n,
{
    if n > 1 {
        lemma_nearest_level_range(x, n - 1);
    }
}

/// One compressed response from lightness and colour axes.
fn unmix_response(lab: Oklab, ca: i64, cb: i64) -> (v: i64)
    requires
        lab.bounded(),
        -13000000000 <= ca <= 13000000000,
        -13000000000 <= cb <= 13000000000,
    ensures
        v == unmix(lab.l as int, lab.a as int, lab.b as int, ca as int, cb as int),
        -20000000 <= v <= 20000000,
{
    let l = lab.l as i64;
    let a = lab.a as i64;
    let b = lab.b as i64;
    assert(-52000000000000000 <= ca * a <= 52000000000000000 && -52000000000000000 <= cb * b
        <= 52000000000000000) by (nonlinear_arith)
        requires
            -4000000 <= a <= 4000000,
            -4000000 <= b <= 4000000,
            -13000000000 <= ca <= 13000000000,
            -13000000000 <= cb <= 13000000000,
    ;
    let num: i64 = 10000000000 * l + ca * a + cb * b;
    proof {
        lemma_hoist_over_denominator(num as int, 20000000, 10000000000);
    }
    let shifted: u64 = (num + 200000000000000000) as u64;
    (shifted / COEFF_ONE) as i64 - 20000000
}

/// Linear light of one channel from the three responses.
fn channel_from(l: i64, m: i64, s: i64, cl: i128, cm: i128, cs: i128) -> (x: u64)
    requires
        -20000000 <= l <= 20000000,
        -20000000 <= m <= 20000000,
        -20000000 <= s <= 20000000,
        -50000000000 <= cl <= 50000000000,
        -50000000000 <= cm <= 50000000000,
        -50000000000 <= cs <= 50000000000,
    ensures
        x == channel_light(l as int, m as int, s as int, cl as int, cm as int, cs as int),
{
    let l3 = cube(l);
    let m3 = cube(m);
    let s3 = cube(s);
    assert(-400000000000000000000000000000000 <= cl * l3 <= 400000000000000000000000000000000
        && -400000000000000000000000000000000 <= cm * m3 <= 400000000000000000000000000000000
        && -400000000000000000000000000000000 <= cs * s3 <= 400000000000000000000000000000000)
        by (nonlinear_arith)
        requires
            -8000000000000000000000 <= l3 <= 8000000000000000000000,
            -8000000000000000000000 <= m3 <= 8000000000000000000000,
            -8000000000000000000000 <= s3 <= 8000000000000000000000,
            -50000000000 <= cl <= 50000000000,
            -50000000000 <= cm <= 50000000000,
            -50000000000 <= cs <= 50000000000,
    ;
    let num: i128 = cl * l3 + cm * m3 + cs * s3;
    if num < 0 {
        0
    } else {
        ((num as u128) / 100000000000000000000u128) as u64
    }
}

/// The third power.
fn cube(v: i64) -> (c: i128)
    requires
        -20000000 <= v <= 20000000,
    ensures
        c == v * v * v,
        -8000000000000000000000 <= c <= 8000000000000000000000,
{
    assert(-8000000000000000000000 <= v * v * v <= 8000000000000000000000 && 0 <= v * v
        <= 400000000000000) by (nonlinear_arith)
        requires
            -20000000 <= v <= 20000000,
    ;
    let w = v as i128;
    w * w * w
}

/// Converts an Oklab colour to sRGB; what lies outside the sRGB gamut is
/// brought to the nearest level channel by channel.
pub fn oklab_to_rgb(oklab: Oklab) -> (rgb: (u8, u8, u8))
    requires
        oklab.bounded(),
    ensures
        rgb == rgb_of(oklab),
{
    let l = unmix_response(oklab, 3963377774, 2158037573);
    let m = unmix_response(oklab, -1055613458, -638541728);
    let s = unmix_response(oklab, -894841775, -12914855480);
    let r = linear_to_srgb(channel_from(l, m, s, 40767416621, -33077115913, 2309699292));
    let g = linear_to_srgb(channel_from(l, m, s, -12684380046, 26097574011, -3413193965));
    let b = linear_to_srgb(channel_from(l, m, s, -41960863, -7034186147, 17076147010));
    (r, g, b)
}

} // verus!
