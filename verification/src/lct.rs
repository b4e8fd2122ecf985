//! Quantizing a single RGBA image to a colour table of its own: the colours
//! come from a NeuQuant network, the indices from error diffusion after Floyd
//! and Steinberg.

use std::collections::HashMap;
use vstd::prelude::*;

verus! {

/// Why an image was not quantized or encoded.
#[derive(Debug, Clone, PartialEq, Eq)]
pub enum GifError {
    /// The buffer does not hold width * height * 4 bytes.
    InvalidDimensions { expected: usize, actual: usize },
    /// There is no frame at all.
    InvalidFrameCount(usize),
    /// The method asks for no colour or for more than 256, or for a sampling
    /// factor outside 1 to 30.
    QuantizationError { colors: u16, sample_fac: u8 },
    EncodingError(String),
    IoError(String),
}

/// How the colours of an image are chosen.
#[derive(Debug, Clone, Copy, PartialEq, Eq, Structural)]
pub enum QuantizationMethod {
    /// A NeuQuant network of `colors` colours that learns from every
    /// `sample_fac`-th pixel; 1 is best, 30 fastest.
    NeuQuant { colors: u16, sample_fac: u8 },
    /// The `colors` most frequent colours of the image.
    MedianCut { colors: u16 },
}

impl Default for QuantizationMethod {
    fn default() -> (m: Self)
        ensures
            m == (QuantizationMethod::NeuQuant { colors: 256, sample_fac: 10 }),
    {
        QuantizationMethod::NeuQuant { colors: 256, sample_fac: 10 }
    }
}

/// How a network is to learn.
#[derive(Debug, Clone, Copy)]
pub struct QuantizeOptions {
    pub sample_fac: i32,
}

impl Default for QuantizeOptions {
    fn default() -> (o: Self)
        ensures
            o.sample_fac == 10,
    {
        QuantizeOptions { sample_fac: 10 }
    }
}

#[verifier::external_type_specification]
#[verifier::external_body]
pub struct ExNeuQuant(color_quant::NeuQuant);

/// The colour map of a trained network: four bytes, red, green, blue and
/// alpha, for each of its colours.
pub uninterp spec fn colour_map(nq: color_quant::NeuQuant) -> Seq<u8>;

/// The colour map that a network of `colors` colours has after learning from
/// `pixels` with sampling factor `samplefac`.
pub uninterp spec fn trained_map(samplefac: int, colors: int, pixels: Seq<u8>) -> Seq<u8>;

/// The entry of a colour map that a network with that map finds for `pixel`.
pub uninterp spec fn map_index(map: Seq<u8>, pixel: Seq<u8>) -> int;

/// `color_quant::NeuQuant::new`: builds a network of `colors` colours and
/// trains it on RGBA `pixels`.  Claimed: training depends on the three
/// arguments alone, and the colour map has `colors` entries of four bytes.
/// A sampling factor below 1 or no colour at all would make the call fail,
/// so they are kept out, and so are more colours than an index of one byte
/// can name.
#[verifier::external_body]
fn neuquant_new(samplefac: i32, colors: usize, pixels: &Vec<u8>) -> (nq: color_quant::NeuQuant)
    requires
        1 <= samplefac <= 30,
        1 <= colors <= 256,
    ensures
        colour_map(nq) == trained_map(samplefac as int, colors as int, pixels@),
        colour_map(nq).len() == 4 * colors,
{
    color_quant::NeuQuant::new(samplefac, colors, pixels.as_slice())
}

/// `color_quant::NeuQuant::color_map_rgba`: the colour map as it is.
#[verifier::external_body]
fn neuquant_color_map_rgba(nq: &color_quant::NeuQuant) -> (map: Vec<u8>)
    ensures
        map@ == colour_map(*nq),
{
    nq.color_map_rgba()
}

/// `color_quant::NeuQuant::index_of`: the entry that the network finds for an
/// RGBA pixel.  Claimed: the entry depends on the colour map and the pixel
/// alone, and it is an entry of the map.
#[verifier::external_body]
fn neuquant_index_of(nq: &color_quant::NeuQuant, r: u8, g: u8, b: u8, a: u8) -> (i: usize)
    requires
        colour_map(*nq).len() >= 4,
    ensures
        i == map_index(colour_map(*nq), seq![r, g, b, a]),
        i < colour_map(*nq).len() / 4,
{
    nq.index_of(&[r, g, b, a])
}

/// A colour map without its alpha bytes.
pub open spec fn without_alpha(map: Seq<u8>) -> Seq<u8> {
    Seq::new((map.len() / 4 * 3) as nat, |i: int| map[i / 3 * 4 + i % 3])
}

/// Drops every fourth byte.
pub fn strip_alpha(rgba: &Vec<u8>) -> (rgb: Vec<u8>)
    ensures
        rgb@ == without_alpha(rgba@),
{
    let entries = rgba.len() / 4;
    let mut rgb: Vec<u8> = Vec::new();
    let mut i: usize = 0;
    while i < entries
        invariant
            0 <= i <= entries,
            entries == rgba.len() / 4,
            rgb.len() == 3 * i,
            forall|j: int| 0 <= j < 3 * i ==> (#[trigger] rgb[j]) == rgba[j / 3 * 4 + j % 3],
        decreases entries - i,
    {
        rgb.push(rgba[4 * i]);
        rgb.push(rgba[4 * i + 1]);
        rgb.push(rgba[4 * i + 2]);
        i = i + 1;
    }
    assert(rgb@ =~= without_alpha(rgba@));
    rgb
}

/// `a / b` rounded towards zero.
pub open spec fn trunc_div(a: int, b: int) -> int {
    if a >= 0 {
        a / b
    } else {
        -((-a) / b)
    }
}

/// `v` brought into the range of a byte.
pub open spec fn clamp_byte(v: int) -> int {
    if v < 0 {
        0
    } else if v > 255 {
        255
    } else {
        v
    }
}

/// The error `e` made at pixel `i` of an image of `w` by `h`, handed on:
/// 7/16 to the right, 3/16 down left, 5/16 down, 1/16 down right, each part
/// rounded towards zero, and only to pixels that exist.
pub open spec fn spread(pending: Seq<int>, i: int, w: int, h: int, e: int) -> Seq<int> {
    let x = i % w;
    let y = i / w;
    let s1 = if x + 1 < w {
        pending.update(i + 1, pending[i + 1] + trunc_div(e * 7, 16))
    } else {
        pending
    };
    let s2 = if y + 1 < h && x > 0 {
        s1.update(i + w - 1, s1[i + w - 1] + trunc_div(e * 3, 16))
    } else {
        s1
    };
    let s3 = if y + 1 < h {
        s2.update(i + w, s2[i + w] + trunc_div(e * 5, 16))
    } else {
        s2
    };
    if y + 1 < h && x + 1 < w {
        s3.update(i + w + 1, s3[i + w + 1] + trunc_div(e, 16))
    } else {
        s3
    }
}

/// Error diffusion under way: the errors waiting at each pixel, by channel,
/// and the indices given so far.
pub struct Diffusion {
    pub r: Seq<int>,
    pub g: Seq<int>,
    pub b: Seq<int>,
    pub indices: Seq<u8>,
}

/// Pixel `i`: the waiting error is added to the pixel, the network finds the
/// entry for the sum as an opaque colour, and what the entry misses is handed on.
pub open spec fn diffuse_step(d: Diffusion, rgba: Seq<u8>, map: Seq<u8>, w: int, h: int, i: int) -> Diffusion {
    let r = clamp_byte(rgba[4 * i] + d.r[i]);
    let g = clamp_byte(rgba[4 * i + 1] + d.g[i]);
    let b = clamp_byte(rgba[4 * i + 2] + d.b[i]);
    let index = map_index(map, seq![r as u8, g as u8, b as u8, 255u8]);
    Diffusion {
        r: spread(d.r, i, w, h, r - map[4 * index]),
        g: spread(d.g, i, w, h, g - map[4 * index + 1]),
        b: spread(d.b, i, w, h, b - map[4 * index + 2]),
        indices: d.indices.push(index as u8),
    }
}

/// The first `n` pixels, row by row.
pub open spec fn diffuse(rgba: Seq<u8>, map: Seq<u8>, w: int, h: int, n: int) -> Diffusion
    decreases n,
{
    if n <= 0 {
        Diffusion {
            r: Seq::new((w * h) as nat, |i: int| 0int),
            g: Seq::new((w * h) as nat, |i: int| 0int),
            b: Seq::new((w * h) as nat, |i: int| 0int),
            indices: Seq::empty(),
        }
    } else {
        diffuse_step(diffuse(rgba, map, w, h, n - 1), rgba, map, w, h, n - 1)
    }
}

/// The indices of an image of `w` by `h` quantized against a colour map.
pub open spec fn dithered(rgba: Seq<u8>, map: Seq<u8>, w: int, h: int) -> Seq<u8> {
    diffuse(rgba, map, w, h, w * h).indices
}

/// After `n` pixels there are `n` indices.
pub proof fn lemma_diffuse_len(rgba: Seq<u8>, map: Seq<u8>, w: int, h: int, n: int)
    requires
        0 <= n,
    ensures
        diffuse(rgba, map, w, h, n).indices.len() == n,
    decreases n,
{
    if n > 0 {
        lemma_diffuse_len(rgba, map, w, h, n - 1);
    }
}

/// `e * part / 16`, rounded towards zero.
fn share(e: i64, part: i64) -> (s: i64)
    requires
        -255 <= e <= 255,
        1 <= part <= 7,
    ensures
        s == trunc_div(e * part, 16),
        -112 <= s <= 112,
{
    assert(-1785 <= e * part <= 1785) by (nonlinear_arith)
        requires
            -255 <= e <= 255,
            1 <= part <= 7,
    ;
    let v = e * part;
    if v >= 0 {
        ((v as u64) / 16) as i64
    } else {
        -((((-v) as u64) / 16) as i64)
    }
}

/// No waiting error is larger than what `m` shares can add up to.
pub open spec fn errors_within(pending: Seq<int>, m: int) -> bool {
    forall|j: int| 0 <= j < pending.len() ==> -112 * m <= #[trigger] pending[j] <= 112 * m
}

/// The waiting errors as whole numbers.
pub open spec fn as_ints(v: Seq<i64>) -> Seq<int> {
    Seq::new(v.len(), |j: int| v[j] as int)
}

/// Adds the share `s` to the error waiting at `j`, if `wanted`.
fn add_share(pending: &mut Vec<i64>, wanted: bool, j: usize, s: i64, Ghost(m): Ghost<int>)
    requires
        wanted ==> j < old(pending).len(),
        -112 <= s <= 112,
        0 <= m <= 0x10_0000_0000,
        errors_within(as_ints(old(pending)@), m),
    ensures
        final(pending).len() == old(pending).len(),
        as_ints(final(pending)@) == if wanted {
            as_ints(old(pending)@).update(j as int, as_ints(old(pending)@)[j as int] + s)
        } else {
            as_ints(old(pending)@)
        },
        errors_within(as_ints(final(pending)@), m + 1),
{
    let ghost start = as_ints(pending@);
    if wanted {
        assert(start[j as int] == pending[j as int]);
        let v = pending[j] + s;
        pending.set(j, v);
        assert(as_ints(pending@) =~= start.update(j as int, start[j as int] + s));
    }
    assert forall|t: int| 0 <= t < pending.len() implies -112 * (m + 1) <= #[trigger] as_ints(
        pending@,
    )[t] <= 112 * (m + 1) by {
        assert(-112 * m <= start[t] <= 112 * m);
    }
}

/// Hands the error `e` of pixel `i` on to its neighbours.
fn hand_on(pending: &mut Vec<i64>, i: usize, w: usize, h: usize, e: i64, Ghost(m): Ghost<int>)
    requires
        -255 <= e <= 255,
        0 < w <= 0xFFFF,
        0 < h <= 0xFFFF,
        i < w * h,
        old(pending).len() == w * h,
        0 <= m <= 0x8_0000_0000,
        errors_within(as_ints(old(pending)@), m),
    ensures
        final(pending).len() == w * h,
        as_ints(final(pending)@) == spread(
            as_ints(old(pending)@),
            i as int,
            w as int,
            h as int,
            e as int,
        ),
        errors_within(as_ints(final(pending)@), m + 4),
{
    assert(w * h <= 0xFFFF * 0xFFFF) by (nonlinear_arith)
        requires
            0 < w <= 0xFFFF,
            0 < h <= 0xFFFF,
    ;
    let x = i % w;
    let y = i / w;
    proof {
        vstd::arithmetic::div_mod::lemma_fundamental_div_mod(i as int, w as int);
        assert(y < h && w * (y + 1) <= w * h && (y + 1 < h ==> w * (y + 2) <= w * h)
            && w * (y + 1) == w * y + w && w * (y + 2) == w * y + 2 * w) by (nonlinear_arith)
            requires
                i == w * y + x,
                0 <= x < w,
                0 <= y,
                i < w * h,
                w > 0,
        ;
        assert(e * 1 == e);
    }
    let below = y + 1 < h;
    add_share(pending, x + 1 < w, i + 1, share(e, 7), Ghost(m));
    add_share(pending, below && x > 0, i + w - 1, share(e, 3), Ghost(m + 1));
    add_share(pending, below, i + w, share(e, 5), Ghost(m + 2));
    add_share(pending, below && x + 1 < w, i + w + 1, share(e, 1), Ghost(m + 3));
}

/// A pixel value with the error waiting for it, brought into range.
fn corrected(value: u8, waiting: i64) -> (v: u8)
    ensures
        v == clamp_byte(value + waiting),
{
    if waiting < -(value as i64) {
        0
    } else if waiting > 255 - value as i64 {
        255
    } else {
        (value as i64 + waiting) as u8
    }
}

/// The method can be carried out: one to 256 colours, and for a network a
/// sampling factor of 1 to 30.
pub open spec fn method_ok(method: QuantizationMethod) -> bool {
    match method {
        QuantizationMethod::NeuQuant { colors, sample_fac } => 1 <= colors <= 256 && 1
            <= sample_fac <= 30,
        QuantizationMethod::MedianCut { colors } => 1 <= colors <= 256,
    }
}

/// The error that a method which cannot be carried out is refused with.  It
/// names the colours asked for and the sampling factor, 0 where the method
/// has none.
pub open spec fn method_fault(method: QuantizationMethod) -> GifError {
    match method {
        QuantizationMethod::NeuQuant { colors, sample_fac } => GifError::QuantizationError {
            colors,
            sample_fac,
        },
        QuantizationMethod::MedianCut { colors } => GifError::QuantizationError {
            colors,
            sample_fac: 0,
        },
    }
}

/// The colour table of an image under a method: three bytes per colour.
pub open spec fn table_of(rgba: Seq<u8>, w: int, h: int, method: QuantizationMethod) -> Seq<u8> {
    match method {
        QuantizationMethod::NeuQuant { colors, sample_fac } => without_alpha(
            trained_map(sample_fac as int, colors as int, rgba),
        ),
        QuantizationMethod::MedianCut { colors } => frequent_table(rgba, w * h, colors as int),
    }
}

/// The indices of an image under a method: one per pixel.
pub open spec fn indices_of(rgba: Seq<u8>, w: int, h: int, method: QuantizationMethod) -> Seq<u8> {
    match method {
        QuantizationMethod::NeuQuant { colors, sample_fac } => dithered(
            rgba,
            trained_map(sample_fac as int, colors as int, rgba),
            w,
            h,
        ),
        QuantizationMethod::MedianCut { colors } => frequent_indices(rgba, w * h, colors as int),
    }
}

/// Quantizes an RGBA image of `width` by `height` pixels.  Gives the colour
/// table, three bytes per colour, and one index per pixel.
///
/// A buffer of the wrong size is refused first, then a method that cannot
/// be carried out.
pub fn quantize_rgba_to_lct(
    rgba: &Vec<u8>,
    width: u16,
    height: u16,
    method: QuantizationMethod,
) -> (r: Result<(Vec<u8>, Vec<u8>), GifError>)
    ensures
        rgba.len() != width * height * 4 ==> r == Err::<(Vec<u8>, Vec<u8>), GifError>(
            GifError::InvalidDimensions {
                expected: (width * height * 4) as usize,
                actual: rgba.len(),
            },
        ),
        rgba.len() == width * height * 4 && !method_ok(method) ==> r == Err::<
            (Vec<u8>, Vec<u8>),
            GifError,
        >(method_fault(method)),
        rgba.len() == width * height * 4 && method_ok(method) ==> (r matches Ok(out) && out.0@
            == table_of(rgba@, width as int, height as int, method) && out.1@ == indices_of(
            rgba@,
            width as int,
            height as int,
            method,
        )),
        r matches Ok(out) ==> out.0.len() <= 768,
{
    assert(width * height * 4 <= 0xFFFF * 0xFFFF * 4) by (nonlinear_arith)
        requires
            0 <= width <= 0xFFFF,
            0 <= height <= 0xFFFF,
    ;
    let pixel_count: u64 = width as u64 * height as u64;
    if rgba.len() as u64 != pixel_count * 4 {
        return Err(
            GifError::InvalidDimensions { expected: (pixel_count * 4) as usize, actual: rgba.len() },
        );
    }
    match method {
        QuantizationMethod::NeuQuant { colors, sample_fac } => {
            if colors == 0 || colors > 256 || sample_fac == 0 || sample_fac > 30 {
                return Err(GifError::QuantizationError { colors, sample_fac });
            }
            let nq = neuquant_new(sample_fac as i32, colors as usize, rgba);
            let map = neuquant_color_map_rgba(&nq);
            let palette = strip_alpha(&map);
            let indices = dither(rgba, width as usize, height as usize, &nq, &map);
            Ok((palette, indices))
        },
        QuantizationMethod::MedianCut { colors } => {
            if colors == 0 || colors > 256 {
                return Err(GifError::QuantizationError { colors, sample_fac: 0 });
            }
            Ok(median_cut_quantize(rgba, pixel_count as usize, colors as usize))
        },
    }
}

/// Gives every pixel an index of the network's colour map, diffusing the
/// error that each index makes.
fn dither(rgba: &Vec<u8>, w: usize, h: usize, nq: &color_quant::NeuQuant, map: &Vec<u8>) -> (indices:
    Vec<u8>)
    requires
        w <= 0xFFFF,
        h <= 0xFFFF,
        rgba.len() == w * h * 4,
        map@ == colour_map(*nq),
        4 <= map.len() <= 1024,
    ensures
        indices@ == dithered(rgba@, map@, w as int, h as int),
{
    assert(w * h <= 0xFFFF * 0xFFFF) by (nonlinear_arith)
        requires
            0 <= w <= 0xFFFF,
            0 <= h <= 0xFFFF,
    ;
    let n = w * h;
    let mut err_r: Vec<i64> = vec![0i64; n];
    let mut err_g: Vec<i64> = vec![0i64; n];
    let mut err_b: Vec<i64> = vec![0i64; n];
    let mut indices: Vec<u8> = Vec::new();
    let ghost wi = w as int;
    let ghost hi = h as int;
    assert(as_ints(err_r@) =~= diffuse(rgba@, map@, wi, hi, 0).r);
    assert(as_ints(err_g@) =~= diffuse(rgba@, map@, wi, hi, 0).g);
    assert(as_ints(err_b@) =~= diffuse(rgba@, map@, wi, hi, 0).b);
    let mut i: usize = 0;
    while i < n
        invariant
            0 <= i <= n,
            n == w * h,
            n <= 0xFFFF * 0xFFFF,
            w <= 0xFFFF,
            h <= 0xFFFF,
            wi == w,
            hi == h,
            rgba.len() == n * 4,
            map@ == colour_map(*nq),
            4 <= map.len() <= 1024,
            err_r.len() == n,
            err_g.len() == n,
            err_b.len() == n,
            as_ints(err_r@) == diffuse(rgba@, map@, wi, hi, i as int).r,
            as_ints(err_g@) == diffuse(rgba@, map@, wi, hi, i as int).g,
            as_ints(err_b@) == diffuse(rgba@, map@, wi, hi, i as int).b,
            indices@ == diffuse(rgba@, map@, wi, hi, i as int).indices,
            errors_within(as_ints(err_r@), 4 * i),
            errors_within(as_ints(err_g@), 4 * i),
            errors_within(as_ints(err_b@), 4 * i),
        decreases n - i,
    {
        assert(w > 0 && h > 0) by (nonlinear_arith)
            requires
                i < w * h,
                0 <= w,
                0 <= h,
        ;
        assert(as_ints(err_r@)[i as int] == err_r[i as int]);
        assert(as_ints(err_g@)[i as int] == err_g[i as int]);
        assert(as_ints(err_b@)[i as int] == err_b[i as int]);
        let r = corrected(rgba[4 * i], err_r[i]);
        let g = corrected(rgba[4 * i + 1], err_g[i]);
        let b = corrected(rgba[4 * i + 2], err_b[i]);
        let index = neuquant_index_of(nq, r, g, b, 255);
        indices.push(index as u8);
        let miss_r = r as i64 - map[4 * index] as i64;
        let miss_g = g as i64 - map[4 * index + 1] as i64;
        let miss_b = b as i64 - map[4 * index + 2] as i64;
        hand_on(&mut err_r, i, w, h, miss_r, Ghost(4 * i as int));
        hand_on(&mut err_g, i, w, h, miss_g, Ghost(4 * i as int));
        hand_on(&mut err_b, i, w, h, miss_b, Ghost(4 * i as int));
        i = i + 1;
    }
    indices
}

/// The first `n` frames one behind the other.
pub open spec fn joined(frames: Seq<Seq<u8>>, n: int) -> Seq<u8>
    decreases n,
{
    if n <= 0 {
        Seq::empty()
    } else {
        joined(frames, n - 1) + frames[n - 1]
    }
}

/// The indices that a network with colour map `map` finds for the whole
/// pixels of a frame, pixel by pixel and without diffusing any error.
pub open spec fn plain_indices(frame: Seq<u8>, map: Seq<u8>) -> Seq<u8> {
    Seq::new(
        (frame.len() / 4) as nat,
        |p: int|
            map_index(map, seq![frame[4 * p], frame[4 * p + 1], frame[4 * p + 2], frame[4 * p + 3]])
                as u8,
    )
}

/// The colour map of the one network of 256 colours that learns from all
/// frames together.
pub open spec fn shared_map(frames: Seq<Seq<u8>>, sample_fac: int) -> Seq<u8> {
    trained_map(sample_fac, 256, joined(frames, frames.len() as int))
}

/// Quantizes frames against one network of 256 colours that learns from all
/// of them.  Gives for each frame its indices and the colour table, which is
/// the same for all.  A sampling factor outside 1 to 30 is refused.
pub fn quantize_rgba_frames(
    frames: &Vec<Vec<u8>>,
    _width: u32,
    _height: u32,
    options: Option<QuantizeOptions>,
) -> (r: Result<Vec<(Vec<u8>, Vec<u8>)>, GifError>)
    ensures
        match r {
            Ok(list) => {
                &&& options matches Some(o) ==> 1 <= o.sample_fac <= 30
                &&& list.len() == frames.len()
                &&& forall|f: int|
                    0 <= f < frames.len() ==> {
                        &&& (#[trigger] list[f]).0@ == plain_indices(
                            frames[f]@,
                            shared_map(crate::cube::planes(frames@), sample_factor(options)),
                        )
                        &&& list[f].1@ == without_alpha(
                            shared_map(crate::cube::planes(frames@), sample_factor(options)),
                        )
                        &&& list[f].1@.len() == 768
                    }
            },
            Err(e) => {
                &&& options matches Some(o) && !(1 <= o.sample_fac <= 30)
                &&& e == factor_fault(sample_factor(options))
            },
        },
{
    let sample_fac = match options {
        Some(o) => o.sample_fac,
        None => 10,
    };
    if sample_fac < 1 || sample_fac > 30 {
        let shown: u8 = if sample_fac < 1 {
            0
        } else {
            255
        };
        return Err(GifError::QuantizationError { colors: 256, sample_fac: shown });
    }
    let ghost pl = crate::cube::planes(frames@);
    let mut all_pixels: Vec<u8> = Vec::new();
    let mut f: usize = 0;
    while f < frames.len()
        invariant
            0 <= f <= frames.len(),
            pl == crate::cube::planes(frames@),
            all_pixels@ == joined(pl, f as int),
        decreases frames.len() - f,
    {
        assert(pl[f as int] == frames[f as int]@);
        let frame = &frames[f];
        let ghost before = all_pixels@;
        let mut i: usize = 0;
        while i < frame.len()
            invariant
                0 <= i <= frame.len(),
                all_pixels@ == before + frame@.take(i as int),
            decreases frame.len() - i,
        {
            all_pixels.push(frame[i]);
            assert(all_pixels@ =~= before + frame@.take(i + 1));
            i = i + 1;
        }
        assert(frame@.take(i as int) =~= frame@);
        f = f + 1;
    }
    let nq = neuquant_new(sample_fac, 256, &all_pixels);
    let map = neuquant_color_map_rgba(&nq);
    let mut result: Vec<(Vec<u8>, Vec<u8>)> = Vec::new();
    let mut f: usize = 0;
    while f < frames.len()
        invariant
            0 <= f <= frames.len(),
            map@ == colour_map(nq),
            map@ == shared_map(crate::cube::planes(frames@), sample_fac as int),
            map.len() == 1024,
            result.len() == f,
            forall|g: int|
                0 <= g < f ==> {
                    &&& (#[trigger] result[g]).0@ == plain_indices(frames[g]@, map@)
                    &&& result[g].1@ == without_alpha(map@)
                },
        decreases frames.len() - f,
    {
        let frame = &frames[f];
        let pixels = frame.len() / 4;
        let mut indices: Vec<u8> = Vec::new();
        let mut p: usize = 0;
        while p < pixels
            invariant
                0 <= p <= pixels,
                pixels == frame.len() / 4,
                map@ == colour_map(nq),
                map.len() == 1024,
                indices.len() == p,
                forall|q: int|
                    0 <= q < p ==> (#[trigger] indices[q]) == plain_indices(frame@, map@)[q],
            decreases pixels - p,
        {
            let index = neuquant_index_of(
                &nq,
                frame[4 * p],
                frame[4 * p + 1],
                frame[4 * p + 2],
                frame[4 * p + 3],
            );
            indices.push(index as u8);
            p = p + 1;
        }
        assert(indices@ =~= plain_indices(frame@, map@));
        let palette = strip_alpha(&map);
        let ghost before = result@;
        result.push((indices, palette));
        assert forall|g: int| 0 <= g < f + 1 implies {
            &&& (#[trigger] result[g]).0@ == plain_indices(frames[g]@, map@)
            &&& result[g].1@ == without_alpha(map@)
        } by {
            if g < f {
                assert(result[g] == before[g]);
            }
        }
        f = f + 1;
    }
    Ok(result)
}

/// The error that a sampling factor outside 1 to 30 is refused with.  It
/// shows a factor that is too small as 0 and one that is too large as 255.
pub open spec fn factor_fault(sample_fac: int) -> GifError {
    GifError::QuantizationError {
        colors: 256,
        sample_fac: if sample_fac < 1 {
            0u8
        } else {
            255u8
        },
    }
}

/// A frame quantized on its own: its indices, its colour table of three bytes
/// per colour, and its size.
#[derive(Debug, Clone)]
pub struct QuantizedFrame {
    pub indices: Vec<u8>,
    pub palette: Vec<u8>,
    pub width: u32,
    pub height: u32,
}

/// The colour map of the network of 256 colours that learns from the colours
/// of one frame, alpha left out.
pub open spec fn own_map(frame: Seq<u8>, sample_factor: int) -> Seq<u8> {
    trained_map(sample_factor, 256, without_alpha(frame))
}

/// Quantizes every frame against a network of its own, which learns from the
/// red, green and blue of the frame and then finds an entry for each pixel as
/// it is, alpha included.  A sampling factor outside 1 to 30 is refused.
pub fn quantize_frames(frames: &Vec<(Vec<u8>, u32, u32)>, sample_factor: i32) -> (r: Result<
    Vec<QuantizedFrame>,
    GifError,
>)
    ensures
        !(1 <= sample_factor <= 30) ==> r == Err::<Vec<QuantizedFrame>, GifError>(
            factor_fault(sample_factor as int),
        ),
        1 <= sample_factor <= 30 ==> (r matches Ok(list) && {
            &&& list.len() == frames.len()
            &&& forall|f: int|
                0 <= f < frames.len() ==> {
                    &&& (#[trigger] list[f]).indices@ == plain_indices(
                        frames[f].0@,
                        own_map(frames[f].0@, sample_factor as int),
                    )
                    &&& list[f].palette@ == without_alpha(
                        own_map(frames[f].0@, sample_factor as int),
                    )
                    &&& list[f].width == frames[f].1
                    &&& list[f].height == frames[f].2
                }
        }),
{
    if sample_factor < 1 || sample_factor > 30 {
        let shown: u8 = if sample_factor < 1 {
            0
        } else {
            255
        };
        return Err(GifError::QuantizationError { colors: 256, sample_fac: shown });
    }
    let mut result: Vec<QuantizedFrame> = Vec::new();
    let mut f: usize = 0;
    while f < frames.len()
        invariant
            0 <= f <= frames.len(),
            1 <= sample_factor <= 30,
            result.len() == f,
            forall|g: int|
                0 <= g < f ==> {
                    &&& (#[trigger] result[g]).indices@ == plain_indices(
                        frames[g].0@,
                        own_map(frames[g].0@, sample_factor as int),
                    )
                    &&& result[g].palette@ == without_alpha(
                        own_map(frames[g].0@, sample_factor as int),
                    )
                    &&& result[g].width == frames[g].1
                    &&& result[g].height == frames[g].2
                },
        decreases frames.len() - f,
    {
        let frame = &frames[f].0;
        let rgb = strip_alpha(frame);
        let nq = neuquant_new(sample_factor, 256, &rgb);
        let map = neuquant_color_map_rgba(&nq);
        let pixels = frame.len() / 4;
        let mut indices: Vec<u8> = Vec::new();
        let mut p: usize = 0;
        while p < pixels
            invariant
                0 <= p <= pixels,
                pixels == frame.len() / 4,
                map@ == colour_map(nq),
                map.len() == 1024,
                indices.len() == p,
                forall|q: int|
                    0 <= q < p ==> (#[trigger] indices[q]) == plain_indices(frame@, map@)[q],
            decreases pixels - p,
        {
            let index = neuquant_index_of(
                &nq,
                frame[4 * p],
                frame[4 * p + 1],
                frame[4 * p + 2],
                frame[4 * p + 3],
            );
            indices.push(index as u8);
            p = p + 1;
        }
        assert(indices@ =~= plain_indices(frame@, map@));
        let palette = strip_alpha(&map);
        let ghost before = result@;
        result.push(
            QuantizedFrame { indices, palette, width: frames[f].1, height: frames[f].2 },
        );
        assert forall|g: int| 0 <= g < f + 1 implies {
            &&& (#[trigger] result[g]).indices@ == plain_indices(
                frames[g].0@,
                own_map(frames[g].0@, sample_factor as int),
            )
            &&& result[g].palette@ == without_alpha(own_map(frames[g].0@, sample_factor as int))
            &&& result[g].width == frames[g].1
            &&& result[g].height == frames[g].2
        } by {
            if g < f {
                assert(result[g] == before[g]);
            }
        }
        f = f + 1;
    }
    Ok(result)
}

/// The sampling factor that options stand for: 10 unless they say otherwise.
pub open spec fn sample_factor(options: Option<QuantizeOptions>) -> int {
    match options {
        Some(o) => o.sample_fac as int,
        None => 10,
    }
}

/// A colour and how often it occurs.
#[derive(Clone, Copy, Debug, PartialEq, Eq, Structural)]
pub struct ColourCount {
    pub r: u8,
    pub g: u8,
    pub b: u8,
    pub count: usize,
}

/// Where the colour (`r`, `g`, `b`) stands among the first `n` of `list`, or
/// `n` if it does not.
pub open spec fn position_of(list: Seq<ColourCount>, r: u8, g: u8, b: u8, n: int) -> int
    decreases n,
{
    if n <= 0 {
        0
    } else {
        let before = position_of(list, r, g, b, n - 1);
        if before < n - 1 {
            before
        } else if list[n - 1].r == r && list[n - 1].g == g && list[n - 1].b == b {
            n - 1
        } else {
            n
        }
    }
}

/// The colours of the first `n` pixels in the order in which they first
/// occur, each with the number of its occurrences.
pub open spec fn counted(rgba: Seq<u8>, n: int) -> Seq<ColourCount>
    decreases n,
{
    if n <= 0 {
        Seq::empty()
    } else {
        let list = counted(rgba, n - 1);
        let r = rgba[4 * (n - 1)];
        let g = rgba[4 * (n - 1) + 1];
        let b = rgba[4 * (n - 1) + 2];
        let at = position_of(list, r, g, b, list.len() as int);
        if at < list.len() {
            list.update(at, ColourCount { count: (list[at].count + 1) as usize, ..list[at] })
        } else {
            list.push(ColourCount { r, g, b, count: 1 })
        }
    }
}

/// Where `item` goes in a list ordered from frequent to rare: before the
/// first of the first `n` that is rarer, behind all that are as frequent.
pub open spec fn slot_for(sorted: Seq<ColourCount>, count: usize, n: int) -> int
    decreases n,
{
    if n <= 0 {
        0
    } else {
        let before = slot_for(sorted, count, n - 1);
        if before < n - 1 {
            before
        } else if sorted[n - 1].count < count {
            n - 1
        } else {
            n
        }
    }
}

/// The first `n` of `list` ordered from frequent to rare; colours that are
/// equally frequent keep their order.
pub open spec fn by_frequency(list: Seq<ColourCount>, n: int) -> Seq<ColourCount>
    decreases n,
{
    if n <= 0 {
        Seq::empty()
    } else {
        let sorted = by_frequency(list, n - 1);
        sorted.insert(slot_for(sorted, list[n - 1].count, sorted.len() as int), list[n - 1])
    }
}

/// The `colors` most frequent colours of the first `pixels` pixels.
pub open spec fn most_frequent(rgba: Seq<u8>, pixels: int, colors: int) -> Seq<ColourCount> {
    let all = counted(rgba, pixels);
    let sorted = by_frequency(all, all.len() as int);
    if sorted.len() <= colors {
        sorted
    } else {
        sorted.take(colors)
    }
}

/// Square of the distance between two colours in RGB.
pub open spec fn rgb_dist2(c: ColourCount, r: u8, g: u8, b: u8) -> int {
    (c.r - r) * (c.r - r) + (c.g - g) * (c.g - g) + (c.b - b) * (c.b - b)
}

/// Among the first `n` colours the one nearest to (`r`, `g`, `b`), the first
/// of several that are equally near; 0 if there is none.
pub open spec fn nearest_rgb(list: Seq<ColourCount>, r: u8, g: u8, b: u8, n: int) -> int
    decreases n,
{
    if n <= 1 {
        0
    } else {
        let j = nearest_rgb(list, r, g, b, n - 1);
        if rgb_dist2(list[n - 1], r, g, b) < rgb_dist2(list[j], r, g, b) {
            n - 1
        } else {
            j
        }
    }
}

/// The colour table of the most frequent colours, filled up with black to
/// `colors` entries.
pub open spec fn frequent_table(rgba: Seq<u8>, pixels: int, colors: int) -> Seq<u8> {
    let kept = most_frequent(rgba, pixels, colors);
    Seq::new(
        (3 * colors) as nat,
        |i: int|
            if i / 3 < kept.len() {
                if i % 3 == 0 {
                    kept[i / 3].r
                } else if i % 3 == 1 {
                    kept[i / 3].g
                } else {
                    kept[i / 3].b
                }
            } else {
                0u8
            },
    )
}

/// The index of pixel `p` against the most frequent colours: that of its own
/// colour if it was kept, else that of the nearest colour kept.
pub open spec fn frequent_index(kept: Seq<ColourCount>, rgba: Seq<u8>, p: int) -> int {
    let at = position_of(kept, rgba[4 * p], rgba[4 * p + 1], rgba[4 * p + 2], kept.len() as int);
    if at < kept.len() {
        at
    } else {
        nearest_rgb(kept, rgba[4 * p], rgba[4 * p + 1], rgba[4 * p + 2], kept.len() as int)
    }
}

/// The indices of the first `pixels` pixels against the most frequent colours.
pub open spec fn frequent_indices(rgba: Seq<u8>, pixels: int, colors: int) -> Seq<u8> {
    Seq::new(
        pixels as nat,
        |p: int| frequent_index(most_frequent(rgba, pixels, colors), rgba, p) as u8,
    )
}

/// Where a colour stands in a list, or the length of the list.
pub fn find_colour(list: &Vec<ColourCount>, r: u8, g: u8, b: u8) -> (at: usize)
    ensures
        at == position_of(list@, r, g, b, list.len() as int),
        at <= list.len(),
{
    let mut n: usize = 0;
    while n < list.len()
        invariant
            0 <= n <= list.len(),
            position_of(list@, r, g, b, n as int) == n,
        decreases list.len() - n,
    {
        let c = list[n];
        if c.r == r && c.g == g && c.b == b {
            proof {
                lemma_position_stays(list@, r, g, b, n + 1, list.len() as int);
            }
            return n;
        }
        n = n + 1;
    }
    n
}

/// A colour found among the first `m` stands at the same place among more.
pub proof fn lemma_position_stays(list: Seq<ColourCount>, r: u8, g: u8, b: u8, m: int, n: int)
    requires
        0 <= m <= n,
        position_of(list, r, g, b, m) < m,
    ensures
        position_of(list, r, g, b, n) == position_of(list, r, g, b, m),
    decreases n - m,
{
    if m < n {
        lemma_position_stays(list, r, g, b, m, n - 1);
    }
}

/// A colour stands among the first `n`, or nowhere, which is place `n`.
pub proof fn lemma_position_range(list: Seq<ColourCount>, r: u8, g: u8, b: u8, n: int)
    requires
        0 <= n,
    ensures
        0 <= position_of(list, r, g, b, n) <= n,
    decreases n,
{
    if n > 0 {
        lemma_position_range(list, r, g, b, n - 1);
    }
}

/// There are no more colours than pixels, and each colour counted occurs at least once.
pub proof fn lemma_counted_len(rgba: Seq<u8>, n: int)
    requires
        0 <= n <= usize::MAX,
    ensures
        counted(rgba, n).len() <= n,
        forall|j: int| 0 <= j < counted(rgba, n).len() ==> 1 <= (#[trigger] counted(rgba, n)[j]).count <= n,
    decreases n,
{
    if n > 0 {
        lemma_counted_len(rgba, n - 1);
        let list = counted(rgba, n - 1);
        lemma_position_range(
            list,
            rgba[4 * (n - 1)],
            rgba[4 * (n - 1) + 1],
            rgba[4 * (n - 1) + 2],
            list.len() as int,
        );
        assert forall|j: int| 0 <= j < counted(rgba, n).len() implies 1 <= (#[trigger] counted(
            rgba,
            n,
        )[j]).count <= n by {
            let at = position_of(
                list,
                rgba[4 * (n - 1)],
                rgba[4 * (n - 1) + 1],
                rgba[4 * (n - 1) + 2],
                list.len() as int,
            );
            if j < list.len() {
                assert(1 <= list[j].count <= n - 1);
                if j == at {
                    assert(counted(rgba, n)[j].count == list[j].count + 1);
                } else if at < list.len() {
                    assert(counted(rgba, n)[j] == list[j]);
                } else {
                    assert(counted(rgba, n)[j] == list[j]);
                }
            }
        }
    }
}

/// A colour as one number: red, green and blue, eight bits each.
pub open spec fn packed(r: u8, g: u8, b: u8) -> u32 {
    (r as int * 65536 + g as int * 256 + b as int) as u32
}

/// The colour of a counted entry as one number.
pub open spec fn packed_entry(c: ColourCount) -> u32 {
    packed(c.r, c.g, c.b)
}

/// A colour as one number.
pub fn pack(r: u8, g: u8, b: u8) -> (k: u32)
    ensures
        k == packed(r, g, b),
{
    r as u32 * 65536 + g as u32 * 256 + b as u32
}

/// `places` says of every colour in `list`, and of no other, where it stands.
pub open spec fn places_of(places: Map<u32, usize>, list: Seq<ColourCount>) -> bool {
    &&& forall|k: u32| #[trigger]
        places.contains_key(k) ==> places[k] < list.len() && packed_entry(list[places[k] as int])
            == k
    &&& forall|i: int|
        0 <= i < list.len() ==> places.contains_key(packed_entry(#[trigger] list[i])) && places[packed_entry(
            list[i],
        )] == i
}

/// A colour that none of the first `n` entries has stands at place `n`.
pub proof fn lemma_position_absent(list: Seq<ColourCount>, r: u8, g: u8, b: u8, n: int)
    requires
        0 <= n <= list.len(),
        forall|i: int| 0 <= i < n ==> packed_entry(#[trigger] list[i]) != packed(r, g, b),
    ensures
        position_of(list, r, g, b, n) == n,
    decreases n,
{
    if n > 0 {
        lemma_position_absent(list, r, g, b, n - 1);
        assert(packed_entry(list[n - 1]) != packed(r, g, b));
    }
}

/// A colour stands where the first entry that has it stands.
pub proof fn lemma_position_found(list: Seq<ColourCount>, r: u8, g: u8, b: u8, at: int, n: int)
    requires
        0 <= at < n <= list.len(),
        packed_entry(list[at]) == packed(r, g, b),
        forall|i: int| 0 <= i < at ==> packed_entry(#[trigger] list[i]) != packed(r, g, b),
    ensures
        position_of(list, r, g, b, n) == at,
    decreases n,
{
    if n - 1 == at {
        lemma_position_absent(list, r, g, b, at);
    } else {
        lemma_position_found(list, r, g, b, at, n - 1);
    }
}

/// The colours of an image in the order in which they first occur, each with
/// the number of its occurrences.
pub fn count_colours(rgba: &Vec<u8>, pixels: usize) -> (list: Vec<ColourCount>)
    requires
        rgba.len() == pixels * 4,
    ensures
        list@ == counted(rgba@, pixels as int),
{
    let mut list: Vec<ColourCount> = Vec::new();
    let mut places: HashMap<u32, usize> = HashMap::new();
    let mut n: usize = 0;
    while n < pixels
        invariant
            0 <= n <= pixels,
            rgba.len() == pixels * 4,
            list@ == counted(rgba@, n as int),
            places_of(places@, list@),
        decreases pixels - n,
    {
        proof {
            lemma_counted_len(rgba@, n as int);
        }
        let r = rgba[4 * n];
        let g = rgba[4 * n + 1];
        let b = rgba[4 * n + 2];
        let key = pack(r, g, b);
        let found: Option<usize> = match places.get(&key) {
            Some(at) => Some(*at),
            None => None,
        };
        let ghost before = list@;
        match found {
            Some(at) => {
                proof {
                    assert forall|i: int| 0 <= i < at implies packed_entry(#[trigger] before[i])
                        != key by {
                        if packed_entry(before[i]) == key {
                            assert(places@[key] == i);
                        }
                    }
                    lemma_position_found(before, r, g, b, at as int, before.len() as int);
                }
                let held = list[at];
                list.set(at, ColourCount { r: held.r, g: held.g, b: held.b, count: held.count + 1 });
                proof {
                    assert forall|i: int| 0 <= i < list.len() implies packed_entry(
                        #[trigger] list@[i],
                    ) == packed_entry(before[i]) by {}
                    assert(places_of(places@, list@)) by {
                        assert forall|k: u32| #[trigger] places@.contains_key(k) implies places@[k]
                            < list.len() && packed_entry(list@[places@[k] as int]) == k by {
                            assert(packed_entry(before[places@[k] as int]) == k);
                        }
                        assert forall|i: int| 0 <= i < list.len() implies places@.contains_key(
                            packed_entry(#[trigger] list@[i]),
                        ) && places@[packed_entry(list@[i])] == i by {
                            assert(places@.contains_key(packed_entry(before[i])));
                        }
                    }
                }
            },
            None => {
                proof {
                    assert forall|i: int| 0 <= i < before.len() implies packed_entry(
                        #[trigger] before[i],
                    ) != key by {
                        if packed_entry(before[i]) == key {
                            assert(places@.contains_key(packed_entry(before[i])));
                        }
                    }
                    lemma_position_absent(before, r, g, b, before.len() as int);
                }
                let ghost held = places@;
                places.insert(key, list.len());
                list.push(ColourCount { r, g, b, count: 1 });
                proof {
                    assert(places_of(places@, list@)) by {
                        assert forall|k: u32| #[trigger] places@.contains_key(k) implies places@[k]
                            < list.len() && packed_entry(list@[places@[k] as int]) == k by {
                            if k != key {
                                assert(held.contains_key(k));
                                assert(packed_entry(before[held[k] as int]) == k);
                            }
                        }
                        assert forall|i: int| 0 <= i < list.len() implies places@.contains_key(
                            packed_entry(#[trigger] list@[i]),
                        ) && places@[packed_entry(list@[i])] == i by {
                            if i < before.len() {
                                assert(held.contains_key(packed_entry(before[i])));
                            }
                        }
                    }
                }
            },
        }
        n = n + 1;
    }
    list
}

/// The slot of an item lies within the list, its end included.
pub proof fn lemma_slot_range(sorted: Seq<ColourCount>, count: usize, n: int)
    requires
        0 <= n,
    ensures
        0 <= slot_for(sorted, count, n) <= n,
    decreases n,
{
    if n > 0 {
        lemma_slot_range(sorted, count, n - 1);
    }
}

/// A slot found among the first `m` stays where it is among more.
pub proof fn lemma_slot_stays(sorted: Seq<ColourCount>, count: usize, m: int, n: int)
    requires
        0 <= m <= n,
        slot_for(sorted, count, m) < m,
    ensures
        slot_for(sorted, count, n) == slot_for(sorted, count, m),
    decreases n - m,
{
    if m < n {
        lemma_slot_stays(sorted, count, m, n - 1);
    }
}

/// Ordering keeps every colour.
pub proof fn lemma_by_frequency_len(list: Seq<ColourCount>, n: int)
    requires
        0 <= n,
    ensures
        by_frequency(list, n).len() == n,
    decreases n,
{
    if n > 0 {
        lemma_by_frequency_len(list, n - 1);
        lemma_slot_range(by_frequency(list, n - 1), list[n - 1].count, n - 1);
    }
}

/// Orders colours from frequent to rare; equally frequent ones keep their order.
pub fn sort_by_frequency(list: &Vec<ColourCount>) -> (sorted: Vec<ColourCount>)
    ensures
        sorted@ == by_frequency(list@, list.len() as int),
        sorted.len() == list.len(),
{
    let mut sorted: Vec<ColourCount> = Vec::new();
    let mut n: usize = 0;
    while n < list.len()
        invariant
            0 <= n <= list.len(),
            sorted@ == by_frequency(list@, n as int),
            sorted.len() == n,
        decreases list.len() - n,
    {
        let item = list[n];
        let mut slot: usize = 0;
        while slot < sorted.len() && sorted[slot].count >= item.count
            invariant
                0 <= slot <= sorted.len(),
                slot_for(sorted@, item.count, slot as int) == slot,
            decreases sorted.len() - slot,
        {
            slot = slot + 1;
        }
        proof {
            if slot < sorted.len() {
                lemma_slot_stays(sorted@, item.count, slot + 1, sorted.len() as int);
            }
        }
        sorted.insert(slot, item);
        n = n + 1;
    }
    sorted
}

/// Among the colours of a palette the one nearest to `rgb`.
pub fn find_nearest_palette_index(rgb: (u8, u8, u8), palette: &Vec<ColourCount>) -> (best: u8)
    requires
        palette.len() <= 256,
    ensures
        best == nearest_rgb(palette@, rgb.0, rgb.1, rgb.2, palette.len() as int),
        palette.len() > 0 ==> best < palette.len(),
{
    let mut best: usize = 0;
    let mut min_dist: u32 = u32::MAX;
    let mut n: usize = 0;
    while n < palette.len()
        invariant
            0 <= n <= palette.len() <= 256,
            best == nearest_rgb(palette@, rgb.0, rgb.1, rgb.2, n as int),
            n > 0 ==> best < n && min_dist == rgb_dist2(palette[best as int], rgb.0, rgb.1, rgb.2),
            n == 0 ==> best == 0 && min_dist == u32::MAX,
        decreases palette.len() - n,
    {
        let c = palette[n];
        let dr = c.r as i32 - rgb.0 as i32;
        let dg = c.g as i32 - rgb.1 as i32;
        let db = c.b as i32 - rgb.2 as i32;
        assert(0 <= dr * dr <= 65025 && 0 <= dg * dg <= 65025 && 0 <= db * db <= 65025)
            by (nonlinear_arith)
            requires
                -255 <= dr <= 255,
                -255 <= dg <= 255,
                -255 <= db <= 255,
        ;
        let dist = (dr * dr + dg * dg + db * db) as u32;
        if dist < min_dist {
            min_dist = dist;
            best = n;
        }
        n = n + 1;
    }
    best as u8
}

/// Quantizes an image to its `max_colors` most frequent colours.  A pixel of
/// a colour that was not kept gets the nearest colour that was.
pub fn median_cut_quantize(rgba: &Vec<u8>, pixels: usize, max_colors: usize) -> (out: (
    Vec<u8>,
    Vec<u8>,
))
    requires
        rgba.len() == pixels * 4,
        1 <= max_colors <= 256,
    ensures
        out.0@ == frequent_table(rgba@, pixels as int, max_colors as int),
        out.1@ == frequent_indices(rgba@, pixels as int, max_colors as int),
{
    let all = count_colours(rgba, pixels);
    let mut kept = sort_by_frequency(&all);
    if kept.len() > max_colors {
        kept.truncate(max_colors);
    }
    assert(kept@ =~= most_frequent(rgba@, pixels as int, max_colors as int));
    let mut palette: Vec<u8> = Vec::new();
    let mut i: usize = 0;
    while i < max_colors
        invariant
            0 <= i <= max_colors <= 256,
            kept.len() <= max_colors,
            palette.len() == 3 * i,
            forall|j: int|
                0 <= j < 3 * i ==> (#[trigger] palette[j]) == frequent_table(
                    rgba@,
                    pixels as int,
                    max_colors as int,
                )[j],
            kept@ == most_frequent(rgba@, pixels as int, max_colors as int),
        decreases max_colors - i,
    {
        if i < kept.len() {
            let c = kept[i];
            palette.push(c.r);
            palette.push(c.g);
            palette.push(c.b);
        } else {
            palette.push(0);
            palette.push(0);
            palette.push(0);
        }
        i = i + 1;
    }
    assert(palette@ =~= frequent_table(rgba@, pixels as int, max_colors as int));
    let mut indices: Vec<u8> = Vec::new();
    let mut p: usize = 0;
    while p < pixels
        invariant
            0 <= p <= pixels,
            rgba.len() == pixels * 4,
            kept.len() <= 256,
            kept@ == most_frequent(rgba@, pixels as int, max_colors as int),
            indices.len() == p,
            forall|q: int|
                0 <= q < p ==> (#[trigger] indices[q]) == frequent_indices(
                    rgba@,
                    pixels as int,
                    max_colors as int,
                )[q],
        decreases pixels - p,
    {
        let r = rgba[4 * p];
        let g = rgba[4 * p + 1];
        let b = rgba[4 * p + 2];
        let at = find_colour(&kept, r, g, b);
        let index = if at < kept.len() {
            at as u8
        } else {
            find_nearest_palette_index((r, g, b), &kept)
        };
        indices.push(index);
        p = p + 1;
    }
    assert(indices@ =~= frequent_indices(rgba@, pixels as int, max_colors as int));
    (palette, indices)
}

} // verus!
