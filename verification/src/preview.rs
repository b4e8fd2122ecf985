//! Visible markers for checking by eye that a frame arrives as it was taken:
//! a white border, a red crosshair in the middle, and three coloured squares.

use vstd::prelude::*;

verus! {

/// Whether (`x`, `y`) lies in the square whose top left corner is (`x0`, `y0`).
pub open spec fn in_square(x: int, y: int, x0: int, y0: int) -> bool {
    x0 <= x < x0 + 30 && y0 <= y < y0 + 30
}

/// Whether (`x`, `y`) lies on the crosshair of a frame of `w` by `h`.
pub open spec fn on_crosshair(x: int, y: int, w: int, h: int) -> bool {
    ||| y == h / 2 && w / 2 - 19 <= x <= w / 2 + 19
    ||| x == w / 2 && h / 2 - 19 <= y <= h / 2 + 19
}

/// Whether (`x`, `y`) lies on the outermost ring of pixels.
pub open spec fn on_border(x: int, y: int, w: int, h: int) -> bool {
    x == 0 || x == w - 1 || y == 0 || y == h - 1
}

/// The colour that the markers give pixel (`x`, `y`), if any.  What is drawn
/// later covers what was drawn before: the border first, then the crosshair,
/// then the red, the green and the blue square.
pub open spec fn marker_at(x: int, y: int, w: int, h: int) -> Option<(u8, u8, u8)> {
    if in_square(x, y, 50, h - 80) {
        Some((0u8, 0u8, 255u8))
    } else if in_square(x, y, w - 80, 50) {
        Some((0u8, 255u8, 0u8))
    } else if in_square(x, y, 50, 50) {
        Some((255u8, 0u8, 0u8))
    } else if on_crosshair(x, y, w, h) {
        Some((255u8, 0u8, 0u8))
    } else if on_border(x, y, w, h) {
        Some((255u8, 255u8, 255u8))
    } else {
        None
    }
}

/// Byte `i` of the marked frame.
pub open spec fn patched_byte(rgba: Seq<u8>, w: int, h: int, i: int) -> u8 {
    match marker_at((i / 4) % w, (i / 4) / w, w, h) {
        Some(c) => if i % 4 == 0 {
            c.0
        } else if i % 4 == 1 {
            c.1
        } else if i % 4 == 2 {
            c.2
        } else {
            255u8
        },
        None => rgba[i],
    }
}

/// The frame with its markers.  A buffer that is not `w` by `h` RGBA pixels,
/// or an empty frame, stays as it is.
pub open spec fn preview_patched(rgba: Seq<u8>, w: int, h: int) -> Seq<u8> {
    if rgba.len() != w * h * 4 || w == 0 || h == 0 {
        rgba
    } else {
        Seq::new(rgba.len(), |i: int| patched_byte(rgba, w, h, i))
    }
}

/// The colour that the markers give pixel (`x`, `y`), if any.
pub fn marker_color(x: u64, y: u64, w: u64, h: u64) -> (c: Option<(u8, u8, u8)>)
    requires
        x < w <= 0xFFFF_FFFF,
        y < h <= 0xFFFF_FFFF,
    ensures
        c == marker_at(x as int, y as int, w as int, h as int),
{
    let in_cols = 50 <= x && x < 80;
    let in_rows = 50 <= y && y < 80;
    let cx = w / 2;
    let cy = h / 2;
    if in_cols && y + 80 >= h && y + 50 < h {
        Some((0, 0, 255))
    } else if x + 80 >= w && x + 50 < w && in_rows {
        Some((0, 255, 0))
    } else if in_cols && in_rows {
        Some((255, 0, 0))
    } else if (y == cy && x + 19 >= cx && x <= cx + 19) || (x == cx && y + 19 >= cy && y <= cy
        + 19) {
        Some((255, 0, 0))
    } else if x == 0 || x == w - 1 || y == 0 || y == h - 1 {
        Some((255, 255, 255))
    } else {
        None
    }
}

/// Draws the markers into a frame of `w` by `h` RGBA pixels and returns it.
pub fn m1_preview_patch(rgba: Vec<u8>, w: u32, h: u32) -> (out: Vec<u8>)
    ensures
        out@ == preview_patched(rgba@, w as int, h as int),
{
    assert(w as int * h as int <= 0xFFFF_FFFF * 0xFFFF_FFFF) by (nonlinear_arith)
        requires
            0 <= w <= 0xFFFF_FFFF,
            0 <= h <= 0xFFFF_FFFF,
    ;
    let expected: u128 = w as u128 * h as u128 * 4;
    if rgba.len() as u128 != expected || w == 0 || h == 0 {
        return rgba;
    }
    let ghost orig = rgba@;
    let ghost wi = w as int;
    let ghost hi = h as int;
    let mut rgba = rgba;
    let pixels = rgba.len() / 4;
    let width = w as usize;
    assert(pixels == wi * hi);
    let mut k: usize = 0;
    while k < pixels
        invariant
            0 <= k <= pixels,
            pixels == wi * hi,
            wi == w as int,
            hi == h as int,
            width == w,
            w > 0,
            h > 0,
            orig.len() == wi * hi * 4,
            rgba.len() == orig.len(),
            forall|i: int|
                0 <= i < rgba.len() ==> rgba[i] == if i / 4 < k {
                    patched_byte(orig, wi, hi, i)
                } else {
                    #[trigger] orig[i]
                },
        decreases pixels - k,
    {
        let x = k % width;
        let y = k / width;
        proof {
            assert(y < hi) by (nonlinear_arith)
                requires
                    y == k as int / wi,
                    k < wi * hi,
                    wi > 0,
            ;
        }
        match marker_color(x as u64, y as u64, w as u64, h as u64) {
            Some((r, g, b)) => {
                rgba.set(4 * k, r);
                rgba.set(4 * k + 1, g);
                rgba.set(4 * k + 2, b);
                rgba.set(4 * k + 3, 255);
            },
            None => {},
        }
        k = k + 1;
    }
    assert(rgba@ =~= preview_patched(orig, wi, hi));
    rgba
}

} // verus!
