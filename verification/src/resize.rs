//! Reduction of a captured frame with a Lanczos filter: 729 by 729 pixels
//! down to 81 by 81.  The filter is that of the `image` crate.

use crate::lct::{strip_alpha, without_alpha, GifError};
use vstd::prelude::*;

verus! {

/// Bytes of an RGBA frame of 729 by 729 pixels.
pub const RGBA_729_BYTES: usize = 2125764;

/// Bytes of an RGB frame of 729 by 729 pixels.
pub const RGB_729_BYTES: usize = 1594323;

/// `image::imageops::resize` with `FilterType::Lanczos3`, from an RGBA image
/// of 729 by 729 pixels to one of 81 by 81.  Claimed: a buffer that holds
/// such an image is taken, and what comes back has 81 * 81 * 4 bytes.  What
/// the bytes are is left open, and is given no name either: the filter's
/// kernel takes sines of floating-point numbers, whose last bits the standard
/// library leaves to the platform, so two machines need not agree on a byte.
#[verifier::external_body]
fn lanczos3_729_to_81(rgba_729: Vec<u8>) -> (r: Option<Vec<u8>>)
    ensures
        rgba_729.len() >= 2125764 ==> r is Some,
        r matches Some(out) ==> out.len() == 26244,
{
    let img = image::ImageBuffer::<image::Rgba<u8>, Vec<u8>>::from_raw(729, 729, rgba_729)?;
    Some(image::imageops::resize(&img, 81, 81, image::imageops::FilterType::Lanczos3).into_raw())
}

/// Reduces an RGBA frame of 729 by 729 pixels to 81 by 81.  A buffer of
/// another size is refused.
pub fn m2_downsize_rgba_729_to_81(rgba_729: Vec<u8>) -> (r: Result<Vec<u8>, GifError>)
    ensures
        rgba_729.len() != 2125764 ==> r == Err::<Vec<u8>, GifError>(
            GifError::InvalidDimensions { expected: 2125764, actual: rgba_729.len() },
        ),
        rgba_729.len() == 2125764 ==> (r matches Ok(out) && out.len() == 26244),
{
    if rgba_729.len() != RGBA_729_BYTES {
        return Err(GifError::InvalidDimensions { expected: 2125764, actual: rgba_729.len() });
    }
    match lanczos3_729_to_81(rgba_729) {
        Some(out) => Ok(out),
        None => Err(GifError::EncodingError("Failed to create image buffer".to_owned())),
    }
}

/// An RGB buffer with an alpha of 255 behind every pixel.
pub open spec fn with_alpha(rgb: Seq<u8>) -> Seq<u8> {
    Seq::new(
        (rgb.len() / 3 * 4) as nat,
        |i: int|
            if i % 4 == 3 {
                255u8
            } else {
                rgb[i / 4 * 3 + i % 4]
            },
    )
}

/// Puts an alpha of 255 behind every pixel.
pub fn add_alpha(rgb: &Vec<u8>) -> (rgba: Vec<u8>)
    requires
        rgb.len() <= 0x3FFF_FFFF,
    ensures
        rgba@ == with_alpha(rgb@),
        rgba.len() == rgb.len() / 3 * 4,
{
    let pixels = rgb.len() / 3;
    let mut rgba: Vec<u8> = Vec::new();
    let mut i: usize = 0;
    while i < pixels
        invariant
            0 <= i <= pixels,
            pixels == rgb.len() / 3,
            rgba.len() == 4 * i,
            forall|j: int| 0 <= j < 4 * i ==> (#[trigger] rgba[j]) == with_alpha(rgb@)[j],
        decreases pixels - i,
    {
        rgba.push(rgb[3 * i]);
        rgba.push(rgb[3 * i + 1]);
        rgba.push(rgb[3 * i + 2]);
        rgba.push(255);
        i = i + 1;
    }
    assert(rgba@ =~= with_alpha(rgb@));
    rgba
}

/// Reduces an RGB frame of 729 by 729 pixels to 81 by 81: the frame is
/// given an opaque alpha, reduced as RGBA, and the alpha dropped again.  A
/// buffer of another size is refused.
pub fn m2_downsize_rgb_729_to_81(rgb_729: Vec<u8>) -> (r: Result<Vec<u8>, GifError>)
    ensures
        rgb_729.len() != 1594323 ==> r == Err::<Vec<u8>, GifError>(
            GifError::InvalidDimensions { expected: 1594323, actual: rgb_729.len() },
        ),
        rgb_729.len() == 1594323 ==> (r matches Ok(out) && out.len() == 19683),
{
    if rgb_729.len() != RGB_729_BYTES {
        return Err(GifError::InvalidDimensions { expected: 1594323, actual: rgb_729.len() });
    }
    let rgba_729 = add_alpha(&rgb_729);
    match m2_downsize_rgba_729_to_81(rgba_729) {
        Ok(rgba_81) => {
            let rgb_81 = strip_alpha(&rgba_81);
            assert(without_alpha(rgba_81@).len() == 19683);
            Ok(rgb_81)
        },
        Err(e) => Err(e),
    }
}

} // verus!
