//! The cube: 81 frames of 81 by 81 pixels, and what the quantizer hands to
//! the encoder.

use crate::error::GifPipeError;
use vstd::prelude::*;

verus! {

/// Side of a captured frame before reduction.
pub const FRAME_SIZE_729: u16 = 729;

/// Side of a frame of the cube.
pub const FRAME_SIZE_81: u16 = 81;

/// Most entries a palette can have.
pub const PALETTE_SIZE: u16 = 256;

/// Frames in a cube.
pub const EXPECTED_FRAME_COUNT: u16 = 81;

/// Pixels in one frame of the cube.
pub const FRAME_PIXELS: usize = 6561;

/// Bytes in one RGBA frame of the cube.
pub const FRAME_RGBA_BYTES: usize = 26244;

/// Most bytes a palette can have.
pub const MAX_PALETTE_BYTES: usize = 768;

/// One million: fixed-point values count millionths.
pub const MILLION: u32 = 1000000;

/// The frames of a cube as plain sequences.
pub open spec fn planes(frames: Seq<Vec<u8>>) -> Seq<Seq<u8>> {
    Seq::new(frames.len(), |f: int| frames[f]@)
}

/// A palette byte count that stands for one to 256 whole entries.
pub open spec fn palette_len_ok(len: int) -> bool {
    0 < len <= 768 && len % 3 == 0
}

/// Every frame up to `upto` has `size` elements.
pub open spec fn sizes_ok(frames: Seq<Seq<u8>>, size: int, upto: int) -> bool {
    forall|f: int| 0 <= f < upto ==> (#[trigger] frames[f]).len() == size
}

/// Pixel `p` of frame `f` names a palette entry that exists.
pub open spec fn index_ok(frames: Seq<Seq<u8>>, entries: int, f: int, p: int) -> bool {
    (frames[f][p] as int) < entries
}

/// Every pixel that comes before pixel `p` of frame `f`, frame by frame and
/// row by row, names a palette entry that exists.
pub open spec fn indices_ok_before(frames: Seq<Seq<u8>>, entries: int, f: int, p: int) -> bool {
    forall|g: int, q: int|
        0 <= g < frames.len() && 0 <= q < frames[g].len() && (g < f || (g == f && q < p))
            ==> #[trigger] index_ok(frames, entries, g, q)
}

/// Every pixel of every frame names a palette entry that exists.
pub open spec fn indices_ok(frames: Seq<Seq<u8>>, entries: int) -> bool {
    indices_ok_before(frames, entries, frames.len() as int, 0)
}

/// What a quantized cube must satisfy for the encoder to take it.
pub open spec fn encodable(palette: Seq<u8>, frames: Seq<Seq<u8>>) -> bool {
    &&& frames.len() == 81
    &&& palette_len_ok(palette.len() as int)
    &&& sizes_ok(frames, 6561, 81)
    &&& indices_ok(frames, palette.len() as int / 3)
}

/// The one error that a cube which is not encodable is refused with.  The
/// checks come in this order: the number of frames, the size of the palette,
/// the size of each frame, each index; of several faults of one kind the first
/// is the one reported.
pub open spec fn rejected_with(palette: Seq<u8>, frames: Seq<Seq<u8>>, e: GifPipeError) -> bool {
    match e {
        GifPipeError::InvalidFrameCount { expected, actual } => {
            &&& frames.len() != 81
            &&& expected == 81
            &&& actual == frames.len()
        },
        GifPipeError::InvalidPaletteSize { actual } => {
            &&& frames.len() == 81
            &&& !palette_len_ok(palette.len() as int)
            &&& actual == palette.len()
        },
        GifPipeError::InvalidFrameSize { index, expected, actual } => {
            &&& frames.len() == 81
            &&& palette_len_ok(palette.len() as int)
            &&& index < 81
            &&& sizes_ok(frames, 6561, index as int)
            &&& frames[index as int].len() != 6561
            &&& expected == 6561
            &&& actual == frames[index as int].len()
        },
        GifPipeError::InvalidIndex { frame, pixel, index, palette_entries } => {
            &&& frames.len() == 81
            &&& palette_len_ok(palette.len() as int)
            &&& sizes_ok(frames, 6561, 81)
            &&& frame < 81
            &&& pixel < 6561
            &&& indices_ok_before(frames, palette.len() as int / 3, frame as int, pixel as int)
            &&& !index_ok(frames, palette.len() as int / 3, frame as int, pixel as int)
            &&& index == frames[frame as int][pixel as int]
            &&& palette_entries == palette.len() / 3
        },
        _ => false,
    }
}

/// A cube is refused with one error at most, and an encodable cube with none.
pub proof fn lemma_rejection_is_unique(
    palette: Seq<u8>,
    frames: Seq<Seq<u8>>,
    e1: GifPipeError,
    e2: GifPipeError,
)
    requires
        rejected_with(palette, frames, e1),
    ensures
        !encodable(palette, frames),
        rejected_with(palette, frames, e2) ==> e1 == e2,
{
    let entries = palette.len() as int / 3;
    match e1 {
        GifPipeError::InvalidFrameSize { index, expected, actual } => {
            assert(!sizes_ok(frames, 6561, 81)) by {
                if sizes_ok(frames, 6561, 81) {
                    assert(frames[index as int].len() == 6561);
                }
            }
            match e2 {
                GifPipeError::InvalidFrameSize { index: index2, expected: x2, actual: a2 } => {
                    if rejected_with(palette, frames, e2) {
                        if index < index2 {
                            assert(frames[index as int].len() == 6561);
                        } else if index2 < index {
                            assert(frames[index2 as int].len() == 6561);
                        }
                    }
                },
                _ => {},
            }
        },
        GifPipeError::InvalidIndex { frame, pixel, index, palette_entries } => {
            assert(frames[frame as int].len() == 6561);
            if indices_ok(frames, entries) {
                assert(index_ok(frames, entries, frame as int, pixel as int));
            }
            match e2 {
                GifPipeError::InvalidIndex {
                    frame: frame2,
                    pixel: pixel2,
                    index: i2,
                    palette_entries: n2,
                } => {
                    if rejected_with(palette, frames, e2) {
                        assert(frames[frame2 as int].len() == 6561);
                        if frame < frame2 || (frame == frame2 && pixel < pixel2) {
                            assert(index_ok(frames, entries, frame as int, pixel as int));
                        } else if frame2 < frame || (frame == frame2 && pixel2 < pixel) {
                            assert(index_ok(frames, entries, frame2 as int, pixel2 as int));
                        }
                    }
                },
                GifPipeError::InvalidFrameSize { index: index2, expected: x2, actual: a2 } => {
                    if rejected_with(palette, frames, e2) {
                        assert(frames[index2 as int].len() == 6561);
                    }
                },
                _ => {},
            }
        },
        _ => {},
    }
}

/// The result of quantization: one palette for all frames, one index plane
/// per frame, and the measurements taken on the way.
///
/// The three measurements are fixed-point numbers that count millionths:
/// a stability of 1.0 is stored as 1000000.
#[derive(Debug)]
pub struct QuantizedCubeData {
    pub width: u16,
    pub height: u16,
    /// Three bytes per entry, unpadded.
    pub global_palette_rgb: Vec<u8>,
    /// One plane of 6561 palette indices per frame.
    pub indexed_frames: Vec<Vec<u8>>,
    /// Delay of each frame in hundredths of a second.
    pub delays_cs: Vec<u8>,
    /// Mean similarity of the index histograms of consecutive frames.
    pub palette_stability: u32,
    /// Mean perceptual distance between a pixel and its palette entry.
    pub mean_delta_e: u32,
    /// The distance that 95 pixels in a hundred do not exceed.
    pub p95_delta_e: u32,
}

impl QuantizedCubeData {
    /// The index planes as plain sequences.
    pub open spec fn planes(&self) -> Seq<Seq<u8>> {
        planes(self.indexed_frames@)
    }

    /// Number of palette entries.
    pub open spec fn entries(&self) -> int {
        self.global_palette_rgb@.len() as int / 3
    }

    /// What the quantizer promises of every cube it returns.
    pub open spec fn wf(&self) -> bool {
        &&& self.width == 81
        &&& self.height == 81
        &&& encodable(self.global_palette_rgb@, self.planes())
        &&& self.delays_cs@.len() == 81
        &&& self.palette_stability <= 1000000
    }
}

} // verus!
