//! The calls that a host makes: encode a quantized cube and learn what came
//! out, or be told that the one-call entry point has been retired.

use crate::cube::{encodable, planes, rejected_with, sizes_ok, QuantizedCubeData};
use crate::mapping::index_planes;
use crate::quantizer::{m2_quantize_for_cube, OklabQuantizer};
use crate::encoder::Gif89aEncoder;
use crate::error::{GifPipeError, ProcessingError};
use crate::stream::gif_stream;
use vstd::prelude::*;

verus! {

/// Bytes of the 81 frames of a cube as RGB: 81 * 6561 * 3.
pub const CUBE_RGB_BYTES: u64 = 1594323;

/// An encoded animation and what is known of it.
#[derive(Debug)]
pub struct GifInfo {
    /// Where the stream was stored; empty as long as it has not been.
    pub file_path: String,
    pub file_size_bytes: u64,
    pub frame_count: u32,
    pub palette_size: u32,
    pub has_netscape_loop: bool,
    /// Bytes of the frames as RGB per byte of the stream, in millionths.
    pub compression_ratio: u64,
    pub validation_passed: bool,
    /// Time spent encoding; for the caller to fill in.
    pub processing_time_ms: u64,
    /// Time spent on the whole run; for the caller to fill in.
    pub total_processing_ms: u64,
    pub gif_data: Vec<u8>,
}

/// The RGB bytes of a cube per byte of a stream of `compressed_size` bytes,
/// in millionths.
pub open spec fn compression_ratio(compressed_size: int) -> int {
    1594323000000int / compressed_size
}

/// The RGB bytes of a cube per byte of a stream of `compressed_size` bytes,
/// in millionths.
pub fn calculate_compression_ratio(compressed_size: usize) -> (ratio: u64)
    requires
        compressed_size > 0,
    ensures
        ratio == compression_ratio(compressed_size as int),
{
    CUBE_RGB_BYTES * 1000000 / (compressed_size as u64)
}

/// Encodes a cube, every frame shown for `fps_cs` hundredths of a second, and
/// says what came out.  A cube that the encoder refuses is refused here with
/// the same error.
pub fn m3_write_gif_from_cube(cube: QuantizedCubeData, fps_cs: u8, loop_forever: bool) -> (r:
    Result<GifInfo, GifPipeError>)
    ensures
        match r {
            Ok(info) => {
                &&& encodable(cube.global_palette_rgb@, cube.planes())
                &&& info.gif_data@ == gif_stream(
                    cube.global_palette_rgb@,
                    cube.planes(),
                    fps_cs as int,
                    loop_forever,
                )
                &&& info.file_path@.len() == 0
                &&& info.file_size_bytes == info.gif_data@.len()
                &&& info.frame_count == 81
                &&& info.palette_size == cube.entries()
                &&& info.has_netscape_loop == loop_forever
                &&& info.compression_ratio == compression_ratio(info.gif_data@.len() as int)
                &&& info.validation_passed
                &&& info.processing_time_ms == 0
                &&& info.total_processing_ms == 0
            },
            Err(e) => rejected_with(cube.global_palette_rgb@, cube.planes(), e),
        },
{
    let encoder = Gif89aEncoder::new();
    let gif_data = encoder.encode_from_cube_data(&cube, fps_cs, loop_forever)?;
    let size = gif_data.len();
    Ok(
        GifInfo {
            file_path: String::new(),
            file_size_bytes: size as u64,
            frame_count: 81,
            palette_size: (cube.global_palette_rgb.len() / 3) as u32,
            has_netscape_loop: loop_forever,
            compression_ratio: calculate_compression_ratio(size),
            validation_passed: true,
            processing_time_ms: 0,
            total_processing_ms: 0,
            gif_data,
        },
    )
}

/// The stream that the whole pipeline makes of a cube of RGBA frames: the
/// frames quantized by the standard quantizer, shown for 4 hundredths of a
/// second each, looping.
pub open spec fn pipeline_stream(frames: Seq<Seq<u8>>) -> Seq<u8> {
    gif_stream(
        OklabQuantizer::standard(256).palette(frames),
        index_planes(frames, OklabQuantizer::standard(256).palette_colours(frames), 81),
        4,
        true,
    )
}

/// Quantizes a cube of 81 RGBA frames and encodes it, in one call.
///
/// What the quantizer refuses is refused here, as a failure of the second
/// stage; what it returns the encoder always takes.
pub fn process_frames_internal(frames_81_rgba: Vec<Vec<u8>>) -> (r: Result<
    GifInfo,
    ProcessingError,
>)
    ensures
        match r {
            Ok(info) => {
                &&& frames_81_rgba.len() == 81
                &&& sizes_ok(planes(frames_81_rgba@), 26244, 81)
                &&& info.gif_data@ == pipeline_stream(planes(frames_81_rgba@))
                &&& info.frame_count == 81
                &&& info.has_netscape_loop
                &&& info.validation_passed
                &&& info.file_size_bytes == info.gif_data@.len()
                &&& info.compression_ratio == compression_ratio(info.gif_data@.len() as int)
            },
            Err(ProcessingError::ProcessingFailed { message }) => {
                &&& message@ == "M2 quantization failed"@
                &&& exists|e: GifPipeError|
                    #[trigger] OklabQuantizer::standard(256).refuses(planes(frames_81_rgba@), e)
            },
            Err(_) => false,
        },
{
    let cube = match m2_quantize_for_cube(frames_81_rgba) {
        Ok(cube) => cube,
        Err(e) => {
            assert(OklabQuantizer::standard(256).refuses(planes(frames_81_rgba@), e));
            return Err(
                ProcessingError::ProcessingFailed { message: "M2 quantization failed".to_owned() },
            );
        },
    };
    let ghost palette = cube.global_palette_rgb@;
    let ghost indexed = cube.planes();
    match m3_write_gif_from_cube(cube, 4, true) {
        Ok(info) => Ok(info),
        Err(e) => {
            proof {
                crate::cube::lemma_rejection_is_unique(palette, indexed, e, e);
            }
            Err(ProcessingError::ProcessingFailed { message: "M3 GIF encoding failed".to_owned() })
        },
    }
}

/// The retired one-call entry point.  It does nothing but say so.
pub fn process_gif_frames(_frames_bytes: Vec<u8>, _session_id: String) -> (r: Result<
    Vec<u8>,
    ProcessingError,
>)
    ensures
        r matches Err(ProcessingError::ProcessingFailed { message }) && message@
            == "Legacy API deprecated - use m2_quantize_for_cube + m3_write_gif_from_cube"@,
{
    Err(
        ProcessingError::ProcessingFailed {
            message: "Legacy API deprecated - use m2_quantize_for_cube + m3_write_gif_from_cube".to_owned(),
        },
    )
}

/// The retired metrics call: a fixed JSON text that says so.
pub fn get_pipeline_metrics() -> (text: String)
    ensures
        text@
            == "{\"status\": \"deprecated\", \"message\": \"Use structured logging with session IDs instead\"}"@,
{
    "{\"status\": \"deprecated\", \"message\": \"Use structured logging with session IDs instead\"}".to_owned()
}

/// A small cube for trying things out: three frames of four by four pixels in
/// four colours.  It is not a cube that the encoder takes.
pub fn create_test_cube() -> (cube: QuantizedCubeData)
    ensures
        cube.width == 4,
        cube.height == 4,
        cube.indexed_frames@.len() == 3,
        cube.global_palette_rgb@ == seq![
            255u8,
            0u8,
            0u8,
            0u8,
            255u8,
            0u8,
            0u8,
            0u8,
            255u8,
            255u8,
            255u8,
            0u8,
        ],
        cube.delays_cs@ == seq![10u8, 10u8, 10u8],
        forall|f: int, p: int|
            0 <= f < 3 && 0 <= p < 16 ==> (#[trigger] cube.indexed_frames[f][p]) == (f + p) % 4,
        cube.palette_stability == 950000,
        cube.mean_delta_e == 1500000,
        cube.p95_delta_e == 3200000,
{
    let mut frames: Vec<Vec<u8>> = Vec::new();
    frames.push(vec![0, 1, 2, 3, 0, 1, 2, 3, 0, 1, 2, 3, 0, 1, 2, 3]);
    frames.push(vec![1, 2, 3, 0, 1, 2, 3, 0, 1, 2, 3, 0, 1, 2, 3, 0]);
    frames.push(vec![2, 3, 0, 1, 2, 3, 0, 1, 2, 3, 0, 1, 2, 3, 0, 1]);
    QuantizedCubeData {
        width: 4,
        height: 4,
        global_palette_rgb: vec![255, 0, 0, 0, 255, 0, 0, 0, 255, 255, 255, 0],
        indexed_frames: frames,
        delays_cs: vec![10, 10, 10],
        palette_stability: 950000,
        mean_delta_e: 1500000,
        p95_delta_e: 3200000,
    }
}

} // verus!
