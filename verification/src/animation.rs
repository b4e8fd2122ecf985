//! Animations whose frames each bring a colour table of their own, written
//! by the `gif` crate.  What the crate writes is taken on trust; which frames
//! it is given, in what order and with what tables, is verified here.

use crate::lct::{
    indices_of, method_fault, method_ok, plain_indices, quantize_rgba_frames, quantize_rgba_to_lct,
    sample_factor, shared_map, table_of, trained_map, without_alpha, GifError,
    QuantizationMethod, QuantizeOptions,
};
use crate::stream::{
    color_bits, ends_with_trailer, le16, loop_extension, padded_entries, signature,
    starts_with_signature, zeros,
};
use crate::validator::{matches_at, signature_bytes};
use vstd::prelude::*;

verus! {

/// Delay and looping of an animation.
#[derive(Debug, Clone, Copy)]
pub struct GifEncodeOptions {
    /// Delay of every frame in hundredths of a second.
    pub delay_cs: u16,
    /// Whether the animation repeats without end.
    pub loop_gif: bool,
}

impl Default for GifEncodeOptions {
    fn default() -> (o: Self)
        ensures
            o.delay_cs == 4,
            o.loop_gif,
    {
        GifEncodeOptions { delay_cs: 4, loop_gif: true }
    }
}

/// A `gif::Encoder` that writes into a vector.  The encoder is generic over
/// its writer and cannot be shown to the verifier as it is, so it is held
/// here out of its sight; [`written`] names what it has written.
#[verifier::external_body]
pub struct GifWriter {
    inner: gif::Encoder<Vec<u8>>,
}

#[verifier::external_type_specification]
#[verifier::external_body]
pub struct ExEncodingError(gif::EncodingError);

/// The bytes that an encoder has written so far.
pub uninterp spec fn written(encoder: GifWriter) -> Seq<u8>;

/// The image data that the encoder writes for the indices of one frame: the
/// symbol size, the compressed indices in blocks, and the empty block that
/// closes them.
pub uninterp spec fn compressed_indices(indices: Seq<u8>) -> Seq<u8>;

/// Graphic control extension as the encoder writes it for a frame: the frame
/// stays in place after `delay` hundredths of a second, nothing transparent.
pub open spec fn keep_control(delay: int) -> Seq<u8> {
    seq![0x21u8, 0xF9u8, 0x04u8, 0x04u8] + le16(delay) + seq![0x00u8, 0x00u8]
}

/// Image descriptor of a frame that fills the canvas and brings a colour
/// table of `entries` colours.
pub open spec fn own_table_descriptor(width: int, height: int, entries: int) -> Seq<u8> {
    seq![0x2Cu8] + le16(0) + le16(0) + le16(width) + le16(height) + seq![
        (0x80 + color_bits(entries)) as u8,
    ]
}

/// The colour table of a frame: the whole colours of the palette, then black
/// entries up to the next power of two.
pub open spec fn own_table(palette: Seq<u8>) -> Seq<u8> {
    palette.take(3 * (palette.len() as int / 3)) + zeros(
        3 * (padded_entries(palette.len() as int / 3) - palette.len() as int / 3),
    )
}

/// What stands before the image data of a frame.
pub open spec fn frame_head(width: int, height: int, delay: int, palette: Seq<u8>) -> Seq<u8> {
    keep_control(delay) + own_table_descriptor(width, height, palette.len() as int / 3)
        + own_table(palette)
}

/// The bytes of one frame of `width` by `height` indices with a colour table
/// of its own.
pub open spec fn encoded_frame(
    width: int,
    height: int,
    delay: int,
    palette: Seq<u8>,
    indices: Seq<u8>,
) -> Seq<u8> {
    frame_head(width, height, delay, palette) + compressed_indices(indices)
}

/// What stands at the head of a stream without a global colour table: the
/// signature, the size of the canvas, a packed byte that says eight bits of
/// nothing, and the two black entries that the format asks for at least.
pub open spec fn opening(width: int, height: int) -> Seq<u8> {
    signature() + le16(width) + le16(height) + seq![0x80u8, 0u8, 0u8] + zeros(6)
}

/// `gif::Encoder::new` on an empty vector and without a global palette.
/// Claimed: the call succeeds, since an empty palette is in order and a
/// vector takes every write; signature, logical screen descriptor and the
/// least colour table have been written, as [`opening`] spells out.
#[verifier::external_body]
fn encoder_new(width: u16, height: u16) -> (r: Result<GifWriter, gif::EncodingError>)
    ensures
        r is Ok,
        r matches Ok(encoder) ==> written(encoder) == opening(width as int, height as int),
{
    gif::Encoder::new(Vec::new(), width, height, &[]).map(|inner| GifWriter { inner })
}

/// `gif::Encoder::set_repeat` with `Repeat::Infinite`.  Claimed: the call
/// succeeds, and the application extension `NETSCAPE2.0` with loop count 0
/// has been written behind what was there.
#[verifier::external_body]
fn encoder_set_repeat_infinite(encoder: &mut GifWriter) -> (r: Result<(), gif::EncodingError>)
    ensures
        r is Ok,
        written(*final(encoder)) == written(*old(encoder)) + loop_extension(),
{
    encoder.inner.set_repeat(gif::Repeat::Infinite)
}

/// `gif::Encoder::write_frame` for a frame that has the given size, delay,
/// colour table and indices and is otherwise as `Frame::default()` makes it.
/// Claimed: the call fails for a table of more than 256 colours and for no
/// other (but where memory runs out, which nothing here reckons with); when
/// it succeeds, control extension, image descriptor and colour table have
/// been written as [`frame_head`] spells out, and behind them the image data,
/// which depends on the indices alone.  The crate checks the frame in debug
/// builds in a way that fails for an empty canvas with indices, so the
/// indices must be as many as the canvas has pixels.
#[verifier::external_body]
fn encoder_write_frame(
    encoder: &mut GifWriter,
    width: u16,
    height: u16,
    delay: u16,
    palette: &Vec<u8>,
    indices: &Vec<u8>,
) -> (r: Result<(), gif::EncodingError>)
    requires
        indices.len() == width * height,
    ensures
        r is Ok <==> palette.len() / 3 <= 256,
        r is Ok ==> written(*final(encoder)) == written(*old(encoder)) + (frame_head(
            width as int,
            height as int,
            delay as int,
            palette@,
        ) + compressed_indices(indices@)),
{
    let mut frame = gif::Frame::default();
    frame.width = width;
    frame.height = height;
    frame.buffer = std::borrow::Cow::Borrowed(indices.as_slice());
    frame.palette = Some(palette.clone());
    frame.delay = delay;
    encoder.inner.write_frame(&frame)
}

/// `gif::Encoder::into_inner`.  Claimed: the call succeeds, and the vector
/// holds what had been written and the trailer byte behind it.
#[verifier::external_body]
fn encoder_into_inner(encoder: GifWriter) -> (r: Result<Vec<u8>, gif::EncodingError>)
    ensures
        r is Ok,
        r matches Ok(bytes) ==> bytes@ == written(encoder) + seq![0x3Bu8],
{
    encoder.inner.into_inner()
}

/// The `Display` text of a `gif::EncodingError`.
#[verifier::external_body]
fn encoding_error_text(e: &gif::EncodingError) -> (text: String) {
    e.to_string()
}

/// Why a stream is not taken for an animation, if it is not: it has fewer
/// than 100 bytes, or not the signature, or not the trailer.
pub open spec fn structure_fault(s: Seq<u8>) -> Option<Seq<char>> {
    if s.len() < 100 {
        Some("GIF too small"@)
    } else if !starts_with_signature(s) {
        Some("Invalid GIF header: expected GIF89a"@)
    } else if !ends_with_trailer(s) {
        Some("Invalid GIF trailer: expected 0x3B"@)
    } else {
        None
    }
}

/// Checks that a stream is large enough to hold an image and has signature
/// and trailer.
pub fn verify_gif_structure(gif_data: &Vec<u8>, expected_frames: usize) -> (r: Result<(), GifError>)
    ensures
        match structure_fault(gif_data@) {
            Some(text) => r matches Err(GifError::EncodingError(message)) && message@ == text,
            None => r is Ok,
        },
{
    if gif_data.len() < 100 {
        return Err(GifError::EncodingError("GIF too small".to_owned()));
    }
    let header = signature_bytes();
    if !matches_at(gif_data, &header, 0) {
        return Err(GifError::EncodingError("Invalid GIF header: expected GIF89a".to_owned()));
    }
    if gif_data[gif_data.len() - 1] != 0x3B {
        return Err(GifError::EncodingError("Invalid GIF trailer: expected 0x3B".to_owned()));
    }
    Ok(())
}

/// Every frame up to `upto` holds `width` by `height` RGBA pixels.
pub open spec fn frames_fit(frames: Seq<Seq<u8>>, width: int, height: int, upto: int) -> bool {
    forall|f: int| 0 <= f < upto ==> (#[trigger] frames[f]).len() == width * height * 4
}

/// The bytes of the first `n` frames, each quantized by `method` on its own.
pub open spec fn own_table_frames(
    frames: Seq<Seq<u8>>,
    width: int,
    height: int,
    delay: int,
    method: QuantizationMethod,
    n: int,
) -> Seq<u8>
    decreases n,
{
    if n <= 0 {
        Seq::empty()
    } else {
        own_table_frames(frames, width, height, delay, method, n - 1) + encoded_frame(
            width,
            height,
            delay,
            table_of(frames[n - 1], width, height, method),
            indices_of(frames[n - 1], width, height, method),
        )
    }
}

/// The stream of an animation whose frames are quantized one by one.
pub open spec fn own_table_stream(
    frames: Seq<Seq<u8>>,
    width: int,
    height: int,
    delay: int,
    loop_forever: bool,
    method: QuantizationMethod,
) -> Seq<u8> {
    opening(width, height) + (if loop_forever {
        loop_extension()
    } else {
        Seq::empty()
    }) + own_table_frames(frames, width, height, delay, method, frames.len() as int) + seq![
        0x3Bu8,
    ]
}

/// Frame `f` is the first that does not hold `width` by `height` RGBA pixels.
pub open spec fn first_misfit(frames: Seq<Seq<u8>>, width: int, height: int, f: int) -> bool {
    &&& 0 <= f < frames.len()
    &&& frames_fit(frames, width, height, f)
    &&& frames[f].len() != width * height * 4
}

/// Encodes RGBA frames, each with a colour table of its own.
///
/// No frame at all is refused.  The frames are then taken in turn: the first
/// that is not `width` by `height` is refused, and a method that cannot be
/// carried out is refused at the first frame, if that frame has the right
/// size.  Otherwise the stream is [`own_table_stream`]; it is returned if
/// [`verify_gif_structure`] takes it and refused with that function's words
/// if not.
pub fn encode_gif89a_rgba(
    frames: &Vec<Vec<u8>>,
    width: u16,
    height: u16,
    delay_cs: u16,
    loop_forever: bool,
    method: QuantizationMethod,
) -> (r: Result<Vec<u8>, GifError>)
    ensures
        frames.len() == 0 ==> r == Err::<Vec<u8>, GifError>(GifError::InvalidFrameCount(0)),
        forall|f: int|
            #[trigger] first_misfit(crate::cube::planes(frames@), width as int, height as int, f)
                && (f == 0 || method_ok(method)) ==> r == Err::<Vec<u8>, GifError>(
                GifError::InvalidDimensions {
                    expected: (width * height * 4) as usize,
                    actual: frames[f].len(),
                },
            ),
        frames.len() > 0 && frames[0].len() == width * height * 4 && !method_ok(method) ==> r
            == Err::<Vec<u8>, GifError>(method_fault(method)),
        frames.len() > 0 && method_ok(method) && frames_fit(
            crate::cube::planes(frames@),
            width as int,
            height as int,
            frames.len() as int,
        ) ==> match structure_fault(
            own_table_stream(
                crate::cube::planes(frames@),
                width as int,
                height as int,
                delay_cs as int,
                loop_forever,
                method,
            ),
        ) {
            None => r matches Ok(bytes) && bytes@ == own_table_stream(
                crate::cube::planes(frames@),
                width as int,
                height as int,
                delay_cs as int,
                loop_forever,
                method,
            ),
            Some(text) => r matches Err(GifError::EncodingError(message)) && message@ == text,
        },
{
    if frames.len() == 0 {
        return Err(GifError::InvalidFrameCount(0));
    }
    let ghost pl = crate::cube::planes(frames@);
    let ghost w = width as int;
    let ghost h = height as int;
    let mut encoder = match encoder_new(width, height) {
        Ok(encoder) => encoder,
        Err(e) => {
            return Err(GifError::EncodingError(encoding_error_text(&e)));
        },
    };
    if loop_forever {
        match encoder_set_repeat_infinite(&mut encoder) {
            Ok(()) => {},
            Err(e) => {
                return Err(GifError::EncodingError(encoding_error_text(&e)));
            },
        }
    }
    let ghost head = written(encoder);
    let mut f: usize = 0;
    while f < frames.len()
        invariant
            0 <= f <= frames.len(),
            frames.len() > 0,
            pl == crate::cube::planes(frames@),
            w == width as int,
            h == height as int,
            f > 0 ==> method_ok(method),
            frames_fit(pl, w, h, f as int),
            written(encoder) == head + own_table_frames(pl, w, h, delay_cs as int, method, f as int),
        decreases frames.len() - f,
    {
        assert(pl[f as int] == frames[f as int]@);
        assert(pl[0] == frames[0]@);
        let (palette, indices) = match quantize_rgba_to_lct(&frames[f], width, height, method) {
            Ok(pair) => pair,
            Err(e) => {
                proof {
                    assert forall|g: int|
                        #[trigger] first_misfit(pl, w, h, g) && (g == 0 || method_ok(
                            method,
                        )) implies g == f && frames[f as int].len() != w * h * 4 by {
                        if g < f {
                            assert(pl[g].len() == w * h * 4);
                        } else if g > f {
                            assert(pl[f as int].len() == w * h * 4);
                        }
                    }
                    if frames[f as int].len() == w * h * 4 {
                        assert(!frames_fit(pl, w, h, frames.len() as int) || !method_ok(method));
                    } else {
                        assert(!frames_fit(pl, w, h, frames.len() as int));
                    }
                }
                return Err(e);
            },
        };
        proof {
            lemma_indices_len(frames[f as int]@, w, h, method);
        }
        match encoder_write_frame(&mut encoder, width, height, delay_cs, &palette, &indices) {
            Ok(()) => {},
            Err(e) => {
                return Err(GifError::EncodingError(encoding_error_text(&e)));
            },
        }
        proof {
            let sofar = own_table_frames(pl, w, h, delay_cs as int, method, f as int);
            let one = encoded_frame(
                w,
                h,
                delay_cs as int,
                table_of(pl[f as int], w, h, method),
                indices_of(pl[f as int], w, h, method),
            );
            assert(written(encoder) =~= head + (sofar + one));
        }
        f = f + 1;
    }
    let output = match encoder_into_inner(encoder) {
        Ok(bytes) => bytes,
        Err(e) => {
            return Err(GifError::EncodingError(encoding_error_text(&e)));
        },
    };
    proof {
        assert(output@ =~= own_table_stream(pl, w, h, delay_cs as int, loop_forever, method));
        assert forall|g: int| #[trigger] first_misfit(pl, w, h, g) implies false by {
            assert(pl[g].len() == w * h * 4);
        }
    }
    match verify_gif_structure(&output, frames.len()) {
        Ok(()) => {},
        Err(e) => {
            return Err(e);
        },
    }
    Ok(output)
}

/// The bytes of the first `n` frames that were quantized beforehand, each
/// with its indices and its table.
pub open spec fn quantized_frames_bytes(
    frames: Seq<(Vec<u8>, Vec<u8>)>,
    width: int,
    height: int,
    delay: int,
    n: int,
) -> Seq<u8>
    decreases n,
{
    if n <= 0 {
        Seq::empty()
    } else {
        quantized_frames_bytes(frames, width, height, delay, n - 1) + encoded_frame(
            width,
            height,
            delay,
            frames[n - 1].1@,
            frames[n - 1].0@,
        )
    }
}

/// The stream of an animation of frames that were quantized beforehand.
pub open spec fn quantized_stream(
    frames: Seq<(Vec<u8>, Vec<u8>)>,
    width: int,
    height: int,
    options: GifEncodeOptions,
) -> Seq<u8> {
    opening(width, height) + (if options.loop_gif {
        loop_extension()
    } else {
        Seq::empty()
    }) + quantized_frames_bytes(frames, width, height, options.delay_cs as int, frames.len() as int)
        + seq![0x3Bu8]
}

/// The options that are meant: those given, or a delay of 4 and looping.
pub open spec fn encode_options(options: Option<GifEncodeOptions>) -> GifEncodeOptions {
    match options {
        Some(o) => o,
        None => GifEncodeOptions { delay_cs: 4, loop_gif: true },
    }
}

/// The frame has one index per pixel of the canvas and a table of 256
/// colours at most.
pub open spec fn quantized_fits(frame: (Vec<u8>, Vec<u8>), width: int, height: int) -> bool {
    frame.0@.len() == width * height && frame.1@.len() / 3 <= 256
}

/// Every one of the first `upto` frames fits.
pub open spec fn all_quantized_fit(
    frames: Seq<(Vec<u8>, Vec<u8>)>,
    width: int,
    height: int,
    upto: int,
) -> bool {
    forall|f: int| 0 <= f < upto ==> quantized_fits(#[trigger] frames[f], width, height)
}

/// Frame `f` is the first that does not fit.
pub open spec fn first_unfit(
    frames: Seq<(Vec<u8>, Vec<u8>)>,
    width: int,
    height: int,
    f: int,
) -> bool {
    &&& 0 <= f < frames.len()
    &&& all_quantized_fit(frames, width, height, f)
    &&& !quantized_fits(frames[f], width, height)
}

/// Encodes frames that were quantized beforehand; each is a pair of indices
/// and colour table.
///
/// A canvas wider or higher than 65535 is refused.  The frames are then
/// taken in turn, and the first that does not fit is refused: for its size,
/// if it has not one index per pixel, else for its table, in the encoder
/// crate's words.  Where every frame fits, the stream is
/// [`quantized_stream`].
pub fn encode_gif89a_from_quantized(
    quantized_frames: &Vec<(Vec<u8>, Vec<u8>)>,
    width: u32,
    height: u32,
    options: Option<GifEncodeOptions>,
) -> (r: Result<Vec<u8>, GifError>)
    ensures
        width > 0xFFFF ==> r == Err::<Vec<u8>, GifError>(
            GifError::InvalidDimensions { expected: 0xFFFF, actual: width as usize },
        ),
        width <= 0xFFFF && height > 0xFFFF ==> r == Err::<Vec<u8>, GifError>(
            GifError::InvalidDimensions { expected: 0xFFFF, actual: height as usize },
        ),
        forall|f: int|
            width <= 0xFFFF && height <= 0xFFFF && #[trigger] first_unfit(
                quantized_frames@,
                width as int,
                height as int,
                f,
            ) ==> if quantized_frames[f].0@.len() != width * height {
                r == Err::<Vec<u8>, GifError>(
                    GifError::InvalidDimensions {
                        expected: (width * height) as usize,
                        actual: quantized_frames[f].0@.len() as usize,
                    },
                )
            } else {
                r matches Err(GifError::EncodingError(_))
            },
        width <= 0xFFFF && height <= 0xFFFF && all_quantized_fit(
            quantized_frames@,
            width as int,
            height as int,
            quantized_frames.len() as int,
        ) ==> (r matches Ok(bytes) && bytes@ == quantized_stream(
            quantized_frames@,
            width as int,
            height as int,
            encode_options(options),
        )),
{
    let options = match options {
        Some(o) => o,
        None => GifEncodeOptions { delay_cs: 4, loop_gif: true },
    };
    if width > 0xFFFF {
        return Err(GifError::InvalidDimensions { expected: 0xFFFF, actual: width as usize });
    }
    if height > 0xFFFF {
        return Err(GifError::InvalidDimensions { expected: 0xFFFF, actual: height as usize });
    }
    let w = width as u16;
    let h = height as u16;
    assert(w * h <= 0xFFFF * 0xFFFF) by (nonlinear_arith)
        requires
            0 <= w <= 0xFFFF,
            0 <= h <= 0xFFFF,
    ;
    let pixels = w as u64 * h as u64;
    let ghost all = quantized_frames@;
    let ghost wi = width as int;
    let ghost hi = height as int;
    let mut encoder = match encoder_new(w, h) {
        Ok(encoder) => encoder,
        Err(e) => {
            return Err(GifError::EncodingError(encoding_error_text(&e)));
        },
    };
    if options.loop_gif {
        match encoder_set_repeat_infinite(&mut encoder) {
            Ok(()) => {},
            Err(e) => {
                return Err(GifError::EncodingError(encoding_error_text(&e)));
            },
        }
    }
    let ghost head = written(encoder);
    let mut f: usize = 0;
    while f < quantized_frames.len()
        invariant
            0 <= f <= quantized_frames.len(),
            all == quantized_frames@,
            wi == width as int,
            hi == height as int,
            w == width,
            h == height,
            pixels == w * h,
            all_quantized_fit(all, wi, hi, f as int),
            written(encoder) == head + quantized_frames_bytes(
                all,
                wi,
                hi,
                options.delay_cs as int,
                f as int,
            ),
        decreases quantized_frames.len() - f,
    {
        let frame = &quantized_frames[f];
        proof {
            assert forall|g: int| #[trigger] first_unfit(all, wi, hi, g) && !quantized_fits(
                all[f as int],
                wi,
                hi,
            ) implies g == f by {
                if g < f {
                    assert(quantized_fits(all[g], wi, hi));
                } else if g > f {
                    assert(quantized_fits(all[f as int], wi, hi));
                }
            }
        }
        if frame.0.len() as u64 != pixels {
            assert(!all_quantized_fit(all, wi, hi, all.len() as int));
            return Err(
                GifError::InvalidDimensions { expected: pixels as usize, actual: frame.0.len() },
            );
        }
        match encoder_write_frame(&mut encoder, w, h, options.delay_cs, &frame.1, &frame.0) {
            Ok(()) => {},
            Err(e) => {
                assert(!all_quantized_fit(all, wi, hi, all.len() as int));
                return Err(GifError::EncodingError(encoding_error_text(&e)));
            },
        }
        proof {
            let sofar = quantized_frames_bytes(all, wi, hi, options.delay_cs as int, f as int);
            let one = encoded_frame(wi, hi, options.delay_cs as int, frame.1@, frame.0@);
            assert(written(encoder) =~= head + (sofar + one));
        }
        f = f + 1;
    }
    proof {
        assert forall|g: int| #[trigger] first_unfit(all, wi, hi, g) implies false by {
            assert(quantized_fits(all[g], wi, hi));
        }
    }
    match encoder_into_inner(encoder) {
        Ok(bytes) => {
            assert(bytes@ =~= quantized_stream(all, wi, hi, options));
            Ok(bytes)
        },
        Err(e) => Err(GifError::EncodingError(encoding_error_text(&e))),
    }
}

/// `quantized` holds for each frame its indices against the one network that
/// learned from all frames, and the colour table of that network.
pub open spec fn are_shared_frames(
    frames: Seq<Seq<u8>>,
    sample_fac: int,
    quantized: Seq<(Vec<u8>, Vec<u8>)>,
) -> bool {
    &&& quantized.len() == frames.len()
    &&& forall|f: int|
        0 <= f < frames.len() ==> {
            &&& (#[trigger] quantized[f]).0@ == plain_indices(
                frames[f],
                shared_map(frames, sample_fac),
            )
            &&& quantized[f].1@ == without_alpha(shared_map(frames, sample_fac))
        }
}

/// `bytes` is the stream of the frames quantized against one network.
pub open spec fn is_shared_table_stream(
    frames: Seq<Seq<u8>>,
    width: int,
    height: int,
    options: GifEncodeOptions,
    sample_fac: int,
    bytes: Seq<u8>,
) -> bool {
    exists|quantized: Seq<(Vec<u8>, Vec<u8>)>|
        #[trigger] are_shared_frames(frames, sample_fac, quantized) && bytes == quantized_stream(
            quantized,
            width,
            height,
            options,
        )
}

/// Every one of the first `upto` frames holds `width` by `height` whole
/// pixels of four bytes.
pub open spec fn pixels_fit(frames: Seq<Seq<u8>>, width: int, height: int, upto: int) -> bool {
    forall|f: int| 0 <= f < upto ==> (#[trigger] frames[f]).len() / 4 == width * height
}

/// Frame `f` is the first that does not hold `width` by `height` whole pixels.
pub open spec fn first_short(frames: Seq<Seq<u8>>, width: int, height: int, f: int) -> bool {
    &&& 0 <= f < frames.len()
    &&& pixels_fit(frames, width, height, f)
    &&& frames[f].len() / 4 != width * height
}

/// What [`quantize_rgba_frames`] gives fits the canvas exactly where the
/// frames hold its pixels.
proof fn lemma_shared_frames_fit(
    frames: Seq<Seq<u8>>,
    sample_fac: int,
    quantized: Seq<(Vec<u8>, Vec<u8>)>,
    width: int,
    height: int,
)
    requires
        are_shared_frames(frames, sample_fac, quantized),
        forall|f: int| 0 <= f < quantized.len() ==> (#[trigger] quantized[f]).1@.len() == 768,
    ensures
        forall|f: int|
            0 <= f < frames.len() ==> (quantized_fits(#[trigger] quantized[f], width, height) <==> frames[f].len()
                / 4 == width * height),
        forall|f: int|
            0 <= f <= frames.len() ==> (#[trigger] all_quantized_fit(quantized, width, height, f)
                <==> pixels_fit(frames, width, height, f)),
        forall|f: int|
            #[trigger] first_unfit(quantized, width, height, f) <==> first_short(
                frames,
                width,
                height,
                f,
            ),
        forall|f: int|
            #[trigger] first_unfit(quantized, width, height, f) ==> quantized[f].0@.len()
                == frames[f].len() / 4 && quantized[f].0@.len() != width * height,
{
    assert forall|f: int| 0 <= f < frames.len() implies (quantized_fits(
        #[trigger] quantized[f],
        width,
        height,
    ) <==> frames[f].len() / 4 == width * height) by {
        assert(quantized[f].0@.len() == frames[f].len() / 4);
        assert(quantized[f].1@.len() == 768);
    }
    assert forall|f: int| 0 <= f <= frames.len() implies (#[trigger] all_quantized_fit(
        quantized,
        width,
        height,
        f,
    ) <==> pixels_fit(frames, width, height, f)) by {
        if all_quantized_fit(quantized, width, height, f) {
            assert forall|g: int| 0 <= g < f implies (#[trigger] frames[g]).len() / 4 == width
                * height by {
                assert(quantized_fits(quantized[g], width, height));
            }
        }
        if pixels_fit(frames, width, height, f) {
            assert forall|g: int| 0 <= g < f implies quantized_fits(
                #[trigger] quantized[g],
                width,
                height,
            ) by {
                assert(frames[g].len() / 4 == width * height);
            }
        }
    }
    assert forall|f: int| #[trigger] first_unfit(quantized, width, height, f) implies quantized[f].0@.len()
        == frames[f].len() / 4 && quantized[f].0@.len() != width * height by {
        assert(quantized[f].1@.len() == 768);
    }
}

/// Quantizes RGBA frames against one network and encodes them.
///
/// A sampling factor outside 1 to 30 is refused first, then a canvas wider
/// or higher than 65535, then the first frame that does not hold as many
/// whole pixels as the canvas has.  Otherwise the stream is that of
/// [`encode_gif89a_from_quantized`] for the frames that
/// [`quantize_rgba_frames`] gives.
pub fn encode_rgba_frames_to_gif89a(
    frames: &Vec<Vec<u8>>,
    width: u32,
    height: u32,
    encode_options: Option<GifEncodeOptions>,
    quantize_options: Option<QuantizeOptions>,
) -> (r: Result<Vec<u8>, GifError>)
    ensures
        !(1 <= sample_factor(quantize_options) <= 30) ==> r == Err::<Vec<u8>, GifError>(
            crate::lct::factor_fault(sample_factor(quantize_options)),
        ),
        1 <= sample_factor(quantize_options) <= 30 && width > 0xFFFF ==> r == Err::<
            Vec<u8>,
            GifError,
        >(GifError::InvalidDimensions { expected: 0xFFFF, actual: width as usize }),
        1 <= sample_factor(quantize_options) <= 30 && width <= 0xFFFF && height > 0xFFFF ==> r
            == Err::<Vec<u8>, GifError>(
            GifError::InvalidDimensions { expected: 0xFFFF, actual: height as usize },
        ),
        forall|f: int|
            1 <= sample_factor(quantize_options) <= 30 && width <= 0xFFFF && height <= 0xFFFF
                && #[trigger] first_short(
                crate::cube::planes(frames@),
                width as int,
                height as int,
                f,
            ) ==> r == Err::<Vec<u8>, GifError>(
                GifError::InvalidDimensions {
                    expected: (width * height) as usize,
                    actual: (frames[f].len() / 4) as usize,
                },
            ),
        1 <= sample_factor(quantize_options) <= 30 && width <= 0xFFFF && height <= 0xFFFF
            && pixels_fit(
            crate::cube::planes(frames@),
            width as int,
            height as int,
            frames.len() as int,
        ) ==> (r matches Ok(bytes) && is_shared_table_stream(
            crate::cube::planes(frames@),
            width as int,
            height as int,
            self::encode_options(encode_options),
            sample_factor(quantize_options),
            bytes@,
        )),
{
    let quantized = match quantize_rgba_frames(frames, width, height, quantize_options) {
        Ok(list) => list,
        Err(e) => {
            return Err(e);
        },
    };
    let ghost pl = crate::cube::planes(frames@);
    proof {
        assert(are_shared_frames(pl, sample_factor(quantize_options), quantized@)) by {
            assert forall|f: int| 0 <= f < frames.len() implies {
                &&& (#[trigger] quantized@[f]).0@ == plain_indices(
                    pl[f],
                    shared_map(pl, sample_factor(quantize_options)),
                )
                &&& quantized@[f].1@ == without_alpha(
                    shared_map(pl, sample_factor(quantize_options)),
                )
            } by {
                assert(pl[f] == frames[f]@);
                assert(quantized[f] == quantized@[f]);
            }
        }
        lemma_shared_frames_fit(
            pl,
            sample_factor(quantize_options),
            quantized@,
            width as int,
            height as int,
        );
    }
    let r = encode_gif89a_from_quantized(&quantized, width, height, encode_options);
    proof {
        assert forall|f: int|
            width <= 0xFFFF && height <= 0xFFFF && #[trigger] first_short(
                pl,
                width as int,
                height as int,
                f,
            ) implies r == Err::<Vec<u8>, GifError>(
            GifError::InvalidDimensions {
                expected: (width * height) as usize,
                actual: (frames[f].len() / 4) as usize,
            },
        ) by {
            assert(first_unfit(quantized@, width as int, height as int, f));
            assert(pl[f] == frames[f]@);
            assert(quantized@[f].0@.len() == pl[f].len() / 4);
        }
    }
    r
}

/// Encodes RGBA frames of 81 by 81 pixels with a delay of 4 hundredths of a
/// second, looping.  No frame at all is refused, and so is the first frame
/// that has not 26244 bytes.  Otherwise the stream is that of the frames
/// quantized against one network with a sampling factor of 10.
pub fn m3_gif89a_encode_rgba_frames(rgba_frames: &Vec<Vec<u8>>) -> (r: Result<Vec<u8>, GifError>)
    ensures
        rgba_frames.len() == 0 ==> r == Err::<Vec<u8>, GifError>(GifError::InvalidFrameCount(0)),
        forall|f: int|
            #[trigger] first_misfit(crate::cube::planes(rgba_frames@), 81, 81, f) ==> r == Err::<
                Vec<u8>,
                GifError,
            >(GifError::InvalidDimensions { expected: 26244, actual: rgba_frames[f].len() }),
        rgba_frames.len() > 0 && frames_fit(
            crate::cube::planes(rgba_frames@),
            81,
            81,
            rgba_frames.len() as int,
        ) ==> (r matches Ok(bytes) && is_shared_table_stream(
            crate::cube::planes(rgba_frames@),
            81,
            81,
            (GifEncodeOptions { delay_cs: 4, loop_gif: true }),
            10,
            bytes@,
        )),
{
    if rgba_frames.len() == 0 {
        return Err(GifError::InvalidFrameCount(0));
    }
    let ghost pl = crate::cube::planes(rgba_frames@);
    let mut f: usize = 0;
    while f < rgba_frames.len()
        invariant
            0 <= f <= rgba_frames.len(),
            pl == crate::cube::planes(rgba_frames@),
            frames_fit(pl, 81, 81, f as int),
        decreases rgba_frames.len() - f,
    {
        assert(pl[f as int] == rgba_frames[f as int]@);
        let actual = rgba_frames[f].len();
        if actual != 26244 {
            proof {
                assert forall|g: int| #[trigger] first_misfit(pl, 81, 81, g) implies g == f by {
                    if g < f {
                        assert(pl[g].len() == 26244);
                    } else if g > f {
                        assert(pl[f as int].len() == 26244);
                    }
                }
                assert(!frames_fit(pl, 81, 81, rgba_frames.len() as int));
            }
            return Err(GifError::InvalidDimensions { expected: 26244, actual });
        }
        f = f + 1;
    }
    proof {
        assert forall|g: int| #[trigger] first_misfit(pl, 81, 81, g) implies false by {
            assert(pl[g].len() == 26244);
        }
    }
    let quantized = match quantize_rgba_frames(rgba_frames, 81, 81, None) {
        Ok(list) => list,
        Err(e) => {
            return Err(e);
        },
    };
    proof {
        assert(are_shared_frames(pl, 10, quantized@)) by {
            assert forall|g: int| 0 <= g < rgba_frames.len() implies {
                &&& (#[trigger] quantized@[g]).0@ == plain_indices(pl[g], shared_map(pl, 10))
                &&& quantized@[g].1@ == without_alpha(shared_map(pl, 10))
            } by {
                assert(pl[g] == rgba_frames[g]@);
                assert(quantized[g] == quantized@[g]);
            }
        }
        lemma_shared_frames_fit(pl, 10, quantized@, 81, 81);
        assert(pixels_fit(pl, 81, 81, rgba_frames.len() as int)) by {
            assert forall|g: int| 0 <= g < rgba_frames.len() implies (#[trigger] pl[g]).len() / 4
                == 81 * 81 by {
                assert(pl[g].len() == 26244);
            }
        }
    }
    encode_gif89a_from_quantized(&quantized, 81, 81, None)
}

/// An image quantized against a table has one index per pixel.
pub proof fn lemma_indices_len(rgba: Seq<u8>, w: int, h: int, method: QuantizationMethod)
    requires
        0 <= w,
        0 <= h,
    ensures
        indices_of(rgba, w, h, method).len() == w * h,
{
    match method {
        QuantizationMethod::NeuQuant { colors, sample_fac } => {
            assert(0 <= w * h) by (nonlinear_arith)
                requires
                    0 <= w,
                    0 <= h,
            ;
            crate::lct::lemma_diffuse_len(
                rgba,
                trained_map(sample_fac as int, colors as int, rgba),
                w,
                h,
                w * h,
            );
        },
        QuantizationMethod::MedianCut { colors } => {
            assert(0 <= w * h) by (nonlinear_arith)
                requires
                    0 <= w,
                    0 <= h,
            ;
        },
    }
}

} // verus!
