//! The encoder: a quantized cube in, the bytes of a looping animation out.

use crate::cube::{
    encodable, index_ok, indices_ok_before, palette_len_ok, planes, rejected_with, sizes_ok,
    QuantizedCubeData, FRAME_PIXELS, MAX_PALETTE_BYTES,
};
use crate::error::{GifPipeError, Le16Field};
use crate::lzw::{clear_code, clear_code_of, first_free, lzw_compress, symbols_fit, LzwDict};
use crate::stream::{
    color_bits, color_table, frame_block, frame_blocks, gif_stream, graphic_control, image_data,
    image_descriptor, le16, loop_extension, min_code_size, netscape, padded_entries, preamble,
    screen_descriptor, signature, sub_blocks, zeros,
};
use vstd::arithmetic::power2::lemma2_to64;
use vstd::prelude::*;

verus! {

/// Checks what the encoder asks of a cube, in this order: the number of
/// frames, the size of the palette, the size of each frame, and that every
/// index names a palette entry.  Of several faults of one kind the first is
/// reported.
pub fn validate_cube(palette: &Vec<u8>, frames: &Vec<Vec<u8>>) -> (r: Result<(), GifPipeError>)
    ensures
        match r {
            Ok(()) => encodable(palette@, planes(frames@)),
            Err(e) => rejected_with(palette@, planes(frames@), e),
        },
{
    if frames.len() != 81 {
        return Err(GifPipeError::InvalidFrameCount { expected: 81, actual: frames.len() });
    }
    let len = palette.len();
    if len == 0 || len > MAX_PALETTE_BYTES || len % 3 != 0 {
        return Err(GifPipeError::InvalidPaletteSize { actual: len });
    }
    let entries = len / 3;
    let ghost pl = planes(frames@);
    let mut f: usize = 0;
    while f < 81
        invariant
            frames.len() == 81,
            pl == planes(frames@),
            palette_len_ok(palette.len() as int),
            0 <= f <= 81,
            sizes_ok(pl, 6561, f as int),
        decreases 81 - f,
    {
        let actual = frames[f].len();
        assert(pl[f as int] == frames[f as int]@);
        if actual != FRAME_PIXELS {
            return Err(GifPipeError::InvalidFrameSize { index: f, expected: FRAME_PIXELS, actual });
        }
        f = f + 1;
    }
    let mut f: usize = 0;
    while f < 81
        invariant
            frames.len() == 81,
            pl == planes(frames@),
            entries == palette.len() / 3,
            palette_len_ok(palette.len() as int),
            0 <= f <= 81,
            sizes_ok(pl, 6561, 81),
            indices_ok_before(pl, entries as int, f as int, 0),
        decreases 81 - f,
    {
        let frame = &frames[f];
        assert(pl[f as int] == frame@);
        let mut p: usize = 0;
        while p < FRAME_PIXELS
            invariant
                frames.len() == 81,
                pl == planes(frames@),
                entries == palette.len() / 3,
                palette_len_ok(palette.len() as int),
                0 <= f < 81,
                frame@ == pl[f as int],
                frame.len() == 6561,
                0 <= p <= 6561,
                sizes_ok(pl, 6561, 81),
                indices_ok_before(pl, entries as int, f as int, p as int),
            decreases 6561 - p,
        {
            let index = frame[p];
            if index as usize >= entries {
                return Err(
                    GifPipeError::InvalidIndex {
                        frame: f,
                        pixel: p,
                        index,
                        palette_entries: entries,
                    },
                );
            }
            assert(index_ok(pl, entries as int, f as int, p as int));
            p = p + 1;
        }
        f = f + 1;
    }
    Ok(())
}

/// Appends `value` as sixteen bits, low byte first, unless it does not fit.
pub fn put_le16(out: &mut Vec<u8>, value: u32, field: Le16Field) -> (r: Result<(), GifPipeError>)
    ensures
        value <= 65535 ==> r is Ok && final(out)@ == old(out)@ + le16(value as int),
        value > 65535 ==> r == Err::<(), GifPipeError>(GifPipeError::EncodingOverflow { field })
            && final(out)@ == old(out)@,
{
    if value > 65535 {
        return Err(GifPipeError::EncodingOverflow { field });
    }
    out.push((value % 256) as u8);
    out.push((value / 256) as u8);
    assert(out@ =~= old(out)@ + le16(value as int));
    Ok(())
}

/// Appends `data` cut into blocks of at most 255 bytes and the empty block
/// that ends them.
pub fn put_sub_blocks(out: &mut Vec<u8>, data: &Vec<u8>)
    ensures
        final(out)@ == old(out)@ + sub_blocks(data@),
{
    let ghost start = out@;
    let ghost mut done: Seq<u8> = Seq::empty();
    let mut pos: usize = 0;
    assert(data@.skip(0) =~= data@);
    assert(out@ =~= start + done);
    while pos < data.len()
        invariant
            0 <= pos <= data.len(),
            out@ == start + done,
            done + sub_blocks(data@.skip(pos as int)) == sub_blocks(data@),
        decreases data.len() - pos,
    {
        let rest = data.len() - pos;
        let n: usize = if rest < 255 {
            rest
        } else {
            255
        };
        let ghost tail = data@.skip(pos as int);
        let ghost block = seq![n as u8] + tail.take(n as int);
        proof {
            assert(tail.skip(n as int) =~= data@.skip(pos + n));
            assert(sub_blocks(tail) == block + sub_blocks(tail.skip(n as int)));
        }
        out.push(n as u8);
        let mut j: usize = 0;
        while j < n
            invariant
                0 <= j <= n,
                pos + n <= data.len(),
                tail == data@.skip(pos as int),
                out@ == start + done + seq![n as u8] + tail.take(j as int),
            decreases n - j,
        {
            out.push(data[pos + j]);
            assert(tail.take(j + 1) =~= tail.take(j as int).push(data@[pos + j]));
            assert(out@ =~= start + done + seq![n as u8] + tail.take(j + 1));
            j = j + 1;
        }
        proof {
            let grown = done + block;
            assert(out@ =~= start + grown);
            assert(grown + sub_blocks(data@.skip(pos + n)) =~= done + (block + sub_blocks(
                tail.skip(n as int),
            )));
            done = grown;
        }
        pos = pos + n;
    }
    out.push(0);
    proof {
        assert(data@.skip(pos as int) =~= Seq::<u8>::empty());
        assert(out@ =~= start + (done + seq![0u8]));
    }
}

/// Bits of one uncompressed symbol for a palette of `palette_size` colours:
/// the least number of bits that tells that many colours apart, but two at
/// least and eight at most.
pub fn calculate_min_code_size(palette_size: usize) -> (mcs: u8)
    ensures
        mcs == min_code_size(palette_size as int),
        2 <= mcs <= 8,
{
    if palette_size <= 4 {
        2
    } else if palette_size <= 8 {
        3
    } else if palette_size <= 16 {
        4
    } else if palette_size <= 32 {
        5
    } else if palette_size <= 64 {
        6
    } else if palette_size <= 128 {
        7
    } else {
        8
    }
}

/// Writes animations in the GIF89a format.
///
/// The three settings travel with the encoder for the caller's use; the stream
/// of a cube does not depend on them.
#[derive(Debug)]
pub struct Gif89aEncoder {
    /// Whether the caller wants palettes put in order before they are used.
    pub optimize_palette: bool,
    /// Whether the caller wants finished streams looked over by the validator.
    pub validate_output: bool,
    /// The alpha from which on the caller takes a pixel for opaque.
    pub transparency_threshold: u8,
}

impl Default for Gif89aEncoder {
    fn default() -> (e: Self)
        ensures
            e.optimize_palette,
            e.validate_output,
            e.transparency_threshold == 254,
    {
        Gif89aEncoder { optimize_palette: true, validate_output: true, transparency_threshold: 254 }
    }
}

impl Gif89aEncoder {
    pub fn new() -> (e: Self)
        ensures
            e.optimize_palette,
            e.validate_output,
            e.transparency_threshold == 254,
    {
        Gif89aEncoder { optimize_palette: true, validate_output: true, transparency_threshold: 254 }
    }

    pub fn with_validation(self, validate: bool) -> (e: Self)
        ensures
            e.validate_output == validate,
            e.optimize_palette == self.optimize_palette,
            e.transparency_threshold == self.transparency_threshold,
    {
        Gif89aEncoder {
            optimize_palette: self.optimize_palette,
            validate_output: validate,
            transparency_threshold: self.transparency_threshold,
        }
    }

    pub fn with_transparency_threshold(self, threshold: u8) -> (e: Self)
        ensures
            e.transparency_threshold == threshold,
            e.optimize_palette == self.optimize_palette,
            e.validate_output == self.validate_output,
    {
        Gif89aEncoder {
            optimize_palette: self.optimize_palette,
            validate_output: self.validate_output,
            transparency_threshold: threshold,
        }
    }

    /// The size field of a colour table for `palette_size` colours.  A
    /// palette of no colour or of more than 256 is refused; the error names
    /// the bytes such a palette would take, as far as they can be counted.
    pub fn calculate_color_bits(&self, palette_size: usize) -> (r: Result<u8, GifPipeError>)
        ensures
            1 <= palette_size <= 256 ==> r == Ok::<u8, GifPipeError>(
                color_bits(palette_size as int) as u8,
            ),
            palette_size == 0 || palette_size > 256 ==> r == Err::<u8, GifPipeError>(
                GifPipeError::InvalidPaletteSize {
                    actual: if palette_size <= usize::MAX / 3 {
                        (3 * palette_size) as usize
                    } else {
                        usize::MAX
                    },
                },
            ),
    {
        if palette_size == 0 || palette_size > 256 {
            let actual = if palette_size <= usize::MAX / 3 {
                3 * palette_size
            } else {
                usize::MAX
            };
            Err(GifPipeError::InvalidPaletteSize { actual })
        } else if palette_size <= 2 {
            Ok(0)
        } else if palette_size <= 4 {
            Ok(1)
        } else if palette_size <= 8 {
            Ok(2)
        } else if palette_size <= 16 {
            Ok(3)
        } else if palette_size <= 32 {
            Ok(4)
        } else if palette_size <= 64 {
            Ok(5)
        } else if palette_size <= 128 {
            Ok(6)
        } else {
            Ok(7)
        }
    }

    /// Signature and logical screen descriptor.
    pub fn write_gif89a_header(
        &self,
        output: &mut Vec<u8>,
        width: u16,
        height: u16,
        entries: usize,
    ) -> (r: Result<(), GifPipeError>)
        requires
            1 <= entries <= 256,
        ensures
            r is Ok,
            final(output)@ == old(output)@ + signature() + screen_descriptor(
                width as int,
                height as int,
                entries as int,
            ),
    {
        let bits = self.calculate_color_bits(entries)?;
        output.push(0x47);
        output.push(0x49);
        output.push(0x46);
        output.push(0x38);
        output.push(0x39);
        output.push(0x61);
        assert(output@ =~= old(output)@ + signature());
        put_le16(output, width as u32, Le16Field::Width)?;
        put_le16(output, height as u32, Le16Field::Height)?;
        output.push(0xF0 + bits);
        output.push(0);
        output.push(0);
        assert(output@ =~= old(output)@ + signature() + screen_descriptor(
            width as int,
            height as int,
            entries as int,
        ));
        Ok(())
    }

    /// The palette, padded with black to the next power of two.
    pub fn write_global_color_table(&self, gif_bytes: &mut Vec<u8>, palette_rgb: &Vec<u8>) -> (r:
        Result<(), GifPipeError>)
        requires
            palette_len_ok(palette_rgb.len() as int),
        ensures
            r is Ok,
            final(gif_bytes)@ == old(gif_bytes)@ + color_table(palette_rgb@),
    {
        let ghost start = gif_bytes@;
        let mut i: usize = 0;
        while i < palette_rgb.len()
            invariant
                0 <= i <= palette_rgb.len(),
                gif_bytes@ == start + palette_rgb@.take(i as int),
            decreases palette_rgb.len() - i,
        {
            gif_bytes.push(palette_rgb[i]);
            assert(gif_bytes@ =~= start + palette_rgb@.take(i + 1));
            i = i + 1;
        }
        assert(palette_rgb@.take(i as int) =~= palette_rgb@);
        let entries = palette_rgb.len() / 3;
        let bits = self.calculate_color_bits(entries)?;
        let padded: usize = if bits == 0 {
            2
        } else if bits == 1 {
            4
        } else if bits == 2 {
            8
        } else if bits == 3 {
            16
        } else if bits == 4 {
            32
        } else if bits == 5 {
            64
        } else if bits == 6 {
            128
        } else {
            256
        };
        assert(padded == padded_entries(entries as int));
        let fill = 3 * padded - palette_rgb.len();
        let mut j: usize = 0;
        while j < fill
            invariant
                0 <= j <= fill,
                gif_bytes@ == start + palette_rgb@ + zeros(j as int),
            decreases fill - j,
        {
            gif_bytes.push(0);
            assert(gif_bytes@ =~= start + palette_rgb@ + zeros(j + 1));
            j = j + 1;
        }
        assert(gif_bytes@ =~= start + color_table(palette_rgb@));
        Ok(())
    }

    /// The extension that asks for endless repetition.
    pub fn write_netscape_loop(&self, output: &mut Vec<u8>) -> (r: Result<(), GifPipeError>)
        ensures
            r is Ok,
            final(output)@ == old(output)@ + loop_extension(),
    {
        output.push(0x21);
        output.push(0xFF);
        output.push(0x0B);
        output.push(0x4E);
        output.push(0x45);
        output.push(0x54);
        output.push(0x53);
        output.push(0x43);
        output.push(0x41);
        output.push(0x50);
        output.push(0x45);
        output.push(0x32);
        output.push(0x2E);
        output.push(0x30);
        output.push(0x03);
        output.push(0x01);
        let ghost mid = output@;
        assert(mid =~= old(output)@ + seq![0x21u8, 0xFFu8, 0x0Bu8] + netscape() + seq![
            0x03u8,
            0x01u8,
        ]);
        put_le16(output, 0, Le16Field::LoopCount)?;
        output.push(0x00);
        assert(output@ =~= old(output)@ + loop_extension());
        Ok(())
    }

    /// The control block that gives a frame its delay.
    pub fn write_graphic_control(&self, output: &mut Vec<u8>, delay: u16) -> (r: Result<
        (),
        GifPipeError,
    >)
        ensures
            r is Ok,
            final(output)@ == old(output)@ + graphic_control(delay as int),
    {
        output.push(0x21);
        output.push(0xF9);
        output.push(0x04);
        output.push(0x08);
        put_le16(output, delay as u32, Le16Field::Delay)?;
        output.push(0x00);
        output.push(0x00);
        assert(output@ =~= old(output)@ + graphic_control(delay as int));
        Ok(())
    }

    /// The descriptor that places a frame on the canvas.
    pub fn write_image_descriptor(
        &self,
        gif_bytes: &mut Vec<u8>,
        left: u16,
        top: u16,
        width: u16,
        height: u16,
    ) -> (r: Result<(), GifPipeError>)
        ensures
            r is Ok,
            final(gif_bytes)@ == old(gif_bytes)@ + image_descriptor(
                left as int,
                top as int,
                width as int,
                height as int,
            ),
    {
        gif_bytes.push(0x2C);
        put_le16(gif_bytes, left as u32, Le16Field::Width)?;
        put_le16(gif_bytes, top as u32, Le16Field::Height)?;
        put_le16(gif_bytes, width as u32, Le16Field::Width)?;
        put_le16(gif_bytes, height as u32, Le16Field::Height)?;
        gif_bytes.push(0x00);
        assert(gif_bytes@ =~= old(gif_bytes)@ + image_descriptor(
            left as int,
            top as int,
            width as int,
            height as int,
        ));
        Ok(())
    }

    /// The pixels of one frame, compressed.
    pub fn write_lzw_compressed_data(
        &self,
        gif_bytes: &mut Vec<u8>,
        frame_indices: &Vec<u8>,
        mcs: u8,
        dict: &mut LzwDict,
    ) -> (r: Result<(), GifPipeError>)
        requires
            2 <= mcs <= 8,
            symbols_fit(mcs as int, frame_indices@),
            old(dict).wf(),
            old(dict).first_code() == first_free(mcs as int),
        ensures
            r is Ok,
            final(gif_bytes)@ == old(gif_bytes)@ + image_data(frame_indices@, mcs as int),
            final(dict).wf(),
            final(dict).first_code() == first_free(mcs as int),
    {
        gif_bytes.push(mcs);
        let data = lzw_compress(frame_indices, mcs, dict);
        put_sub_blocks(gif_bytes, &data);
        assert(gif_bytes@ =~= old(gif_bytes)@ + image_data(frame_indices@, mcs as int));
        Ok(())
    }

    /// One whole frame: control block, descriptor, pixels.
    pub fn write_gif_frame(
        &self,
        output: &mut Vec<u8>,
        indices: &Vec<u8>,
        delay: u16,
        mcs: u8,
        dict: &mut LzwDict,
    ) -> (r: Result<(), GifPipeError>)
        requires
            2 <= mcs <= 8,
            symbols_fit(mcs as int, indices@),
            old(dict).wf(),
            old(dict).first_code() == first_free(mcs as int),
        ensures
            r is Ok,
            final(output)@ == old(output)@ + frame_block(indices@, delay as int, mcs as int),
            final(dict).wf(),
            final(dict).first_code() == first_free(mcs as int),
    {
        self.write_graphic_control(output, delay)?;
        self.write_image_descriptor(output, 0, 0, 81, 81)?;
        self.write_lzw_compressed_data(output, indices, mcs, dict)?;
        assert(output@ =~= old(output)@ + frame_block(indices@, delay as int, mcs as int));
        Ok(())
    }

    /// The byte that ends the stream.
    pub fn write_gif_trailer(&self, output: &mut Vec<u8>) -> (r: Result<(), GifPipeError>)
        ensures
            r is Ok,
            final(output)@ == old(output)@ + seq![0x3Bu8],
    {
        output.push(0x3B);
        assert(output@ =~= old(output)@ + seq![0x3Bu8]);
        Ok(())
    }

    /// Encodes a cube.  Every frame is shown for `fps_cs` hundredths of a
    /// second; with `loop_forever` the animation repeats without end.
    ///
    /// A cube that fails [`validate_cube`] is refused with that error before
    /// a byte is written; any other cube gives exactly the stream that
    /// [`gif_stream`] describes.
    pub fn encode_from_cube_data(
        &self,
        cube: &QuantizedCubeData,
        fps_cs: u8,
        loop_forever: bool,
    ) -> (r: Result<Vec<u8>, GifPipeError>)
        ensures
            match r {
                Ok(bytes) => {
                    &&& encodable(cube.global_palette_rgb@, cube.planes())
                    &&& bytes@ == gif_stream(
                        cube.global_palette_rgb@,
                        cube.planes(),
                        fps_cs as int,
                        loop_forever,
                    )
                },
                Err(e) => rejected_with(cube.global_palette_rgb@, cube.planes(), e),
            },
    {
        let palette = &cube.global_palette_rgb;
        match validate_cube(palette, &cube.indexed_frames) {
            Err(e) => {
                return Err(e);
            },
            Ok(()) => {},
        }
        let ghost pl = cube.planes();
        let entries = palette.len() / 3;
        let mcs = calculate_min_code_size(entries);
        let ghost m = mcs as int;
        let clear = clear_code_of(mcs);
        proof {
            lemma2_to64();
            assert(entries <= clear);
        }
        let mut dict = LzwDict::new(clear + 2);
        let mut out: Vec<u8> = Vec::new();
        self.write_gif89a_header(&mut out, 81, 81, entries)?;
        self.write_global_color_table(&mut out, palette)?;
        if loop_forever {
            self.write_netscape_loop(&mut out)?;
        }
        assert(out@ =~= preamble(palette@, loop_forever));
        let mut f: usize = 0;
        while f < 81
            invariant
                0 <= f <= 81,
                2 <= mcs <= 8,
                m == mcs as int,
                pl == cube.planes(),
                cube.indexed_frames.len() == 81,
                encodable(cube.global_palette_rgb@, pl),
                entries == cube.global_palette_rgb.len() / 3,
                entries <= clear_code(m),
                dict.wf(),
                dict.first_code() == first_free(m),
                out@ == preamble(cube.global_palette_rgb@, loop_forever) + frame_blocks(
                    pl,
                    fps_cs as int,
                    m,
                    f as int,
                ),
            decreases 81 - f,
        {
            let frame = &cube.indexed_frames[f];
            proof {
                assert(pl[f as int] == frame@);
                assert forall|q: int| 0 <= q < frame@.len() implies (#[trigger] frame@[q] as int)
                    < clear_code(m) by {
                    assert(index_ok(pl, entries as int, f as int, q));
                }
            }
            let ghost before = out@;
            self.write_gif_frame(&mut out, frame, fps_cs as u16, mcs, &mut dict)?;
            proof {
                let pre = preamble(cube.global_palette_rgb@, loop_forever);
                let blocks = frame_blocks(pl, fps_cs as int, m, f as int);
                let block = frame_block(pl[f as int], fps_cs as int, m);
                assert(out@ =~= pre + (blocks + block));
            }
            f = f + 1;
        }
        self.write_gif_trailer(&mut out)?;
        Ok(out)
    }
}

} // verus!
