//! The animated bitmap as a sequence of bytes: what the encoder must emit,
//! block by block.

use crate::lzw::lzw_bytes;
use vstd::prelude::*;

verus! {

/// Image separator: the byte that opens an image descriptor.
pub const IMAGE_SEPARATOR: u8 = 0x2C;

/// The byte that ends the stream.
pub const TRAILER: u8 = 0x3B;

/// The signature `GIF89a`.
pub open spec fn signature() -> Seq<u8> {
    seq![0x47u8, 0x49u8, 0x46u8, 0x38u8, 0x39u8, 0x61u8]
}

/// The application identifier `NETSCAPE2.0`.
pub open spec fn netscape() -> Seq<u8> {
    seq![0x4Eu8, 0x45u8, 0x54u8, 0x53u8, 0x43u8, 0x41u8, 0x50u8, 0x45u8, 0x32u8, 0x2Eu8, 0x30u8]
}

/// A sixteen-bit value, low byte first.
pub open spec fn le16(v: int) -> Seq<u8> {
    seq![(v % 256) as u8, (v / 256) as u8]
}

/// The size field of a colour table that holds `entries` colours: the table
/// has two to the (field + 1) entries, the least power of two that is enough.
pub open spec fn color_bits(entries: int) -> int {
    if entries <= 2 {
        0
    } else if entries <= 4 {
        1
    } else if entries <= 8 {
        2
    } else if entries <= 16 {
        3
    } else if entries <= 32 {
        4
    } else if entries <= 64 {
        5
    } else if entries <= 128 {
        6
    } else {
        7
    }
}

/// Entries of the colour table once it is padded to a power of two.
pub open spec fn padded_entries(entries: int) -> int {
    if entries <= 2 {
        2
    } else if entries <= 4 {
        4
    } else if entries <= 8 {
        8
    } else if entries <= 16 {
        16
    } else if entries <= 32 {
        32
    } else if entries <= 64 {
        64
    } else if entries <= 128 {
        128
    } else {
        256
    }
}

/// Bits of one uncompressed symbol: enough for the padded palette, and never
/// fewer than two.
pub open spec fn min_code_size(entries: int) -> int {
    if entries <= 4 {
        2
    } else {
        color_bits(entries) + 1
    }
}

/// Logical screen descriptor: the size of the canvas, then a packed byte with
/// the table flag set, eight bits of colour resolution, the sort flag clear
/// and the table size; background index 0 and no aspect ratio.
pub open spec fn screen_descriptor(width: int, height: int, entries: int) -> Seq<u8> {
    le16(width) + le16(height) + seq![(0xF0 + color_bits(entries)) as u8, 0u8, 0u8]
}

/// `n` zero bytes.
pub open spec fn zeros(n: int) -> Seq<u8> {
    Seq::new(n as nat, |i: int| 0u8)
}

/// Global colour table: the palette, then black entries up to the padded size.
pub open spec fn color_table(palette: Seq<u8>) -> Seq<u8> {
    palette + zeros(3 * padded_entries(palette.len() as int / 3) - palette.len())
}

/// Application extension that makes a player repeat the animation for ever.
pub open spec fn loop_extension() -> Seq<u8> {
    seq![0x21u8, 0xFFu8, 0x0Bu8] + netscape() + seq![0x03u8, 0x01u8, 0x00u8, 0x00u8, 0x00u8]
}

/// Graphic control extension of one frame: restore to background after
/// `delay` hundredths of a second, nothing transparent.
pub open spec fn graphic_control(delay: int) -> Seq<u8> {
    seq![0x21u8, 0xF9u8, 0x04u8, 0x08u8] + le16(delay) + seq![0x00u8, 0x00u8]
}

/// Image descriptor: a frame at (`left`, `top`) of the given size, without a
/// colour table of its own and not interlaced.
pub open spec fn image_descriptor(left: int, top: int, width: int, height: int) -> Seq<u8> {
    seq![0x2Cu8] + le16(left) + le16(top) + le16(width) + le16(height) + seq![0x00u8]
}

/// `data` cut into blocks of at most 255 bytes, each behind its length, and
/// closed by an empty block.
pub open spec fn sub_blocks(data: Seq<u8>) -> Seq<u8>
    decreases data.len(),
{
    if data.len() == 0 {
        seq![0u8]
    } else {
        let n = if data.len() < 255 {
            data.len() as int
        } else {
            255
        };
        seq![n as u8] + data.take(n) + sub_blocks(data.skip(n))
    }
}

/// The compressed pixels of one frame: the symbol size, then the code stream
/// in blocks.
pub open spec fn image_data(indices: Seq<u8>, mcs: int) -> Seq<u8> {
    seq![mcs as u8] + sub_blocks(lzw_bytes(mcs, indices))
}

/// Everything that one frame adds to the stream.
pub open spec fn frame_block(indices: Seq<u8>, delay: int, mcs: int) -> Seq<u8> {
    graphic_control(delay) + image_descriptor(0, 0, 81, 81) + image_data(indices, mcs)
}

/// The blocks of the first `n` frames, in order.
pub open spec fn frame_blocks(frames: Seq<Seq<u8>>, delay: int, mcs: int, n: int) -> Seq<u8>
    decreases n,
{
    if n <= 0 {
        Seq::empty()
    } else {
        frame_blocks(frames, delay, mcs, n - 1) + frame_block(frames[n - 1], delay, mcs)
    }
}

/// What stands before the first frame.
pub open spec fn preamble(palette: Seq<u8>, loop_forever: bool) -> Seq<u8> {
    signature() + screen_descriptor(81, 81, palette.len() as int / 3) + color_table(palette) + (
    if loop_forever {
        loop_extension()
    } else {
        Seq::empty()
    })
}

/// The whole stream for a palette and its index planes.
pub open spec fn gif_stream(
    palette: Seq<u8>,
    frames: Seq<Seq<u8>>,
    delay: int,
    loop_forever: bool,
) -> Seq<u8> {
    preamble(palette, loop_forever) + frame_blocks(
        frames,
        delay,
        min_code_size(palette.len() as int / 3),
        frames.len() as int,
    ) + seq![0x3Bu8]
}

/// How often `b` occurs in `s`.
pub open spec fn count_byte(s: Seq<u8>, b: u8) -> nat
    decreases s.len(),
{
    if s.len() == 0 {
        0
    } else {
        count_byte(s.drop_last(), b) + if s.last() == b {
            1nat
        } else {
            0nat
        }
    }
}

/// `pat` stands in `s` at offset `i`.
pub open spec fn occurs_at(s: Seq<u8>, pat: Seq<u8>, i: int) -> bool {
    0 <= i && i + pat.len() <= s.len() && s.subrange(i, i + pat.len()) == pat
}

/// `pat` stands somewhere in `s`.
pub open spec fn occurs(s: Seq<u8>, pat: Seq<u8>) -> bool {
    exists|i: int| occurs_at(s, pat, i)
}

/// `s` opens with the signature.
pub open spec fn starts_with_signature(s: Seq<u8>) -> bool {
    occurs_at(s, signature(), 0)
}

/// `s` closes with the trailer byte.
pub open spec fn ends_with_trailer(s: Seq<u8>) -> bool {
    s.len() > 0 && s.last() == 0x3Bu8
}

/// A byte occurs in two rows joined as often as in both together.
pub proof fn lemma_count_concat(a: Seq<u8>, b: Seq<u8>, x: u8)
    ensures
        count_byte(a + b, x) == count_byte(a, x) + count_byte(b, x),
    decreases b.len(),
{
    if b.len() == 0 {
        assert(a + b =~= a);
    } else {
        assert((a + b).drop_last() =~= a + b.drop_last());
        lemma_count_concat(a, b.drop_last(), x);
    }
}

/// A byte occurs once in the row that holds only it, and no other byte does.
pub proof fn lemma_count_single(b: u8, x: u8)
    ensures
        count_byte(seq![b], x) == if b == x {
            1nat
        } else {
            0nat
        },
{
    assert(seq![b].drop_last() =~= Seq::<u8>::empty());
    assert(count_byte(Seq::<u8>::empty(), x) == 0);
}

/// Every frame block holds at least one image separator.
pub proof fn lemma_frame_block_has_separator(indices: Seq<u8>, delay: int, mcs: int)
    ensures
        count_byte(frame_block(indices, delay, mcs), 0x2Cu8) >= 1,
{
    let g = graphic_control(delay);
    let d = image_descriptor(0, 0, 81, 81);
    let rest = le16(0) + le16(0) + le16(81) + le16(81) + seq![0x00u8];
    assert(d =~= seq![0x2Cu8] + rest);
    lemma_count_single(0x2Cu8, 0x2Cu8);
    lemma_count_concat(seq![0x2Cu8], rest, 0x2Cu8);
    lemma_count_concat(g, d, 0x2Cu8);
    lemma_count_concat(g + d, image_data(indices, mcs), 0x2Cu8);
}

/// The blocks of `n` frames hold at least `n` image separators.
pub proof fn lemma_frame_blocks_separators(frames: Seq<Seq<u8>>, delay: int, mcs: int, n: int)
    requires
        0 <= n,
    ensures
        count_byte(frame_blocks(frames, delay, mcs, n), 0x2Cu8) >= n,
    decreases n,
{
    if n > 0 {
        lemma_frame_blocks_separators(frames, delay, mcs, n - 1);
        lemma_frame_block_has_separator(frames[n - 1], delay, mcs);
        lemma_count_concat(
            frame_blocks(frames, delay, mcs, n - 1),
            frame_block(frames[n - 1], delay, mcs),
            0x2Cu8,
        );
    }
}

/// The stream of a cube opens with the signature and closes with the trailer.
pub proof fn lemma_stream_framing(
    palette: Seq<u8>,
    frames: Seq<Seq<u8>>,
    delay: int,
    loop_forever: bool,
)
    ensures
        starts_with_signature(gif_stream(palette, frames, delay, loop_forever)),
        ends_with_trailer(gif_stream(palette, frames, delay, loop_forever)),
{
    let s = gif_stream(palette, frames, delay, loop_forever);
    assert(s.subrange(0, 6) =~= signature());
}

/// The stream of a cube holds at least one image separator per frame.
pub proof fn lemma_stream_separators(
    palette: Seq<u8>,
    frames: Seq<Seq<u8>>,
    delay: int,
    loop_forever: bool,
)
    ensures
        count_byte(gif_stream(palette, frames, delay, loop_forever), 0x2Cu8) >= frames.len(),
{
    let mcs = min_code_size(palette.len() as int / 3);
    let pre = preamble(palette, loop_forever);
    let blocks = frame_blocks(frames, delay, mcs, frames.len() as int);
    lemma_frame_blocks_separators(frames, delay, mcs, frames.len() as int);
    lemma_count_concat(pre, blocks, 0x2Cu8);
    lemma_count_concat(pre + blocks, seq![0x3Bu8], 0x2Cu8);
}

/// A stream written to loop for ever holds `NETSCAPE2.0`, right behind the
/// extension's three opening bytes after the colour table.
pub proof fn lemma_stream_loop_marker(palette: Seq<u8>, frames: Seq<Seq<u8>>, delay: int)
    ensures
        occurs(gif_stream(palette, frames, delay, true), netscape()),
{
    let s = gif_stream(palette, frames, delay, true);
    let head = signature() + screen_descriptor(81, 81, palette.len() as int / 3) + color_table(
        palette,
    );
    let at = head.len() as int + 3;
    assert(s.subrange(at, at + 11) =~= netscape());
    assert(occurs_at(s, netscape(), at));
}

} // verus!
