//! The validator: a structural look at a byte stream.  It decodes nothing; it
//! finds the signature, the loop marker, the image separators and the trailer.

use crate::cube::encodable;
use crate::error::GifPipeError;
use crate::stream::{
    color_table, count_byte, ends_with_trailer, frame_blocks, gif_stream, lemma_stream_framing,
    lemma_stream_loop_marker, lemma_stream_separators, min_code_size, netscape, occurs, occurs_at,
    screen_descriptor, signature, starts_with_signature,
};
use vstd::prelude::*;

verus! {

/// What the validator found in a stream.
#[derive(Debug)]
pub struct GifValidation {
    /// Header, loop marker and trailer are there, and exactly 81 separators.
    pub is_valid: bool,
    /// The first six bytes are `GIF89a`.
    pub has_valid_header: bool,
    /// `NETSCAPE2.0` stands somewhere in the stream.
    pub has_loop_extension: bool,
    /// The last byte is the trailer.
    pub has_trailer: bool,
    /// Number of image separator bytes, or the largest `u32` if there are more.
    pub frame_count: u32,
    /// What is missing, in words.
    pub errors: Vec<String>,
}

/// The texts of a list of strings.
pub open spec fn texts(v: Seq<String>) -> Seq<Seq<char>> {
    Seq::new(v.len(), |i: int| v[i]@)
}

/// Number of image separators as the report gives it.
pub open spec fn separators_reported(s: Seq<u8>) -> int {
    if count_byte(s, 0x2Cu8) <= u32::MAX {
        count_byte(s, 0x2Cu8) as int
    } else {
        u32::MAX as int
    }
}

/// What makes a stream valid for the validator.
pub open spec fn stream_is_valid(s: Seq<u8>) -> bool {
    &&& starts_with_signature(s)
    &&& occurs(s, netscape())
    &&& ends_with_trailer(s)
    &&& separators_reported(s) == 81
}

/// The complaints about a stream, in the order in which they are made.
pub open spec fn complaints(s: Seq<u8>) -> Seq<Seq<char>> {
    (if s.len() < 13 {
        seq!["GIF too small (< 13 bytes)"@]
    } else {
        Seq::empty()
    }) + (if !starts_with_signature(s) {
        seq!["Missing GIF89a header"@]
    } else {
        Seq::empty()
    }) + (if !ends_with_trailer(s) {
        seq!["Missing GIF trailer (0x3B)"@]
    } else {
        Seq::empty()
    })
}

/// The report says of `s` what the definitions above say.
pub open spec fn reports(v: GifValidation, s: Seq<u8>) -> bool {
    &&& v.has_valid_header == starts_with_signature(s)
    &&& v.has_loop_extension == occurs(s, netscape())
    &&& v.has_trailer == ends_with_trailer(s)
    &&& v.frame_count == separators_reported(s)
    &&& v.is_valid == stream_is_valid(s)
    &&& texts(v.errors@) == complaints(s)
}

/// The eleven bytes `NETSCAPE2.0`.
pub fn netscape_marker() -> (v: Vec<u8>)
    ensures
        v@ == netscape(),
{
    let mut v: Vec<u8> = Vec::new();
    v.push(0x4E);
    v.push(0x45);
    v.push(0x54);
    v.push(0x53);
    v.push(0x43);
    v.push(0x41);
    v.push(0x50);
    v.push(0x45);
    v.push(0x32);
    v.push(0x2E);
    v.push(0x30);
    assert(v@ =~= netscape());
    v
}

/// Whether `pat` stands in `bytes` at offset `at`.
pub fn matches_at(bytes: &Vec<u8>, pat: &Vec<u8>, at: usize) -> (r: bool)
    ensures
        r == occurs_at(bytes@, pat@, at as int),
{
    if pat.len() > bytes.len() || at > bytes.len() - pat.len() {
        return false;
    }
    let mut k: usize = 0;
    while k < pat.len()
        invariant
            0 <= k <= pat.len(),
            at + pat.len() <= bytes.len(),
            forall|t: int| 0 <= t < k ==> bytes[at + t] == pat[t],
        decreases pat.len() - k,
    {
        if bytes[at + k] != pat[k] {
            assert(bytes@.subrange(at as int, at + pat.len())[k as int] != pat@[k as int]);
            return false;
        }
        k = k + 1;
    }
    assert(bytes@.subrange(at as int, at + pat.len()) =~= pat@);
    true
}

/// Whether `pat` stands somewhere in `bytes`.
pub fn contains_pattern(bytes: &Vec<u8>, pat: &Vec<u8>) -> (r: bool)
    ensures
        r == occurs(bytes@, pat@),
{
    if pat.len() > bytes.len() {
        assert forall|i: int| !occurs_at(bytes@, pat@, i) by {}
        return false;
    }
    let last = bytes.len() - pat.len();
    let mut i: usize = 0;
    while i < last
        invariant
            0 <= i <= last,
            last == bytes.len() - pat.len(),
            forall|j: int| 0 <= j < i ==> !occurs_at(bytes@, pat@, j),
        decreases last - i,
    {
        if matches_at(bytes, pat, i) {
            return true;
        }
        i = i + 1;
    }
    if matches_at(bytes, pat, last) {
        return true;
    }
    assert forall|j: int| !occurs_at(bytes@, pat@, j) by {}
    false
}

/// How often `b` occurs in `bytes`.
pub fn count_occurrences(bytes: &Vec<u8>, b: u8) -> (n: usize)
    ensures
        n == count_byte(bytes@, b),
{
    let mut n: usize = 0;
    let mut i: usize = 0;
    assert(bytes@.take(0) =~= Seq::<u8>::empty());
    while i < bytes.len()
        invariant
            0 <= i <= bytes.len(),
            n <= i,
            n == count_byte(bytes@.take(i as int), b),
        decreases bytes.len() - i,
    {
        assert(bytes@.take(i + 1).drop_last() =~= bytes@.take(i as int));
        if bytes[i] == b {
            n = n + 1;
        }
        i = i + 1;
    }
    assert(bytes@.take(i as int) =~= bytes@);
    n
}

/// Looks at a stream and reports what it finds.  Every stream gets a report.
pub fn validate_gif_bytes(gif_bytes: Vec<u8>) -> (r: Result<GifValidation, GifPipeError>)
    ensures
        r matches Ok(v) && reports(v, gif_bytes@),
{
    let ghost s = gif_bytes@;
    let mut errors: Vec<String> = Vec::new();
    if gif_bytes.len() < 13 {
        errors.push("GIF too small (< 13 bytes)".to_owned());
    }
    let ghost first = texts(errors@);
    assert(first =~= if s.len() < 13 {
        seq!["GIF too small (< 13 bytes)"@]
    } else {
        Seq::empty()
    });
    let header = signature_bytes();
    let has_valid_header = matches_at(&gif_bytes, &header, 0);
    if !has_valid_header {
        errors.push("Missing GIF89a header".to_owned());
    }
    let ghost second = texts(errors@);
    assert(second =~= first + if !starts_with_signature(s) {
        seq!["Missing GIF89a header"@]
    } else {
        Seq::empty()
    });
    let marker = netscape_marker();
    let has_loop_extension = contains_pattern(&gif_bytes, &marker);
    let count = count_occurrences(&gif_bytes, 0x2C);
    let frame_count: u32 = if count <= u32::MAX as usize {
        count as u32
    } else {
        u32::MAX
    };
    let has_trailer = gif_bytes.len() > 0 && gif_bytes[gif_bytes.len() - 1] == 0x3B;
    if !has_trailer {
        errors.push("Missing GIF trailer (0x3B)".to_owned());
    }
    assert(texts(errors@) =~= second + if !ends_with_trailer(s) {
        seq!["Missing GIF trailer (0x3B)"@]
    } else {
        Seq::empty()
    });
    let is_valid = has_valid_header && has_loop_extension && has_trailer && frame_count == 81;
    Ok(
        GifValidation {
            is_valid,
            has_valid_header,
            has_loop_extension,
            has_trailer,
            frame_count,
            errors,
        },
    )
}

/// The six bytes `GIF89a`.
pub fn signature_bytes() -> (v: Vec<u8>)
    ensures
        v@ == signature(),
{
    let mut v: Vec<u8> = Vec::new();
    v.push(0x47);
    v.push(0x49);
    v.push(0x46);
    v.push(0x38);
    v.push(0x39);
    v.push(0x61);
    assert(v@ =~= signature());
    v
}

/// The stream of every encodable cube has its signature, its trailer and at
/// least 81 image separators, and the loop marker if it was asked for.  It
/// is valid for the validator exactly if, beside that, the loop marker is in
/// it and no further byte of it equals the image separator.
pub proof fn lemma_encoded_stream_report(
    palette: Seq<u8>,
    frames: Seq<Seq<u8>>,
    delay: int,
    loop_forever: bool,
)
    requires
        encodable(palette, frames),
    ensures
        starts_with_signature(gif_stream(palette, frames, delay, loop_forever)),
        ends_with_trailer(gif_stream(palette, frames, delay, loop_forever)),
        separators_reported(gif_stream(palette, frames, delay, loop_forever)) >= 81,
        loop_forever ==> occurs(gif_stream(palette, frames, delay, loop_forever), netscape()),
        stream_is_valid(gif_stream(palette, frames, delay, loop_forever)) <==> occurs(
            gif_stream(palette, frames, delay, loop_forever),
            netscape(),
        ) && count_byte(gif_stream(palette, frames, delay, loop_forever), 0x2Cu8) == 81,
{
    lemma_stream_framing(palette, frames, delay, loop_forever);
    lemma_stream_separators(palette, frames, delay, loop_forever);
    if loop_forever {
        lemma_stream_loop_marker(palette, frames, delay);
    }
}

/// Where neither the colour table nor the frame blocks happen to spell
/// `NETSCAPE2.0`, the stream holds that marker exactly if it was written to
/// loop for ever.
pub proof fn lemma_loop_marker_iff_requested(
    palette: Seq<u8>,
    frames: Seq<Seq<u8>>,
    delay: int,
    loop_forever: bool,
)
    requires
        !occurs(
            color_table(palette) + frame_blocks(
                frames,
                delay,
                min_code_size(palette.len() as int / 3),
                frames.len() as int,
            ),
            netscape(),
        ),
    ensures
        occurs(gif_stream(palette, frames, delay, loop_forever), netscape()) <==> loop_forever,
{
    if loop_forever {
        lemma_stream_loop_marker(palette, frames, delay);
    } else {
        let s = gif_stream(palette, frames, delay, false);
        let head = signature() + screen_descriptor(81, 81, palette.len() as int / 3);
        let body = color_table(palette) + frame_blocks(
            frames,
            delay,
            min_code_size(palette.len() as int / 3),
            frames.len() as int,
        );
        assert(s =~= head + body + seq![0x3Bu8]);
        assert(head.len() == 13);
        assert forall|i: int| !occurs_at(s, netscape(), i) by {
            if occurs_at(s, netscape(), i) {
                let found = s.subrange(i, i + 11);
                assert(found[0] == 0x4Eu8);
                assert(found[10] == 0x30u8);
                assert(s[i] == 0x4Eu8);
                assert(s[i + 10] == 0x30u8);
                if i < 13 {
                    assert(s[i] == head[i]);
                    assert(false);
                }
                assert(s[s.len() - 1] == 0x3Bu8);
                assert(i + 11 <= s.len() - 1);
                assert(body.subrange(i - 13, i - 13 + 11) =~= found);
                assert(occurs_at(body, netscape(), i - 13));
            }
        }
    }
}

} // verus!
