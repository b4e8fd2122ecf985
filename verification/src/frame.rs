//! Captured frames as they arrive from the camera: RGBA rows that may carry
//! padding behind each row.

use vstd::prelude::*;

verus! {

/// The rows `from .. to` of a padded buffer, each cut to `row_bytes` bytes.
/// A row that would reach past the end of the buffer is left out.
pub open spec fn packed_rows(data: Seq<u8>, stride: int, row_bytes: int, from: int, to: int) -> Seq<
    u8,
>
    decreases to - from,
{
    if to <= from {
        Seq::empty()
    } else {
        packed_rows(data, stride, row_bytes, from, to - 1) + if (to - 1) * stride + row_bytes
            <= data.len() {
            data.subrange((to - 1) * stride, (to - 1) * stride + row_bytes)
        } else {
            Seq::empty()
        }
    }
}

/// The pixels of a frame without row padding.  Where the stride is exactly
/// one row of pixels the buffer is taken as it is.
pub open spec fn tight_rgba(data: Seq<u8>, width: int, height: int, stride: int) -> Seq<u8> {
    if stride == width * 4 {
        data
    } else {
        packed_rows(data, stride, width * 4, 0, height)
    }
}

/// Every row of the frame lies inside the buffer.
pub open spec fn rows_in_bounds(data: Seq<u8>, width: int, height: int, stride: int) -> bool {
    height > 0 ==> (height - 1) * stride + width * 4 <= data.len()
}

/// With every row inside the buffer, the tight form has one row of pixels per
/// row of the frame.
pub proof fn lemma_packed_rows_len(data: Seq<u8>, stride: int, row_bytes: int, to: int)
    requires
        0 <= to,
        0 <= stride,
        0 <= row_bytes,
        to > 0 ==> (to - 1) * stride + row_bytes <= data.len(),
    ensures
        packed_rows(data, stride, row_bytes, 0, to).len() == to * row_bytes,
    decreases to,
{
    if to > 0 {
        assert((to - 2) * stride <= (to - 1) * stride) by (nonlinear_arith)
            requires
                0 <= stride,
        ;
        lemma_packed_rows_len(data, stride, row_bytes, to - 1);
        assert((to - 1) * row_bytes + row_bytes == to * row_bytes) by (nonlinear_arith);
    } else {
        assert(to * row_bytes == 0);
    }
}

/// Copies the rows of a padded buffer into a tight one.
pub fn copy_rows(data: &Vec<u8>, width: u32, height: u32, stride: u32) -> (out: Vec<u8>)
    ensures
        out@ == packed_rows(data@, stride as int, width as int * 4, 0, height as int),
{
    let row_bytes: u64 = width as u64 * 4;
    let mut out: Vec<u8> = Vec::new();
    let mut y: u32 = 0;
    while y < height
        invariant
            0 <= y <= height,
            row_bytes == width as int * 4,
            out@ == packed_rows(data@, stride as int, width as int * 4, 0, y as int),
        decreases height - y,
    {
        assert(y as int * stride as int <= 0xFFFF_FFFF * 0xFFFF_FFFF) by (nonlinear_arith)
            requires
                0 <= y <= 0xFFFF_FFFF,
                0 <= stride <= 0xFFFF_FFFF,
        ;
        let row_start: u64 = y as u64 * stride as u64;
        let len: u64 = data.len() as u64;
        if row_start <= len && row_bytes <= len - row_start {
            let ghost before = out@;
            let start = row_start as usize;
            let n = row_bytes as usize;
            let mut j: usize = 0;
            while j < n
                invariant
                    0 <= j <= n,
                    start + n <= data.len(),
                    out@ == before + data@.subrange(start as int, start + j),
                decreases n - j,
            {
                out.push(data[start + j]);
                assert(out@ =~= before + data@.subrange(start as int, start + j + 1));
                j = j + 1;
            }
        } else {
            assert(out@ =~= out@ + Seq::<u8>::empty());
        }
        y = y + 1;
    }
    out
}

/// A copy of `data`.
pub fn copy_bytes(data: &Vec<u8>) -> (out: Vec<u8>)
    ensures
        out@ == data@,
{
    let mut out: Vec<u8> = Vec::new();
    let mut i: usize = 0;
    while i < data.len()
        invariant
            0 <= i <= data.len(),
            out@ == data@.take(i as int),
        decreases data.len() - i,
    {
        out.push(data[i]);
        assert(out@ =~= data@.take(i + 1));
        i = i + 1;
    }
    assert(data@.take(i as int) =~= data@);
    out
}

/// A frame in the first record layout.
#[derive(Debug, Clone)]
pub struct CborFrame {
    /// Schema version.
    pub v: u32,
    /// Timestamp in milliseconds.
    pub ts: u64,
    pub w: u32,
    pub h: u32,
    /// Pixel format, always `RGBA8888`.
    pub fmt: String,
    /// Bytes from one row to the next; may exceed four times the width.
    pub stride: u32,
    /// Whether colour is premultiplied by alpha.
    pub premul: bool,
    pub colorspace: String,
    /// The pixels, rows padded to the stride.
    pub rgba: Vec<u8>,
}

impl CborFrame {
    pub fn new(width: u32, height: u32, rgba_data: Vec<u8>, stride: u32, timestamp_ms: u64) -> (f:
        Self)
        ensures
            f.v == 1,
            f.ts == timestamp_ms,
            f.w == width,
            f.h == height,
            f.fmt@ == "RGBA8888"@,
            f.stride == stride,
            !f.premul,
            f.colorspace@ == "sRGB"@,
            f.rgba == rgba_data,
    {
        CborFrame {
            v: 1,
            ts: timestamp_ms,
            w: width,
            h: height,
            fmt: "RGBA8888".to_owned(),
            stride,
            premul: false,
            colorspace: "sRGB".to_owned(),
            rgba: rgba_data,
        }
    }

    /// The pixels without row padding.  A row that the buffer does not hold
    /// in full is left out.
    pub fn get_packed_rgba(&self) -> (out: Vec<u8>)
        ensures
            out@ == tight_rgba(self.rgba@, self.w as int, self.h as int, self.stride as int),
    {
        if self.stride as u64 == self.w as u64 * 4 {
            copy_bytes(&self.rgba)
        } else {
            copy_rows(&self.rgba, self.w, self.h, self.stride)
        }
    }
}

/// A frame in the layout that the capture stage writes today.
#[derive(Debug, Clone)]
pub struct CurrentCborFrame {
    pub data: Vec<u8>,
    pub stride: u32,
    pub width: u32,
    pub height: u32,
    pub format: String,
    pub timestamp_ms: u64,
}

impl CurrentCborFrame {
    pub fn new(
        data: Vec<u8>,
        stride: u32,
        width: u32,
        height: u32,
        format: String,
        timestamp_ms: u64,
    ) -> (f: Self)
        ensures
            f.data == data,
            f.stride == stride,
            f.width == width,
            f.height == height,
            f.format == format,
            f.timestamp_ms == timestamp_ms,
    {
        CurrentCborFrame { data, stride, width, height, format, timestamp_ms }
    }

    /// The pixels without row padding.  Every row must lie inside the buffer.
    pub fn get_rgba_row_data(&self) -> (out: Vec<u8>)
        requires
            self.stride != self.width * 4 ==> rows_in_bounds(
                self.data@,
                self.width as int,
                self.height as int,
                self.stride as int,
            ),
        ensures
            out@ == tight_rgba(self.data@, self.width as int, self.height as int, self.stride as int),
            self.stride != self.width * 4 ==> out@.len() == self.width * self.height * 4,
    {
        if self.stride as u64 == self.width as u64 * 4 {
            copy_bytes(&self.data)
        } else {
            proof {
                lemma_packed_rows_len(
                    self.data@,
                    self.stride as int,
                    self.width as int * 4,
                    self.height as int,
                );
                assert(self.height as int * (self.width as int * 4) == self.width * self.height * 4)
                    by (nonlinear_arith);
            }
            copy_rows(&self.data, self.width, self.height, self.stride)
        }
    }
}

/// The CRC-32 checksum of a row of bytes.
pub uninterp spec fn crc32_of(data: Seq<u8>) -> u32;

/// `crc32fast::hash`: the CRC-32 checksum of the bytes, which depends on the
/// bytes alone.
#[verifier::external_body]
fn crc32(data: &Vec<u8>) -> (checksum: u32)
    ensures
        checksum == crc32_of(data@),
{
    crc32fast::hash(data.as_slice())
}

/// Version 2.0 of the frame record.
pub const VERSION_2: u16 = 0x0200;

/// The pixel format RGBA with eight bits per channel.
pub const PIXEL_FORMAT_RGBA8888: u32 = 0x01;

/// The camera handed over fewer bytes than the rows of the frame take.
#[derive(Clone, Copy, Debug, PartialEq, Eq, Structural)]
pub struct InsufficientData {
    pub got: usize,
    pub expected: usize,
}

/// A frame in the second record layout: tightly packed pixels under a
/// checksum.  Colour space and camera settings travel beside it.
#[derive(Debug, Clone)]
pub struct CborFrameV2 {
    /// Schema version, 0x0200.
    pub version: u16,
    /// Place of the frame in the cube, 0 to 80.
    pub frame_index: u16,
    pub timestamp_ms: u64,
    /// CRC-32 of `rgba_data`.
    pub checksum: u32,
    pub width: u16,
    pub height: u16,
    /// Bytes from one row to the next.
    pub stride: u32,
    /// 0x01 for RGBA with eight bits per channel.
    pub pixel_format: u32,
    pub rgba_data: Vec<u8>,
}

impl CborFrameV2 {
    /// A frame around pixels that are taken as they are.
    pub fn new(
        width: u16,
        height: u16,
        rgba_data: Vec<u8>,
        stride: u32,
        frame_index: u16,
        timestamp_ms: u64,
    ) -> (f: Self)
        ensures
            f.version == 0x0200,
            f.frame_index == frame_index,
            f.timestamp_ms == timestamp_ms,
            f.checksum == crc32_of(rgba_data@),
            f.width == width,
            f.height == height,
            f.stride == stride,
            f.pixel_format == 0x01,
            f.rgba_data == rgba_data,
            f.intact(),
    {
        let checksum = crc32(&rgba_data);
        CborFrameV2 {
            version: VERSION_2,
            frame_index,
            timestamp_ms,
            checksum,
            width,
            height,
            stride,
            pixel_format: PIXEL_FORMAT_RGBA8888,
            rgba_data,
        }
    }

    /// A frame from what the camera hands over: `height` rows, `stride`
    /// bytes apart.  Row padding is dropped, so the frame is tight.  Fewer
    /// bytes than `height * stride` are refused.
    pub fn from_camera_data(
        raw_data: &Vec<u8>,
        width: u16,
        height: u16,
        stride: u32,
        frame_index: u16,
        timestamp_ms: u64,
    ) -> (r: Result<Self, InsufficientData>)
        ensures
            raw_data.len() < height * stride ==> r == Err::<Self, InsufficientData>(
                InsufficientData { got: raw_data.len(), expected: (height * stride) as usize },
            ),
            raw_data.len() >= height * stride ==> (r matches Ok(f) && {
                &&& f.version == 0x0200
                &&& f.frame_index == frame_index
                &&& f.timestamp_ms == timestamp_ms
                &&& f.width == width
                &&& f.height == height
                &&& f.stride == width * 4
                &&& f.pixel_format == 0x01
                &&& f.rgba_data@ == if stride == width * 4 {
                    raw_data@.take(height * stride)
                } else {
                    packed_rows(raw_data@, stride as int, width as int * 4, 0, height as int)
                }
                &&& f.intact()
            }),
    {
        assert(height * stride <= 0xFFFF * 0xFFFF_FFFF) by (nonlinear_arith)
            requires
                0 <= height <= 0xFFFF,
                0 <= stride <= 0xFFFF_FFFF,
        ;
        let expected: u64 = height as u64 * stride as u64;
        if (raw_data.len() as u64) < expected {
            return Err(InsufficientData { got: raw_data.len(), expected: expected as usize });
        }
        let rgba_data = if stride == width as u32 * 4 {
            let n = expected as usize;
            let mut copy: Vec<u8> = Vec::new();
            let mut i: usize = 0;
            while i < n
                invariant
                    0 <= i <= n <= raw_data.len(),
                    copy@ == raw_data@.take(i as int),
                decreases n - i,
            {
                copy.push(raw_data[i]);
                assert(copy@ =~= raw_data@.take(i + 1));
                i = i + 1;
            }
            copy
        } else {
            copy_rows(raw_data, width as u32, height as u32, stride)
        };
        let checksum = crc32(&rgba_data);
        Ok(
            CborFrameV2 {
                version: VERSION_2,
                frame_index,
                timestamp_ms,
                checksum,
                width,
                height,
                stride: width as u32 * 4,
                pixel_format: PIXEL_FORMAT_RGBA8888,
                rgba_data,
            },
        )
    }

    /// The checksum is that of the pixels.
    pub open spec fn intact(&self) -> bool {
        self.checksum == crc32_of(self.rgba_data@)
    }

    /// Whether the checksum is that of the pixels.
    pub fn verify_integrity(&self) -> (ok: bool)
        ensures
            ok == self.intact(),
    {
        crc32(&self.rgba_data) == self.checksum
    }

    /// A first look at the pixels: channel means, clipped and non-opaque
    /// counts, and a histogram of sixteen bins per colour channel.
    pub fn get_statistics(&self) -> (stats: FrameStatistics)
        requires
            0 < self.width * self.height <= 0x3FFF_FFFF,
            self.rgba_data.len() >= self.width * self.height * 4,
        ensures
            stats.describes(self.rgba_data@, self.width * self.height),
    {
        assert(self.width * self.height <= 0xFFFF * 0xFFFF) by (nonlinear_arith)
            requires
                0 <= self.width <= 0xFFFF,
                0 <= self.height <= 0xFFFF,
        ;
        let pixels: usize = (self.width as u32 * self.height as u32) as usize;
        let data = &self.rgba_data;
        let mut sums: Vec<u64> = vec![0u64; 4];
        let mut clipped: u32 = 0;
        let mut non_opaque: u32 = 0;
        let mut bins: Vec<u32> = vec![0u32; 48];
        let mut n: usize = 0;
        while n < pixels
            invariant
                0 <= n <= pixels <= 0x3FFF_FFFF,
                data.len() >= pixels * 4,
                sums.len() == 4,
                bins.len() == 48,
                forall|c: int| 0 <= c < 4 ==> (#[trigger] sums[c]) == channel_total(data@, c, n as int),
                clipped == clipped_values(data@, n as int),
                non_opaque == non_opaque_pixels(data@, n as int),
                forall|k: int|
                    0 <= k < 48 ==> (#[trigger] bins[k]) == bin_count(data@, k / 16, k % 16, n as int),
            decreases pixels - n,
        {
            proof {
                lemma_statistics_bounds(data@, n as int);
            }
            let ghost sums_before = sums@;
            let ghost bins_before = bins@;
            let mut c: usize = 0;
            while c < 4
                invariant
                    0 <= c <= 4,
                    n < pixels <= 0x3FFF_FFFF,
                    data.len() >= pixels * 4,
                    sums.len() == 4,
                    forall|d: int|
                        0 <= d < 4 ==> (#[trigger] sums[d]) == channel_total(
                            data@,
                            d,
                            if d < c {
                                n + 1
                            } else {
                                n as int
                            },
                        ),
                decreases 4 - c,
            {
                proof {
                    lemma_channel_total_bound(data@, c as int, n as int);
                }
                let held = sums[c];
                sums.set(c, held + data[4 * n + c] as u64);
                c = c + 1;
            }
            let r = data[4 * n];
            let g = data[4 * n + 1];
            let b = data[4 * n + 2];
            let a = data[4 * n + 3];
            if r == 0 || r == 255 {
                clipped = clipped + 1;
            }
            if g == 0 || g == 255 {
                clipped = clipped + 1;
            }
            if b == 0 || b == 255 {
                clipped = clipped + 1;
            }
            if a != 255 {
                non_opaque = non_opaque + 1;
            }
            let kr = (r / 16) as usize;
            let kg = 16 + (g / 16) as usize;
            let kb = 32 + (b / 16) as usize;
            proof {
                lemma_bin_count_bound(data@, 0, r as int / 16, n as int);
                lemma_bin_count_bound(data@, 1, g as int / 16, n as int);
                lemma_bin_count_bound(data@, 2, b as int / 16, n as int);
                assert(bins[kr as int] == bin_count(data@, kr as int / 16, kr as int % 16, n as int));
                assert(bins[kg as int] == bin_count(data@, kg as int / 16, kg as int % 16, n as int));
                assert(bins[kb as int] == bin_count(data@, kb as int / 16, kb as int % 16, n as int));
            }
            let held = bins[kr];
            bins.set(kr, held + 1);
            let held = bins[kg];
            bins.set(kg, held + 1);
            let held = bins[kb];
            bins.set(kb, held + 1);
            proof {
                assert forall|k: int| 0 <= k < 48 implies (#[trigger] bins[k]) == bin_count(
                    data@,
                    k / 16,
                    k % 16,
                    n + 1,
                ) by {
                    assert(bins_before[k] == bin_count(data@, k / 16, k % 16, n as int));
                }
            }
            n = n + 1;
        }
        proof {
            lemma_mean_is_byte(data@, 0, pixels as int);
            lemma_mean_is_byte(data@, 1, pixels as int);
            lemma_mean_is_byte(data@, 2, pixels as int);
            lemma_mean_is_byte(data@, 3, pixels as int);
            assert(sums[0] == channel_total(data@, 0, pixels as int));
            assert(sums[1] == channel_total(data@, 1, pixels as int));
            assert(sums[2] == channel_total(data@, 2, pixels as int));
            assert(sums[3] == channel_total(data@, 3, pixels as int));
        }
        let count = pixels as u64;
        let stats = FrameStatistics {
            avg_r: (sums[0] / count) as u8,
            avg_g: (sums[1] / count) as u8,
            avg_b: (sums[2] / count) as u8,
            avg_a: (sums[3] / count) as u8,
            clipped_pixels: clipped,
            non_opaque_pixels: non_opaque,
            r_histogram: sixteen(&bins, 0),
            g_histogram: sixteen(&bins, 16),
            b_histogram: sixteen(&bins, 32),
        };
        proof {
            assert forall|k: int| 0 <= k < 16 implies {
                &&& (#[trigger] stats.r_histogram[k]) == bin_count(data@, 0, k, pixels as int)
                &&& stats.g_histogram[k] == bin_count(data@, 1, k, pixels as int)
                &&& stats.b_histogram[k] == bin_count(data@, 2, k, pixels as int)
            } by {
                assert(bins[k] == bin_count(data@, k / 16, k % 16, pixels as int));
                assert(bins[16 + k] == bin_count(data@, (16 + k) / 16, (16 + k) % 16, pixels as int));
                assert(bins[32 + k] == bin_count(data@, (32 + k) / 16, (32 + k) % 16, pixels as int));
            }
        }
        stats
    }
}

/// Sixteen counts in a row, as an array.
fn sixteen(bins: &Vec<u32>, from: usize) -> (a: [u32; 16])
    requires
        from + 16 <= bins.len(),
    ensures
        forall|k: int| 0 <= k < 16 ==> (#[trigger] a[k]) == bins[from + k],
{
    [
        bins[from],
        bins[from + 1],
        bins[from + 2],
        bins[from + 3],
        bins[from + 4],
        bins[from + 5],
        bins[from + 6],
        bins[from + 7],
        bins[from + 8],
        bins[from + 9],
        bins[from + 10],
        bins[from + 11],
        bins[from + 12],
        bins[from + 13],
        bins[from + 14],
        bins[from + 15],
    ]
}

/// Sum of channel `c` over the first `n` pixels.
pub open spec fn channel_total(data: Seq<u8>, c: int, n: int) -> int
    decreases n,
{
    if n <= 0 {
        0
    } else {
        channel_total(data, c, n - 1) + data[4 * (n - 1) + c]
    }
}

/// A channel value at either end of its range.
pub open spec fn is_clipped(v: u8) -> int {
    if v == 0 || v == 255 {
        1
    } else {
        0
    }
}

/// How many red, green and blue values of the first `n` pixels are clipped.
pub open spec fn clipped_values(data: Seq<u8>, n: int) -> int
    decreases n,
{
    if n <= 0 {
        0
    } else {
        clipped_values(data, n - 1) + is_clipped(data[4 * (n - 1)]) + is_clipped(
            data[4 * (n - 1) + 1],
        ) + is_clipped(data[4 * (n - 1) + 2])
    }
}

/// How many of the first `n` pixels have an alpha other than 255.
pub open spec fn non_opaque_pixels(data: Seq<u8>, n: int) -> int
    decreases n,
{
    if n <= 0 {
        0
    } else {
        non_opaque_pixels(data, n - 1) + if data[4 * (n - 1) + 3] != 255 {
            1int
        } else {
            0int
        }
    }
}

/// How many of the first `n` pixels have their channel `c` in bin `bin`:
/// values `16 * bin` to `16 * bin + 15`.
pub open spec fn bin_count(data: Seq<u8>, c: int, bin: int, n: int) -> int
    decreases n,
{
    if n <= 0 {
        0
    } else {
        bin_count(data, c, bin, n - 1) + if data[4 * (n - 1) + c] / 16 == bin {
            1int
        } else {
            0int
        }
    }
}

/// A channel sums to no more than 255 a pixel.
pub proof fn lemma_channel_total_bound(data: Seq<u8>, c: int, n: int)
    requires
        0 <= n,
    ensures
        0 <= channel_total(data, c, n) <= 255 * n,
    decreases n,
{
    if n > 0 {
        lemma_channel_total_bound(data, c, n - 1);
    }
}

/// The mean of a channel is a byte.
pub proof fn lemma_mean_is_byte(data: Seq<u8>, c: int, n: int)
    requires
        0 < n,
    ensures
        0 <= channel_total(data, c, n) / n <= 255,
{
    lemma_channel_total_bound(data, c, n);
    let t = channel_total(data, c, n);
    assert(0 <= t / n <= 255) by (nonlinear_arith)
        requires
            0 <= t <= 255 * n,
            n > 0,
    ;
}

/// A bin holds no more pixels than have been looked at.
pub proof fn lemma_bin_count_bound(data: Seq<u8>, c: int, bin: int, n: int)
    requires
        0 <= n,
    ensures
        0 <= bin_count(data, c, bin, n) <= n,
    decreases n,
{
    if n > 0 {
        lemma_bin_count_bound(data, c, bin, n - 1);
    }
}

/// Each pixel can add three clipped values and one non-opaque pixel at most.
pub proof fn lemma_statistics_bounds(data: Seq<u8>, n: int)
    requires
        0 <= n,
    ensures
        0 <= clipped_values(data, n) <= 3 * n,
        0 <= non_opaque_pixels(data, n) <= n,
    decreases n,
{
    if n > 0 {
        lemma_statistics_bounds(data, n - 1);
    }
}

impl FrameStatistics {
    /// The statistics are those of the first `pixels` pixels of `data`.
    pub open spec fn describes(&self, data: Seq<u8>, pixels: int) -> bool {
        &&& self.avg_r == channel_total(data, 0, pixels) / pixels
        &&& self.avg_g == channel_total(data, 1, pixels) / pixels
        &&& self.avg_b == channel_total(data, 2, pixels) / pixels
        &&& self.avg_a == channel_total(data, 3, pixels) / pixels
        &&& self.clipped_pixels == clipped_values(data, pixels)
        &&& self.non_opaque_pixels == non_opaque_pixels(data, pixels)
        &&& forall|k: int|
            0 <= k < 16 ==> {
                &&& (#[trigger] self.r_histogram[k]) == bin_count(data, 0, k, pixels)
                &&& self.g_histogram[k] == bin_count(data, 1, k, pixels)
                &&& self.b_histogram[k] == bin_count(data, 2, k, pixels)
            }
    }
}

/// What a first look at the pixels of a frame shows.
#[derive(Debug)]
pub struct FrameStatistics {
    pub avg_r: u8,
    pub avg_g: u8,
    pub avg_b: u8,
    pub avg_a: u8,
    /// Channel values that are 0 or 255, counted over red, green and blue.
    pub clipped_pixels: u32,
    /// Pixels whose alpha is not 255.
    pub non_opaque_pixels: u32,
    /// Sixteen bins of sixteen values each.
    pub r_histogram: [u32; 16],
    pub g_histogram: [u32; 16],
    pub b_histogram: [u32; 16],
}

} // verus!
