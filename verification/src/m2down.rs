//! Spatial reduction of a captured frame: 729 by 729 pixels down to 81 by 81,
//! each output pixel the mean of a block of 9 by 9.

use vstd::prelude::*;

verus! {

/// Bytes of an input frame: 729 * 729 * 4.
pub const INPUT_BYTES: usize = 2125764;

/// Why a frame was not reduced.
#[derive(Clone, Copy, Debug, PartialEq, Eq, Structural)]
pub enum M2Error {
    /// The frame is not 729 by 729.
    InvalidInputDimensions { width: u32, height: u32 },
    /// The buffer does not hold 729 * 729 * 4 bytes; `actual` is its length,
    /// reduced modulo two to the 32 where it is longer than that.
    InvalidDataSize { expected: u32, actual: u32 },
    /// The model is not there or too small to be one.
    ModelLoadError,
    ProcessingError,
}

/// Sum of channel `c` over the first `n` pixels, row by row, of the block
/// that output pixel (`ox`, `oy`) is taken from.
pub open spec fn block_sum(data: Seq<u8>, ox: int, oy: int, c: int, n: int) -> int
    decreases n,
{
    if n <= 0 {
        0
    } else {
        block_sum(data, ox, oy, c, n - 1) + data[((oy * 9 + (n - 1) / 9) * 729 + ox * 9 + (n - 1)
            % 9) * 4 + c] as int
    }
}

/// Channel `c` of output pixel (`ox`, `oy`): the mean over its block, rounded down.
pub open spec fn block_mean(data: Seq<u8>, ox: int, oy: int, c: int) -> int {
    block_sum(data, ox, oy, c, 81) / 81
}

/// The reduced frame, row by row, four bytes per pixel.
pub open spec fn block_averaged(data: Seq<u8>) -> Seq<u8> {
    Seq::new(26244, |i: int| block_mean(data, (i / 4) % 81, (i / 4) / 81, i % 4) as u8)
}

/// A block sums to no more than 255 a pixel.
pub proof fn lemma_block_sum_bound(data: Seq<u8>, ox: int, oy: int, c: int, n: int)
    requires
        0 <= n,
    ensures
        0 <= block_sum(data, ox, oy, c, n) <= 255 * n,
    decreases n,
{
    if n > 0 {
        lemma_block_sum_bound(data, ox, oy, c, n - 1);
    }
}

/// Reduces a frame of 729 by 729 RGBA pixels by block averaging.
pub fn baseline_block_average(rgba_data: &Vec<u8>, width: u32, height: u32) -> (r: Result<
    Vec<u8>,
    M2Error,
>)
    requires
        width == 729,
        height == 729,
        rgba_data.len() == 2125764,
    ensures
        r matches Ok(out) && out@ == block_averaged(rgba_data@),
{
    let mut output: Vec<u8> = Vec::new();
    let mut k: usize = 0;
    while k < 6561
        invariant
            0 <= k <= 6561,
            rgba_data.len() == 2125764,
            output.len() == 4 * k,
            forall|i: int| 0 <= i < 4 * k ==> output[i] == #[trigger] block_averaged(rgba_data@)[i],
        decreases 6561 - k,
    {
        let out_x = k % 81;
        let out_y = k / 81;
        let mut r_sum: u32 = 0;
        let mut g_sum: u32 = 0;
        let mut b_sum: u32 = 0;
        let mut a_sum: u32 = 0;
        let mut n: usize = 0;
        while n < 81
            invariant
                0 <= n <= 81,
                rgba_data.len() == 2125764,
                0 <= out_x < 81,
                0 <= out_y < 81,
                r_sum == block_sum(rgba_data@, out_x as int, out_y as int, 0, n as int),
                g_sum == block_sum(rgba_data@, out_x as int, out_y as int, 1, n as int),
                b_sum == block_sum(rgba_data@, out_x as int, out_y as int, 2, n as int),
                a_sum == block_sum(rgba_data@, out_x as int, out_y as int, 3, n as int),
            decreases 81 - n,
        {
            proof {
                lemma_block_sum_bound(rgba_data@, out_x as int, out_y as int, 0, n as int);
                lemma_block_sum_bound(rgba_data@, out_x as int, out_y as int, 1, n as int);
                lemma_block_sum_bound(rgba_data@, out_x as int, out_y as int, 2, n as int);
                lemma_block_sum_bound(rgba_data@, out_x as int, out_y as int, 3, n as int);
            }
            let in_y = out_y * 9 + n / 9;
            let in_x = out_x * 9 + n % 9;
            let idx = (in_y * 729 + in_x) * 4;
            r_sum = r_sum + rgba_data[idx] as u32;
            g_sum = g_sum + rgba_data[idx + 1] as u32;
            b_sum = b_sum + rgba_data[idx + 2] as u32;
            a_sum = a_sum + rgba_data[idx + 3] as u32;
            n = n + 1;
        }
        proof {
            lemma_block_sum_bound(rgba_data@, out_x as int, out_y as int, 0, 81);
            lemma_block_sum_bound(rgba_data@, out_x as int, out_y as int, 1, 81);
            lemma_block_sum_bound(rgba_data@, out_x as int, out_y as int, 2, 81);
            lemma_block_sum_bound(rgba_data@, out_x as int, out_y as int, 3, 81);
        }
        let ghost before = output@;
        output.push((r_sum / 81) as u8);
        output.push((g_sum / 81) as u8);
        output.push((b_sum / 81) as u8);
        output.push((a_sum / 81) as u8);
        proof {
            assert forall|i: int| 0 <= i < 4 * (k + 1) implies output[i] == #[trigger] block_averaged(
                rgba_data@,
            )[i] by {
                if i < 4 * k {
                    assert(output[i] == before[i]);
                }
            }
        }
        k = k + 1;
    }
    assert(output@ =~= block_averaged(rgba_data@));
    Ok(output)
}

/// Reduces a frame of 729 by 729 RGBA pixels to 81 by 81.  Dimensions other
/// than 729 by 729 are refused first, a buffer of the wrong length after that.
pub fn m2_downsize_9x9_cpu(rgba_729: Vec<u8>, width: u32, height: u32) -> (r: Result<
    Vec<u8>,
    M2Error,
>)
    ensures
        width != 729 || height != 729 ==> r == Err::<Vec<u8>, M2Error>(
            M2Error::InvalidInputDimensions { width, height },
        ),
        width == 729 && height == 729 && rgba_729.len() != 2125764 ==> r == Err::<
            Vec<u8>,
            M2Error,
        >(
            M2Error::InvalidDataSize {
                expected: 2125764,
                actual: (rgba_729.len() as int % 0x1_0000_0000) as u32,
            },
        ),
        width == 729 && height == 729 && rgba_729.len() == 2125764 ==> (r matches Ok(out) && out@
            == block_averaged(rgba_729@)),
{
    if width != 729 || height != 729 {
        return Err(M2Error::InvalidInputDimensions { width, height });
    }
    if rgba_729.len() != INPUT_BYTES {
        let actual = (rgba_729.len() as u64 % 0x1_0000_0000) as u32;
        return Err(M2Error::InvalidDataSize { expected: 2125764, actual });
    }
    baseline_block_average(&rgba_729, width, height)
}

/// Whether the model has been asked for, and whether it is there.  The first
/// attempt decides; later ones only report.
#[derive(Clone, Copy, Debug)]
pub struct M2Model {
    pub attempted: bool,
    pub loaded: bool,
}

impl M2Model {
    pub fn new() -> (m: Self)
        ensures
            !m.attempted,
            !m.loaded,
    {
        M2Model { attempted: false, loaded: false }
    }
}

/// Takes `model_bytes` as the model, unless an earlier call has decided
/// already.  A model is accepted if it has more than 1000 bytes.
pub fn m2_initialize_model(model: &mut M2Model, model_bytes: &Vec<u8>) -> (r: Result<(), M2Error>)
    ensures
        final(model).attempted,
        final(model).loaded == if old(model).attempted {
            old(model).loaded
        } else {
            model_bytes.len() > 1000
        },
        final(model).loaded ==> r is Ok,
        !final(model).loaded ==> r == Err::<(), M2Error>(M2Error::ModelLoadError),
{
    if !model.attempted {
        model.attempted = true;
        model.loaded = model_bytes.len() > 1000;
    }
    if model.loaded {
        Ok(())
    } else {
        Err(M2Error::ModelLoadError)
    }
}

/// The version of the reducer.
pub fn get_m2_version() -> (v: String)
    ensures
        v@ == "1.0.0-baseline"@,
{
    "1.0.0-baseline".to_owned()
}

} // verus!
