//! Drawing the pixels that the palette is built from: from each frame a
//! number of pixels at random, none twice.

use crate::cube::{planes, sizes_ok};
use crate::oklab::{oklab_of, rgb_to_oklab, Oklab};
use crate::rng::{choose_positions, lcg_draw, lcg_next, shuffle_run, Lcg};
use vstd::prelude::*;

verus! {

/// The colours drawn so far and the generator state after drawing them.
pub struct Drawn {
    pub labs: Seq<Oklab>,
    pub state: u64,
}

/// Pixel `p` of an RGBA frame as an Oklab colour; alpha plays no part.
pub open spec fn pixel_lab(frame: Seq<u8>, p: int) -> Oklab {
    oklab_of(frame[4 * p], frame[4 * p + 1], frame[4 * p + 2])
}

/// Every colour is within the bound of the colour arithmetic.
pub open spec fn all_bounded(labs: Seq<Oklab>) -> bool {
    forall|i: int| 0 <= i < labs.len() ==> (#[trigger] labs[i]).bounded()
}

/// Taking in the first `m` of the chosen pixels.  Without weighting each is
/// taken.  With weighting a pixel is taken with a chance of alpha in 255: a
/// number below 255 is drawn and the pixel taken if its alpha is above it.
pub open spec fn take_in(
    frame: Seq<u8>,
    positions: Seq<usize>,
    weighted: bool,
    start: Drawn,
    m: int,
) -> Drawn
    decreases m,
{
    if m <= 0 {
        start
    } else {
        let prev = take_in(frame, positions, weighted, start, m - 1);
        let p = positions[m - 1] as int;
        if !weighted {
            Drawn { labs: prev.labs.push(pixel_lab(frame, p)), state: prev.state }
        } else {
            let state = lcg_next(prev.state);
            if lcg_draw(state, 255) < frame[4 * p + 3] {
                Drawn { labs: prev.labs.push(pixel_lab(frame, p)), state }
            } else {
                Drawn { labs: prev.labs, state }
            }
        }
    }
}

/// Drawing from one frame of 6561 pixels: `count` pixels are chosen, none
/// twice, and taken in as [`take_in`] says.
pub open spec fn sample_frame(frame: Seq<u8>, count: int, weighted: bool, start: Drawn) -> Drawn {
    let chosen = shuffle_run(6561, start.state, count);
    take_in(
        frame,
        chosen.perm.take(count),
        weighted,
        Drawn { labs: start.labs, state: chosen.state },
        count,
    )
}

/// Drawing from the first `f` frames in turn, one generator serving them all.
pub open spec fn sample_cube(
    frames: Seq<Seq<u8>>,
    count: int,
    weighted: bool,
    seed: u64,
    f: int,
) -> Drawn
    decreases f,
{
    if f <= 0 {
        Drawn { labs: Seq::empty(), state: seed }
    } else {
        sample_frame(frames[f - 1], count, weighted, sample_cube(frames, count, weighted, seed, f - 1))
    }
}

/// Draws up to `max_samples` pixels from a frame and appends their colours
/// to `samples`.
pub fn sample_frame_pixels(
    frame: &Vec<u8>,
    max_samples: usize,
    weighted: bool,
    rng: &mut Lcg,
    samples: &mut Vec<Oklab>,
)
    requires
        frame.len() == 26244,
        max_samples <= 6561,
        all_bounded(old(samples)@),
    ensures
        (Drawn { labs: final(samples)@, state: final(rng).state }) == sample_frame(
            frame@,
            max_samples as int,
            weighted,
            (Drawn { labs: old(samples)@, state: old(rng).state }),
        ),
        all_bounded(final(samples)@),
        old(samples).len() <= final(samples).len() <= old(samples).len() + max_samples,
        !weighted ==> final(samples).len() == old(samples).len() + max_samples,
{
    let ghost start = Drawn { labs: samples@, state: rng.state };
    let chosen = choose_positions(6561, max_samples, rng);
    let ghost mid = Drawn { labs: samples@, state: rng.state };
    let mut m: usize = 0;
    while m < max_samples
        invariant
            0 <= m <= max_samples <= 6561,
            frame.len() == 26244,
            chosen.len() == max_samples,
            forall|i: int| 0 <= i < max_samples ==> (#[trigger] chosen[i]) < 6561,
            (Drawn { labs: samples@, state: rng.state }) == take_in(
                frame@,
                chosen@,
                weighted,
                mid,
                m as int,
            ),
            all_bounded(samples@),
            mid.labs.len() <= samples.len() <= mid.labs.len() + m,
            !weighted ==> samples.len() == mid.labs.len() + m,
        decreases max_samples - m,
    {
        let p = chosen[m];
        let take = if weighted {
            let t = rng.below(255);
            (t as u8) < frame[4 * p + 3]
        } else {
            true
        };
        if take {
            let lab = rgb_to_oklab(frame[4 * p], frame[4 * p + 1], frame[4 * p + 2]);
            samples.push(lab);
        }
        m = m + 1;
    }
}

/// Draws from every frame of a cube in turn.
pub fn sample_all_frames(
    frames: &Vec<Vec<u8>>,
    samples_per_frame: usize,
    weighted: bool,
    seed: u64,
) -> (r: (Vec<Oklab>, Lcg))
    requires
        frames.len() == 81,
        sizes_ok(planes(frames@), 26244, 81),
        samples_per_frame <= 6561,
    ensures
        (Drawn { labs: r.0@, state: r.1.state }) == sample_cube(
            planes(frames@),
            samples_per_frame as int,
            weighted,
            seed,
            81,
        ),
        all_bounded(r.0@),
        r.0.len() <= 81 * samples_per_frame,
        !weighted ==> r.0.len() == 81 * samples_per_frame,
{
    let mut rng = Lcg::new(seed);
    let mut samples: Vec<Oklab> = Vec::new();
    let ghost pl = planes(frames@);
    let mut f: usize = 0;
    while f < 81
        invariant
            0 <= f <= 81,
            frames.len() == 81,
            pl == planes(frames@),
            sizes_ok(pl, 26244, 81),
            samples_per_frame <= 6561,
            (Drawn { labs: samples@, state: rng.state }) == sample_cube(
                pl,
                samples_per_frame as int,
                weighted,
                seed,
                f as int,
            ),
            all_bounded(samples@),
            samples.len() <= f * samples_per_frame,
            !weighted ==> samples.len() == f * samples_per_frame,
        decreases 81 - f,
    {
        assert(pl[f as int] == frames[f as int]@);
        assert(f * samples_per_frame + samples_per_frame == (f + 1) * samples_per_frame)
            by (nonlinear_arith);
        assert(f * samples_per_frame <= 81 * 6561) by (nonlinear_arith)
            requires
                0 <= f <= 81,
                0 <= samples_per_frame <= 6561,
        ;
        sample_frame_pixels(&frames[f], samples_per_frame, weighted, &mut rng, &mut samples);
        f = f + 1;
    }
    (samples, rng)
}

} // verus!
