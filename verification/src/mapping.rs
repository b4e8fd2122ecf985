//! Mapping the frames onto the palette: every pixel gets the index of the
//! palette entry nearest to it, and the distance to that entry is kept.

use crate::kmeans::{find_nearest, lemma_nearest_is_nearest, nearest};
use crate::oklab::{delta_e, delta_e_oklab, oklab_of, rgb_to_oklab, Oklab};
use crate::sample::{all_bounded, pixel_lab};
use vstd::prelude::*;

verus! {

/// The palette entries as Oklab colours.
pub open spec fn palette_labs(palette: Seq<u8>) -> Seq<Oklab> {
    Seq::new(
        (palette.len() / 3) as nat,
        |i: int| oklab_of(palette[3 * i], palette[3 * i + 1], palette[3 * i + 2]),
    )
}

/// The palette index of pixel `p`: the entry nearest to it, the first of
/// several that are equally near.
pub open spec fn pixel_index(frame: Seq<u8>, labs: Seq<Oklab>, p: int) -> int {
    nearest(labs, pixel_lab(frame, p))
}

/// The distance between pixel `p` and its palette entry.
pub open spec fn pixel_error(frame: Seq<u8>, labs: Seq<Oklab>, p: int) -> int {
    delta_e(pixel_lab(frame, p), labs[pixel_index(frame, labs, p)])
}

/// The index plane of a frame of 6561 pixels.
pub open spec fn index_plane(frame: Seq<u8>, labs: Seq<Oklab>) -> Seq<u8> {
    Seq::new(6561, |p: int| pixel_index(frame, labs, p) as u8)
}

/// The distances of the 6561 pixels of a frame to their palette entries.
pub open spec fn error_plane(frame: Seq<u8>, labs: Seq<Oklab>) -> Seq<u32> {
    Seq::new(6561, |p: int| pixel_error(frame, labs, p) as u32)
}

/// The index planes of the first `f` frames.
pub open spec fn index_planes(frames: Seq<Seq<u8>>, labs: Seq<Oklab>, f: int) -> Seq<Seq<u8>> {
    Seq::new(f as nat, |g: int| index_plane(frames[g], labs))
}

/// The distances of all pixels of the first `f` frames, frame after frame.
pub open spec fn all_errors(frames: Seq<Seq<u8>>, labs: Seq<Oklab>, f: int) -> Seq<u32>
    decreases f,
{
    if f <= 0 {
        Seq::empty()
    } else {
        all_errors(frames, labs, f - 1) + error_plane(frames[f - 1], labs)
    }
}

/// Every frame adds 6561 distances.
pub proof fn lemma_all_errors_len(frames: Seq<Seq<u8>>, labs: Seq<Oklab>, f: int)
    requires
        0 <= f,
    ensures
        all_errors(frames, labs, f).len() == 6561 * f,
    decreases f,
{
    if f > 0 {
        lemma_all_errors_len(frames, labs, f - 1);
    }
}

/// Every index of the plane of a frame names a palette entry, and no entry
/// is nearer to the pixel than the one named.
pub proof fn lemma_index_plane_in_range(frame: Seq<u8>, labs: Seq<Oklab>, p: int)
    requires
        1 <= labs.len() <= 256,
        0 <= p < 6561,
    ensures
        (index_plane(frame, labs)[p] as int) < labs.len(),
        index_plane(frame, labs)[p] == pixel_index(frame, labs, p),
        crate::kmeans::is_nearest(
            labs,
            pixel_lab(frame, p),
            labs.len() as int,
            index_plane(frame, labs)[p] as int,
        ),
{
    lemma_nearest_is_nearest(labs, pixel_lab(frame, p), labs.len() as int);
}

/// The palette entries as Oklab colours.
pub fn palette_to_oklab(palette: &Vec<u8>) -> (labs: Vec<Oklab>)
    requires
        palette.len() % 3 == 0,
    ensures
        labs@ == palette_labs(palette@),
        labs.len() == palette.len() / 3,
        all_bounded(labs@),
{
    let entries = palette.len() / 3;
    let mut labs: Vec<Oklab> = Vec::new();
    let mut i: usize = 0;
    while i < entries
        invariant
            0 <= i <= entries,
            entries == palette.len() / 3,
            palette.len() % 3 == 0,
            labs.len() == i,
            forall|j: int| 0 <= j < i ==> (#[trigger] labs[j]) == palette_labs(palette@)[j],
            all_bounded(labs@),
        decreases entries - i,
    {
        labs.push(rgb_to_oklab(palette[3 * i], palette[3 * i + 1], palette[3 * i + 2]));
        i = i + 1;
    }
    assert(labs@ =~= palette_labs(palette@));
    labs
}

/// Maps one frame onto the palette.  Gives the index plane and the distance
/// of every pixel to its entry.
pub fn map_frame_to_palette(frame: &Vec<u8>, palette_lab: &Vec<Oklab>) -> (r: (Vec<u8>, Vec<u32>))
    requires
        frame.len() == 26244,
        1 <= palette_lab.len() <= 256,
        all_bounded(palette_lab@),
    ensures
        r.0@ == index_plane(frame@, palette_lab@),
        r.1@ == error_plane(frame@, palette_lab@),
        forall|p: int| 0 <= p < 6561 ==> (#[trigger] r.0[p]) < palette_lab.len(),
{
    let mut indices: Vec<u8> = Vec::new();
    let mut errors: Vec<u32> = Vec::new();
    let mut p: usize = 0;
    while p < 6561
        invariant
            0 <= p <= 6561,
            frame.len() == 26244,
            1 <= palette_lab.len() <= 256,
            all_bounded(palette_lab@),
            indices.len() == p,
            errors.len() == p,
            forall|q: int|
                0 <= q < p ==> (#[trigger] indices[q]) == index_plane(frame@, palette_lab@)[q],
            forall|q: int| 0 <= q < p ==> (#[trigger] errors[q]) == error_plane(
                frame@,
                palette_lab@,
            )[q],
            forall|q: int| 0 <= q < p ==> (#[trigger] indices[q]) < palette_lab.len(),
        decreases 6561 - p,
    {
        let lab = rgb_to_oklab(frame[4 * p], frame[4 * p + 1], frame[4 * p + 2]);
        let j = find_nearest(palette_lab, lab);
        let e = delta_e_oklab(lab, palette_lab[j]);
        indices.push(j as u8);
        errors.push(e);
        p = p + 1;
    }
    assert(indices@ =~= index_plane(frame@, palette_lab@));
    assert(errors@ =~= error_plane(frame@, palette_lab@));
    (indices, errors)
}

} // verus!
