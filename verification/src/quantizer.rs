//! The quantizer: 81 RGBA frames in, one palette for all of them and one
//! index plane per frame out, with the measurements taken on the way.

use crate::cube::{index_ok, indices_ok, planes, sizes_ok, QuantizedCubeData};
use crate::error::GifPipeError;
use crate::kmeans::{
    choose_centroids, first_centroids, kmeans_oklab, kmeans_run, lemma_some_cluster_filled,
    materialize_palette, palette_of, Clustering,
};
use crate::mapping::{
    all_errors, index_plane, index_planes, lemma_all_errors_len, map_frame_to_palette,
    palette_labs, palette_to_oklab,
};
use crate::metrics::{
    calculate_p95, calculate_palette_stability, mean_of_values, mean_value, percentile_95,
    stability_of,
};
use crate::oklab::Oklab;
use crate::sample::{sample_all_frames, sample_cube, Drawn};
use vstd::prelude::*;

verus! {

/// Builds palettes by clustering in Oklab.
#[derive(Clone, Copy, Debug)]
pub struct OklabQuantizer {
    /// Most colours the palette may get; never more than 256 are made.
    pub max_colors: usize,
    /// Clustering ends once no centre moves this far, in millionths.
    pub convergence_threshold: u32,
    /// Most rounds of clustering.
    pub max_iterations: usize,
    /// Pixels drawn from each frame; never more than the frame has.
    pub samples_per_frame: usize,
    /// Whether a pixel is drawn with a chance that grows with its alpha.
    pub attention_weighted: bool,
    /// Where the random numbers start.
    pub seed: u64,
    /// The delay that every frame of the cube gets, in hundredths of a second.
    pub delay_cs: u8,
}

impl Default for OklabQuantizer {
    fn default() -> (q: Self)
        ensures
            q == OklabQuantizer::standard(256),
    {
        OklabQuantizer::new(256)
    }
}

impl OklabQuantizer {
    /// The quantizer as it is unless told otherwise: clustering ends when no
    /// centre moves by 1.0 or after 50 rounds, 1000 pixels are drawn from each
    /// frame whatever their alpha, and each frame is shown for 4 hundredths of
    /// a second.
    pub open spec fn standard(max_colors: usize) -> OklabQuantizer {
        OklabQuantizer {
            max_colors,
            convergence_threshold: 1000000,
            max_iterations: 50,
            samples_per_frame: 1000,
            attention_weighted: false,
            seed: 0,
            delay_cs: 4,
        }
    }

    pub fn new(max_colors: usize) -> (q: Self)
        ensures
            q == OklabQuantizer::standard(max_colors),
    {
        OklabQuantizer {
            max_colors,
            convergence_threshold: 1000000,
            max_iterations: 50,
            samples_per_frame: 1000,
            attention_weighted: false,
            seed: 0,
            delay_cs: 4,
        }
    }

    /// The same quantizer with its random numbers starting at `seed`.
    pub fn with_seed(self, seed: u64) -> (q: Self)
        ensures
            q == (OklabQuantizer { seed, ..self }),
    {
        OklabQuantizer { seed, ..self }
    }

    /// The same quantizer with or without weighting by alpha.
    pub fn with_attention_weighting(self, weighted: bool) -> (q: Self)
        ensures
            q == (OklabQuantizer { attention_weighted: weighted, ..self }),
    {
        OklabQuantizer { attention_weighted: weighted, ..self }
    }

    /// The same quantizer giving every frame the delay `delay_cs`.
    pub fn with_delay(self, delay_cs: u8) -> (q: Self)
        ensures
            q == (OklabQuantizer { delay_cs, ..self }),
    {
        OklabQuantizer { delay_cs, ..self }
    }

    /// Pixels drawn from each frame.
    pub open spec fn draws(&self) -> int {
        if self.samples_per_frame <= 6561 {
            self.samples_per_frame as int
        } else {
            6561
        }
    }

    /// The colours drawn from a cube.
    pub open spec fn drawn(&self, frames: Seq<Seq<u8>>) -> Drawn {
        sample_cube(frames, self.draws(), self.attention_weighted, self.seed, 81)
    }

    /// Number of clusters for `n` drawn colours.
    pub open spec fn cluster_count(&self, n: int) -> int {
        let most = if self.max_colors <= 256 {
            self.max_colors as int
        } else {
            256
        };
        if n <= most {
            n
        } else {
            most
        }
    }

    /// The clusters of a cube.
    pub open spec fn clustering(&self, frames: Seq<Seq<u8>>) -> Clustering {
        let d = self.drawn(frames);
        kmeans_run(
            d.labs,
            first_centroids(d.labs, d.state, self.cluster_count(d.labs.len() as int)),
            self.convergence_threshold as int,
            self.max_iterations as int,
        )
    }

    /// The palette of a cube.
    pub open spec fn palette(&self, frames: Seq<Seq<u8>>) -> Seq<u8> {
        palette_of(self.clustering(frames), self.cluster_count(self.drawn(frames).labs.len() as int))
    }

    /// The palette of a cube as Oklab colours.
    pub open spec fn palette_colours(&self, frames: Seq<Seq<u8>>) -> Seq<Oklab> {
        palette_labs(self.palette(frames))
    }

    /// `cube` is the quantized form of `frames`.
    pub open spec fn is_quantized(&self, frames: Seq<Seq<u8>>, cube: QuantizedCubeData) -> bool {
        &&& cube.width == 81
        &&& cube.height == 81
        &&& cube.global_palette_rgb@ == self.palette(frames)
        &&& cube.planes() == index_planes(frames, self.palette_colours(frames), 81)
        &&& cube.delays_cs@ == Seq::new(81, |f: int| self.delay_cs)
        &&& cube.palette_stability == stability_of(cube.planes())
        &&& cube.mean_delta_e == mean_of_values(
            all_errors(frames, self.palette_colours(frames), 81),
        )
        &&& cube.p95_delta_e == percentile_95(all_errors(frames, self.palette_colours(frames), 81))
    }

    /// The one error that `frames` is refused with.  A cube of the wrong
    /// number of frames is refused first, then the first frame of the wrong
    /// size, then a cube that leaves no cluster with a colour in it.
    pub open spec fn refuses(&self, frames: Seq<Seq<u8>>, e: GifPipeError) -> bool {
        match e {
            GifPipeError::InvalidFrameCount { expected, actual } => {
                &&& frames.len() != 81
                &&& expected == 81
                &&& actual == frames.len()
            },
            GifPipeError::InvalidFrameSize { index, expected, actual } => {
                &&& frames.len() == 81
                &&& index < 81
                &&& sizes_ok(frames, 26244, index as int)
                &&& frames[index as int].len() != 26244
                &&& expected == 26244
                &&& actual == frames[index as int].len()
            },
            GifPipeError::ClusteringDegenerate => {
                &&& frames.len() == 81
                &&& sizes_ok(frames, 26244, 81)
                &&& self.palette(frames).len() == 0
            },
            _ => false,
        }
    }

    /// Quantizes a cube of 81 RGBA frames of 81 by 81 pixels.
    ///
    /// The result is a function of the frames and of the quantizer alone:
    /// the same seed gives the same cube.  A cube that is returned is one the
    /// encoder takes.
    pub fn quantize_for_cube(&self, frames: &Vec<Vec<u8>>) -> (r: Result<
        QuantizedCubeData,
        GifPipeError,
    >)
        ensures
            match r {
                Ok(cube) => {
                    &&& frames.len() == 81
                    &&& sizes_ok(planes(frames@), 26244, 81)
                    &&& self.palette(planes(frames@)).len() > 0
                    &&& self.is_quantized(planes(frames@), cube)
                    &&& cube.wf()
                },
                Err(e) => self.refuses(planes(frames@), e),
            },
    {
        let ghost pl = planes(frames@);
        if frames.len() != 81 {
            return Err(GifPipeError::InvalidFrameCount { expected: 81, actual: frames.len() });
        }
        let mut f: usize = 0;
        while f < 81
            invariant
                0 <= f <= 81,
                frames.len() == 81,
                pl == planes(frames@),
                sizes_ok(pl, 26244, f as int),
            decreases 81 - f,
        {
            let actual = frames[f].len();
            assert(pl[f as int] == frames[f as int]@);
            if actual != 26244 {
                return Err(GifPipeError::InvalidFrameSize { index: f, expected: 26244, actual });
            }
            f = f + 1;
        }
        let draws = if self.samples_per_frame <= 6561 {
            self.samples_per_frame
        } else {
            6561
        };
        let (samples, mut rng) = sample_all_frames(
            frames,
            draws,
            self.attention_weighted,
            self.seed,
        );
        let most = if self.max_colors <= 256 {
            self.max_colors
        } else {
            256
        };
        let k = if samples.len() <= most {
            samples.len()
        } else {
            most
        };
        assert(k == self.cluster_count(samples.len() as int));
        if k == 0 {
            return Err(GifPipeError::ClusteringDegenerate);
        }
        let first = choose_centroids(&samples, k, &mut rng);
        let (centroids, sizes) = kmeans_oklab(
            &samples,
            &first,
            self.convergence_threshold,
            self.max_iterations,
        );
        let ghost c = self.clustering(pl);
        proof {
            assert(centroids@ == c.centroids);
            assert(sizes@.map_values(|s: u32| s as int) =~= c.sizes) by {
                assert(c.sizes.len() == k) by {
                    lemma_clustering_len(
                        samples@,
                        first@,
                        self.convergence_threshold as int,
                        self.max_iterations as int,
                    );
                }
            }
        }
        let palette = materialize_palette(&centroids, &sizes);
        if palette.len() == 0 {
            return Err(GifPipeError::ClusteringDegenerate);
        }
        let labs = palette_to_oklab(&palette);
        let ghost colours = labs@;
        let mut indexed_frames: Vec<Vec<u8>> = Vec::new();
        let mut errors: Vec<u32> = Vec::new();
        let mut f: usize = 0;
        while f < 81
            invariant
                0 <= f <= 81,
                frames.len() == 81,
                pl == planes(frames@),
                sizes_ok(pl, 26244, 81),
                colours == labs@,
                1 <= labs.len() <= 256,
                crate::sample::all_bounded(labs@),
                indexed_frames.len() == f,
                planes(indexed_frames@) == index_planes(pl, colours, f as int),
                forall|g: int, p: int|
                    0 <= g < f && 0 <= p < 6561 ==> (#[trigger] indexed_frames[g][p])
                        < labs.len(),
                errors@ == all_errors(pl, colours, f as int),
            decreases 81 - f,
        {
            assert(pl[f as int] == frames[f as int]@);
            proof {
                lemma_all_errors_len(pl, colours, f as int);
            }
            let (indices, frame_errors) = map_frame_to_palette(&frames[f], &labs);
            let ghost before = indexed_frames@;
            indexed_frames.push(indices);
            append_values(&mut errors, &frame_errors);
            proof {
                assert(planes(indexed_frames@) =~= index_planes(pl, colours, f + 1)) by {
                    assert forall|g: int| 0 <= g < f + 1 implies planes(indexed_frames@)[g]
                        == index_planes(pl, colours, f + 1)[g] by {
                        if g < f {
                            assert(indexed_frames@[g] == before[g]);
                            assert(planes(before)[g] == index_planes(pl, colours, f as int)[g]);
                        }
                    }
                }
                assert forall|g: int, p: int| 0 <= g < f + 1 && 0 <= p < 6561 implies (
                #[trigger] indexed_frames[g][p]) < labs.len() by {
                    if g < f {
                        assert(indexed_frames@[g] == before[g]);
                    }
                }
            }
            f = f + 1;
        }
        proof {
            lemma_all_errors_len(pl, colours, 81);
        }
        let ghost out = planes(indexed_frames@);
        assert forall|g: int| 0 <= g < 81 implies (#[trigger] indexed_frames[g]).len() == 6561 by {
            assert(out[g] == index_plane(pl[g], colours));
            assert(out[g] == indexed_frames[g]@);
        }
        let palette_stability = calculate_palette_stability(&indexed_frames);
        let mean_delta_e = mean_value(&errors);
        let p95_delta_e = calculate_p95(&errors);
        let delays_cs = vec![self.delay_cs; 81];
        assert(delays_cs@ =~= Seq::new(81, |f: int| self.delay_cs));
        let cube = QuantizedCubeData {
            width: 81,
            height: 81,
            global_palette_rgb: palette,
            indexed_frames,
            delays_cs,
            palette_stability,
            mean_delta_e,
            p95_delta_e,
        };
        proof {
            let entries = cube.global_palette_rgb@.len() as int / 3;
            assert(cube.planes() == out);
            assert(sizes_ok(out, 6561, 81)) by {
                assert forall|g: int| 0 <= g < 81 implies (#[trigger] out[g]).len() == 6561 by {
                    assert(out[g] == cube.indexed_frames[g]@);
                }
            }
            assert(indices_ok(out, entries)) by {
                assert forall|g: int, q: int|
                    0 <= g < out.len() && 0 <= q < out[g].len() && (g < 81 || (g == 81 && q < 0))
                    implies #[trigger] index_ok(out, entries, g, q) by {
                    assert(out[g] == cube.indexed_frames[g]@);
                    assert(cube.indexed_frames[g][q] < labs.len());
                }
            }
        }
        Ok(cube)
    }
}

/// Clustering keeps the number of centres.
pub proof fn lemma_clustering_len(samples: Seq<Oklab>, cs: Seq<Oklab>, threshold: int, rounds: int)
    ensures
        kmeans_run(samples, cs, threshold, rounds).centroids.len() == cs.len(),
        kmeans_run(samples, cs, threshold, rounds).sizes.len() == cs.len(),
    decreases rounds,
{
    if rounds > 0 {
        let moved = crate::kmeans::kmeans_step(samples, cs);
        if !(rounds == 1 || crate::kmeans::max_move(cs, moved, cs.len() as int) < threshold) {
            lemma_clustering_len(samples, moved, threshold, rounds - 1);
        }
    }
}

/// Appends `more` to `values`.
pub fn append_values(values: &mut Vec<u32>, more: &Vec<u32>)
    ensures
        final(values)@ == old(values)@ + more@,
{
    let mut i: usize = 0;
    while i < more.len()
        invariant
            0 <= i <= more.len(),
            values@ == old(values)@ + more@.take(i as int),
        decreases more.len() - i,
    {
        values.push(more[i]);
        assert(values@ =~= old(values)@ + more@.take(i + 1));
        i = i + 1;
    }
    assert(more@.take(i as int) =~= more@);
}

/// Quantizes a cube with the standard quantizer of 256 colours.
pub fn m2_quantize_for_cube(frames_81_rgba: Vec<Vec<u8>>) -> (r: Result<
    QuantizedCubeData,
    GifPipeError,
>)
    ensures
        match r {
            Ok(cube) => {
                &&& frames_81_rgba.len() == 81
                &&& sizes_ok(planes(frames_81_rgba@), 26244, 81)
                &&& OklabQuantizer::standard(256).is_quantized(planes(frames_81_rgba@), cube)
                &&& cube.wf()
            },
            Err(e) => OklabQuantizer::standard(256).refuses(planes(frames_81_rgba@), e),
        },
{
    OklabQuantizer::new(256).quantize_for_cube(&frames_81_rgba)
}

/// The frames of a cube of RGB frames with an opaque alpha behind every pixel.
pub open spec fn opaque_frames(frames: Seq<Seq<u8>>) -> Seq<Seq<u8>> {
    Seq::new(frames.len(), |f: int| crate::resize::with_alpha(frames[f]))
}

/// Quantizes a cube of 81 RGB frames of 81 by 81 pixels: every pixel is taken
/// as opaque and the cube quantized as RGBA.  A cube of the wrong number of
/// frames is refused first, then the first frame that has not 19683 bytes.
pub fn m2_quantize_for_cube_rgb(frames_81_rgb: Vec<Vec<u8>>) -> (r: Result<
    QuantizedCubeData,
    GifPipeError,
>)
    ensures
        match r {
            Ok(cube) => {
                &&& frames_81_rgb.len() == 81
                &&& sizes_ok(planes(frames_81_rgb@), 19683, 81)
                &&& OklabQuantizer::standard(256).is_quantized(
                    opaque_frames(planes(frames_81_rgb@)),
                    cube,
                )
                &&& cube.wf()
            },
            Err(GifPipeError::InvalidFrameCount { expected, actual }) => {
                &&& frames_81_rgb.len() != 81
                &&& expected == 81
                &&& actual == frames_81_rgb.len()
            },
            Err(GifPipeError::InvalidFrameSize { index, expected, actual }) => {
                &&& frames_81_rgb.len() == 81
                &&& index < 81
                &&& sizes_ok(planes(frames_81_rgb@), 19683, index as int)
                &&& frames_81_rgb[index as int].len() != 19683
                &&& expected == 19683
                &&& actual == frames_81_rgb[index as int].len()
            },
            Err(GifPipeError::ClusteringDegenerate) => {
                &&& frames_81_rgb.len() == 81
                &&& sizes_ok(planes(frames_81_rgb@), 19683, 81)
                &&& OklabQuantizer::standard(256).palette(
                    opaque_frames(planes(frames_81_rgb@)),
                ).len() == 0
            },
            Err(_) => false,
        },
{
    if frames_81_rgb.len() != 81 {
        return Err(
            GifPipeError::InvalidFrameCount { expected: 81, actual: frames_81_rgb.len() },
        );
    }
    let ghost pl = planes(frames_81_rgb@);
    let mut rgba_frames: Vec<Vec<u8>> = Vec::new();
    let mut f: usize = 0;
    while f < 81
        invariant
            0 <= f <= 81,
            frames_81_rgb.len() == 81,
            pl == planes(frames_81_rgb@),
            sizes_ok(pl, 19683, f as int),
            rgba_frames.len() == f,
            forall|g: int|
                0 <= g < f ==> (#[trigger] rgba_frames[g])@ == crate::resize::with_alpha(pl[g]),
        decreases 81 - f,
    {
        assert(pl[f as int] == frames_81_rgb[f as int]@);
        let actual = frames_81_rgb[f].len();
        if actual != 19683 {
            return Err(GifPipeError::InvalidFrameSize { index: f, expected: 19683, actual });
        }
        let rgba = crate::resize::add_alpha(&frames_81_rgb[f]);
        let ghost before = rgba_frames@;
        rgba_frames.push(rgba);
        assert forall|g: int| 0 <= g < f + 1 implies (#[trigger] rgba_frames[g])@
            == crate::resize::with_alpha(pl[g]) by {
            if g < f {
                assert(rgba_frames[g] == before[g]);
            }
        }
        f = f + 1;
    }
    assert(planes(rgba_frames@) =~= opaque_frames(pl));
    assert(sizes_ok(planes(rgba_frames@), 26244, 81)) by {
        assert forall|g: int| 0 <= g < 81 implies (#[trigger] planes(rgba_frames@)[g]).len()
            == 26244 by {
            assert(pl[g].len() == 19683);
        }
    }
    let r = m2_quantize_for_cube(rgba_frames);
    proof {
        match r {
            Err(GifPipeError::InvalidFrameSize { index, .. }) => {
                assert(planes(rgba_frames@)[index as int].len() == 26244);
            },
            _ => {},
        }
    }
    r
}

/// A cube and a quantizer have one quantized form: what two runs return
/// agrees in palette, index planes, delays and measurements.
pub proof fn lemma_quantizer_is_deterministic(
    q: OklabQuantizer,
    frames: Seq<Seq<u8>>,
    first: QuantizedCubeData,
    second: QuantizedCubeData,
)
    requires
        q.is_quantized(frames, first),
        q.is_quantized(frames, second),
    ensures
        first.global_palette_rgb@ == second.global_palette_rgb@,
        first.planes() == second.planes(),
        first.delays_cs@ == second.delays_cs@,
        first.palette_stability == second.palette_stability,
        first.mean_delta_e == second.mean_delta_e,
        first.p95_delta_e == second.p95_delta_e,
{
}

/// A cube is refused with one error at most.
pub proof fn lemma_refusal_is_unique(
    q: OklabQuantizer,
    frames: Seq<Seq<u8>>,
    e1: GifPipeError,
    e2: GifPipeError,
)
    requires
        q.refuses(frames, e1),
        q.refuses(frames, e2),
    ensures
        e1 == e2,
{
    match (e1, e2) {
        (
            GifPipeError::InvalidFrameSize { index: i1, .. },
            GifPipeError::InvalidFrameSize { index: i2, .. },
        ) => {
            if i1 < i2 {
                assert(frames[i1 as int].len() == 26244);
            } else if i2 < i1 {
                assert(frames[i2 as int].len() == 26244);
            }
        },
        (GifPipeError::InvalidFrameSize { index, .. }, GifPipeError::ClusteringDegenerate) => {
            assert(frames[index as int].len() == 26244);
        },
        (GifPipeError::ClusteringDegenerate, GifPipeError::InvalidFrameSize { index, .. }) => {
            assert(frames[index as int].len() == 26244);
        },
        _ => {},
    }
}

/// With the frames as they should be, one colour drawn at least, room for one
/// cluster and one round of clustering, the palette is not empty.
pub proof fn lemma_palette_not_empty(q: OklabQuantizer, frames: Seq<Seq<u8>>)
    requires
        q.drawn(frames).labs.len() >= 1,
        q.max_colors >= 1,
        q.max_iterations >= 1,
    ensures
        q.palette(frames).len() > 0,
{
    let d = q.drawn(frames);
    let k = q.cluster_count(d.labs.len() as int);
    let first = first_centroids(d.labs, d.state, k);
    lemma_last_round(d.labs, first, q.convergence_threshold as int, q.max_iterations as int);
    let c = q.clustering(frames);
    let j = choose|j: int| 0 <= j < k && c.sizes[j] >= 1;
    lemma_palette_grows(c, j + 1, k);
}

/// After a round at least, the sizes are those of a round over some centres,
/// so one of them is not 0.
pub proof fn lemma_last_round(samples: Seq<Oklab>, cs: Seq<Oklab>, threshold: int, rounds: int)
    requires
        samples.len() >= 1,
        cs.len() >= 1,
        rounds >= 1,
    ensures
        exists|j: int|
            0 <= j < cs.len() && (#[trigger] kmeans_run(samples, cs, threshold, rounds).sizes[j])
                >= 1,
    decreases rounds,
{
    let moved = crate::kmeans::kmeans_step(samples, cs);
    if rounds == 1 || crate::kmeans::max_move(cs, moved, cs.len() as int) < threshold {
        lemma_some_cluster_filled(samples, cs);
        let j = crate::kmeans::nearest(cs, samples[0]);
        assert(kmeans_run(samples, cs, threshold, rounds).sizes[j] >= 1);
    } else {
        lemma_last_round(samples, moved, threshold, rounds - 1);
        let j = choose|j: int|
            0 <= j < moved.len() && (#[trigger] kmeans_run(
                samples,
                moved,
                threshold,
                rounds - 1,
            ).sizes[j]) >= 1;
        assert(kmeans_run(samples, cs, threshold, rounds).sizes[j] >= 1);
    }
}

/// A cluster that is not empty gives the palette three bytes, and later
/// clusters take none away.
pub proof fn lemma_palette_grows(c: Clustering, m: int, n: int)
    requires
        1 <= m <= n,
        c.sizes[m - 1] >= 1,
    ensures
        palette_of(c, n).len() >= 3,
    decreases n - m,
{
    if m < n {
        lemma_palette_grows(c, m, n - 1);
    }
}

} // verus!
