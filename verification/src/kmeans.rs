//! Clustering of the drawn colours: every colour goes to its nearest centre,
//! every centre moves to the mean of its colours, until the centres rest.

use crate::oklab::{
    delta_e, delta_e_oklab, dist2, dist2_oklab, oklab_to_rgb, rgb_of, Oklab,
};
use crate::rng::{choose_positions, shuffle_run, Lcg};
use crate::sample::all_bounded;
use vstd::arithmetic::div_mod::lemma_hoist_over_denominator;
use vstd::prelude::*;

verus! {

/// Among the first `n` centres the one nearest to `p`; of several that are
/// equally near, the first.
pub open spec fn nearest_among(cs: Seq<Oklab>, p: Oklab, n: int) -> int
    decreases n,
{
    if n <= 1 {
        0
    } else {
        let j = nearest_among(cs, p, n - 1);
        if dist2(p, cs[n - 1]) < dist2(p, cs[j]) {
            n - 1
        } else {
            j
        }
    }
}

/// The centre nearest to `p`.
pub open spec fn nearest(cs: Seq<Oklab>, p: Oklab) -> int {
    nearest_among(cs, p, cs.len() as int)
}

/// No centre among the first `n` is nearer to `p` than centre `j`, and none
/// before `j` is as near.
pub open spec fn is_nearest(cs: Seq<Oklab>, p: Oklab, n: int, j: int) -> bool {
    &&& 0 <= j < n
    &&& forall|i: int| 0 <= i < n ==> dist2(p, cs[j]) <= #[trigger] dist2(p, cs[i])
    &&& forall|i: int| 0 <= i < j ==> dist2(p, cs[j]) < #[trigger] dist2(p, cs[i])
}

/// The nearest centre is nearest, and the first of those that are.
pub proof fn lemma_nearest_is_nearest(cs: Seq<Oklab>, p: Oklab, n: int)
    requires
        1 <= n,
    ensures
        is_nearest(cs, p, n, nearest_among(cs, p, n)),
    decreases n,
{
    if n > 1 {
        lemma_nearest_is_nearest(cs, p, n - 1);
        let j = nearest_among(cs, p, n - 1);
        let k = nearest_among(cs, p, n);
        assert forall|i: int| 0 <= i < n implies dist2(p, cs[k]) <= #[trigger] dist2(p, cs[i]) by {
            if i < n - 1 {
                assert(dist2(p, cs[j]) <= dist2(p, cs[i]));
            }
        }
        assert forall|i: int| 0 <= i < k implies dist2(p, cs[k]) < #[trigger] dist2(p, cs[i]) by {
            if k == n - 1 {
                assert(dist2(p, cs[j]) <= dist2(p, cs[i]));
            } else {
                assert(dist2(p, cs[j]) < dist2(p, cs[i]));
            }
        }
    }
}

/// What a cluster has gathered: the sums of its colours and their number.
pub struct Tally {
    pub l: int,
    pub a: int,
    pub b: int,
    pub count: int,
}

/// What cluster `j` gathers from the first `n` colours.
pub open spec fn tally(samples: Seq<Oklab>, cs: Seq<Oklab>, j: int, n: int) -> Tally
    decreases n,
{
    if n <= 0 {
        Tally { l: 0, a: 0, b: 0, count: 0 }
    } else {
        let t = tally(samples, cs, j, n - 1);
        let p = samples[n - 1];
        if nearest(cs, p) == j {
            Tally { l: t.l + p.l, a: t.a + p.a, b: t.b + p.b, count: t.count + 1 }
        } else {
            t
        }
    }
}

/// The mean of a cluster, each component rounded down.  An empty cluster
/// keeps its centre.
pub open spec fn mean_of(t: Tally, held: Oklab) -> Oklab {
    if t.count == 0 {
        held
    } else {
        Oklab { l: (t.l / t.count) as i32, a: (t.a / t.count) as i32, b: (t.b / t.count) as i32 }
    }
}

/// One round: every centre moves to the mean of the colours nearest to it.
pub open spec fn kmeans_step(samples: Seq<Oklab>, cs: Seq<Oklab>) -> Seq<Oklab> {
    Seq::new(cs.len(), |j: int| mean_of(tally(samples, cs, j, samples.len() as int), cs[j]))
}

/// How many colours each centre had nearest to it.
pub open spec fn cluster_sizes(samples: Seq<Oklab>, cs: Seq<Oklab>) -> Seq<int> {
    Seq::new(cs.len(), |j: int| tally(samples, cs, j, samples.len() as int).count)
}

/// The farthest that any of the first `n` centres moved.
pub open spec fn max_move(from: Seq<Oklab>, to: Seq<Oklab>, n: int) -> int
    decreases n,
{
    if n <= 0 {
        0
    } else {
        let rest = max_move(from, to, n - 1);
        let here = delta_e(from[n - 1], to[n - 1]);
        if here > rest {
            here
        } else {
            rest
        }
    }
}

/// Centres, and the sizes that their clusters had in the last round.
pub struct Clustering {
    pub centroids: Seq<Oklab>,
    pub sizes: Seq<int>,
}

/// Rounds are made until no centre moves as far as `threshold`, but
/// `rounds` at most.  Without a round every cluster counts as empty.
pub open spec fn kmeans_run(samples: Seq<Oklab>, cs: Seq<Oklab>, threshold: int, rounds: int) -> Clustering
    decreases rounds,
{
    if rounds <= 0 {
        Clustering { centroids: cs, sizes: Seq::new(cs.len(), |j: int| 0int) }
    } else {
        let moved = kmeans_step(samples, cs);
        if rounds == 1 || max_move(cs, moved, cs.len() as int) < threshold {
            Clustering { centroids: moved, sizes: cluster_sizes(samples, cs) }
        } else {
            kmeans_run(samples, moved, threshold, rounds - 1)
        }
    }
}

/// The first centres: `k` of the colours, no colour of the row twice.
pub open spec fn first_centroids(samples: Seq<Oklab>, state: u64, k: int) -> Seq<Oklab> {
    Seq::new(
        k as nat,
        |j: int| samples[shuffle_run(samples.len() as int, state, k).perm[j] as int],
    )
}

/// The palette of the first `n` clusters: the centre of each one that is not
/// empty, as an sRGB colour, in the order of the clusters.
pub open spec fn palette_of(c: Clustering, n: int) -> Seq<u8>
    decreases n,
{
    if n <= 0 {
        Seq::empty()
    } else {
        palette_of(c, n - 1) + if c.sizes[n - 1] > 0 {
            seq![
                rgb_of(c.centroids[n - 1]).0,
                rgb_of(c.centroids[n - 1]).1,
                rgb_of(c.centroids[n - 1]).2,
            ]
        } else {
            Seq::empty()
        }
    }
}

/// A cluster gathers no more colours than there are, and its sums stay
/// within what that many colours can add up to.
pub proof fn lemma_tally_bounds(samples: Seq<Oklab>, cs: Seq<Oklab>, j: int, n: int)
    requires
        0 <= n <= samples.len(),
        all_bounded(samples),
    ensures
        0 <= tally(samples, cs, j, n).count <= n,
        -4000000 * tally(samples, cs, j, n).count <= tally(samples, cs, j, n).l <= 4000000 * tally(
            samples,
            cs,
            j,
            n,
        ).count,
        -4000000 * tally(samples, cs, j, n).count <= tally(samples, cs, j, n).a <= 4000000 * tally(
            samples,
            cs,
            j,
            n,
        ).count,
        -4000000 * tally(samples, cs, j, n).count <= tally(samples, cs, j, n).b <= 4000000 * tally(
            samples,
            cs,
            j,
            n,
        ).count,
    decreases n,
{
    if n > 0 {
        lemma_tally_bounds(samples, cs, j, n - 1);
        assert(samples[n - 1].bounded());
    }
}

/// A cluster never shrinks as more colours are looked at.
pub proof fn lemma_tally_grows(samples: Seq<Oklab>, cs: Seq<Oklab>, j: int, m: int, n: int)
    requires
        0 <= m <= n,
    ensures
        tally(samples, cs, j, m).count <= tally(samples, cs, j, n).count,
    decreases n - m,
{
    if m < n {
        lemma_tally_grows(samples, cs, j, m, n - 1);
    }
}

/// With one colour at least, one cluster at least is not empty: that of the
/// centre nearest to the first colour.
pub proof fn lemma_some_cluster_filled(samples: Seq<Oklab>, cs: Seq<Oklab>)
    requires
        samples.len() >= 1,
        cs.len() >= 1,
    ensures
        0 <= nearest(cs, samples[0]) < cs.len(),
        cluster_sizes(samples, cs)[nearest(cs, samples[0])] >= 1,
{
    let j = nearest(cs, samples[0]);
    lemma_nearest_is_nearest(cs, samples[0], cs.len() as int);
    assert(tally(samples, cs, j, 0).count == 0);
    assert(tally(samples, cs, j, 1).count == 1);
    lemma_tally_grows(samples, cs, j, 1, samples.len() as int);
}

/// The centre nearest to `p`.
pub fn find_nearest(centroids: &Vec<Oklab>, p: Oklab) -> (j: usize)
    requires
        centroids.len() >= 1,
        all_bounded(centroids@),
        p.bounded(),
    ensures
        j == nearest(centroids@, p),
        j < centroids.len(),
{
    let mut best: usize = 0;
    let mut best_d: u64 = dist2_oklab(p, centroids[0]);
    let mut n: usize = 1;
    while n < centroids.len()
        invariant
            1 <= n <= centroids.len(),
            all_bounded(centroids@),
            p.bounded(),
            best < n,
            best == nearest_among(centroids@, p, n as int),
            best_d == dist2(p, centroids[best as int]),
        decreases centroids.len() - n,
    {
        let d = dist2_oklab(p, centroids[n]);
        if d < best_d {
            best = n;
            best_d = d;
        }
        n = n + 1;
    }
    best
}

/// The sums and sizes of all clusters, kept side by side.
pub struct Tallies {
    pub l: Vec<i64>,
    pub a: Vec<i64>,
    pub b: Vec<i64>,
    pub count: Vec<u32>,
}

impl Tallies {
    /// The tallies are those of the first `n` colours.
    pub open spec fn holds(&self, samples: Seq<Oklab>, cs: Seq<Oklab>, n: int) -> bool {
        &&& self.l.len() == cs.len()
        &&& self.a.len() == cs.len()
        &&& self.b.len() == cs.len()
        &&& self.count.len() == cs.len()
        &&& forall|j: int|
            0 <= j < cs.len() ==> {
                &&& (#[trigger] self.l[j]) == tally(samples, cs, j, n).l
                &&& self.a[j] == tally(samples, cs, j, n).a
                &&& self.b[j] == tally(samples, cs, j, n).b
                &&& self.count[j] == tally(samples, cs, j, n).count
            }
    }
}

/// Gathers every colour into the cluster of its nearest centre.
pub fn gather(samples: &Vec<Oklab>, centroids: &Vec<Oklab>) -> (t: Tallies)
    requires
        centroids.len() >= 1,
        samples.len() <= 1000000,
        all_bounded(centroids@),
        all_bounded(samples@),
    ensures
        t.holds(samples@, centroids@, samples.len() as int),
{
    let k = centroids.len();
    let mut t = Tallies {
        l: vec![0i64; k],
        a: vec![0i64; k],
        b: vec![0i64; k],
        count: vec![0u32; k],
    };
    let mut n: usize = 0;
    while n < samples.len()
        invariant
            0 <= n <= samples.len() <= 1000000,
            k == centroids.len(),
            k >= 1,
            all_bounded(centroids@),
            all_bounded(samples@),
            t.holds(samples@, centroids@, n as int),
        decreases samples.len() - n,
    {
        let p = samples[n];
        let j = find_nearest(centroids, p);
        proof {
            lemma_tally_bounds(samples@, centroids@, j as int, n as int);
            assert(t.l[j as int] == tally(samples@, centroids@, j as int, n as int).l);
        }
        let ghost before = t;
        let l = t.l[j] + p.l as i64;
        let a = t.a[j] + p.a as i64;
        let b = t.b[j] + p.b as i64;
        let c = t.count[j] + 1;
        t.l.set(j, l);
        t.a.set(j, a);
        t.b.set(j, b);
        t.count.set(j, c);
        proof {
            assert forall|i: int| 0 <= i < centroids.len() implies {
                &&& (#[trigger] t.l[i]) == tally(samples@, centroids@, i, n + 1).l
                &&& t.a[i] == tally(samples@, centroids@, i, n + 1).a
                &&& t.b[i] == tally(samples@, centroids@, i, n + 1).b
                &&& t.count[i] == tally(samples@, centroids@, i, n + 1).count
            } by {
                assert(before.l[i] == tally(samples@, centroids@, i, n as int).l);
            }
        }
        n = n + 1;
    }
    t
}

/// `sum / count`, rounded down, for a sum of either sign.
fn mean_component(sum: i64, count: u32) -> (m: i32)
    requires
        0 < count <= 1000000,
        -4000000 * count <= sum <= 4000000 * count,
    ensures
        m == sum as int / count as int,
        -4000000 <= m <= 4000000,
{
    proof {
        lemma_hoist_over_denominator(sum as int, 4000000, count as nat);
        assert(4000000 * count == 4000000 * (count as int));
    }
    let shifted: u64 = (sum + 4000000 * (count as i64)) as u64;
    let q = shifted / (count as u64);
    proof {
        assert(0 <= q <= 8000000) by (nonlinear_arith)
            requires
                q == shifted as int / count as int,
                0 <= shifted <= 8000000 * count,
                count > 0,
        ;
    }
    (q as i64 - 4000000) as i32
}

/// One round of clustering.  Gives the moved centres, the sizes of the
/// clusters, and the farthest that a centre moved.
pub fn kmeans_round(samples: &Vec<Oklab>, centroids: &Vec<Oklab>) -> (r: (Vec<Oklab>, Vec<u32>, u32))
    requires
        centroids.len() >= 1,
        samples.len() <= 1000000,
        all_bounded(centroids@),
        all_bounded(samples@),
    ensures
        r.0@ == kmeans_step(samples@, centroids@),
        r.1@.len() == centroids.len(),
        forall|j: int|
            0 <= j < centroids.len() ==> (#[trigger] r.1[j]) == cluster_sizes(
                samples@,
                centroids@,
            )[j],
        r.2 == max_move(centroids@, r.0@, centroids.len() as int),
        all_bounded(r.0@),
{
    let t = gather(samples, centroids);
    let ghost step = kmeans_step(samples@, centroids@);
    let mut moved: Vec<Oklab> = Vec::new();
    let mut farthest: u32 = 0;
    let mut j: usize = 0;
    while j < centroids.len()
        invariant
            0 <= j <= centroids.len(),
            samples.len() <= 1000000,
            all_bounded(centroids@),
            all_bounded(samples@),
            t.holds(samples@, centroids@, samples.len() as int),
            step == kmeans_step(samples@, centroids@),
            moved.len() == j,
            forall|i: int| 0 <= i < j ==> (#[trigger] moved[i]) == step[i],
            all_bounded(moved@),
            farthest == max_move(centroids@, step, j as int),
        decreases centroids.len() - j,
    {
        proof {
            lemma_tally_bounds(samples@, centroids@, j as int, samples.len() as int);
            assert(t.l[j as int] == tally(samples@, centroids@, j as int, samples.len() as int).l);
        }
        let held = centroids[j];
        let count = t.count[j];
        let next = if count == 0 {
            held
        } else {
            Oklab {
                l: mean_component(t.l[j], count),
                a: mean_component(t.a[j], count),
                b: mean_component(t.b[j], count),
            }
        };
        assert(next == step[j as int]);
        let here = delta_e_oklab(held, next);
        if here > farthest {
            farthest = here;
        }
        moved.push(next);
        j = j + 1;
    }
    assert(moved@ =~= step);
    assert forall|i: int| 0 <= i < centroids.len() implies (#[trigger] t.count[i])
        == cluster_sizes(samples@, centroids@)[i] by {
        assert(t.l[i] == tally(samples@, centroids@, i, samples.len() as int).l);
    }
    (moved, t.count, farthest)
}

/// Clusters the colours, starting from the given centres.
pub fn kmeans_oklab(
    samples: &Vec<Oklab>,
    centroids: &Vec<Oklab>,
    threshold: u32,
    max_iterations: usize,
) -> (r: (Vec<Oklab>, Vec<u32>))
    requires
        centroids.len() >= 1,
        samples.len() <= 1000000,
        all_bounded(centroids@),
        all_bounded(samples@),
    ensures
        r.0@ == kmeans_run(samples@, centroids@, threshold as int, max_iterations as int).centroids,
        r.1@.len() == centroids.len(),
        r.0@.len() == centroids.len(),
        forall|j: int|
            0 <= j < centroids.len() ==> (#[trigger] r.1[j]) == kmeans_run(
                samples@,
                centroids@,
                threshold as int,
                max_iterations as int,
            ).sizes[j],
        all_bounded(r.0@),
{
    let ghost goal = kmeans_run(samples@, centroids@, threshold as int, max_iterations as int);
    let k = centroids.len();
    let mut current = copy_colours(centroids);
    if max_iterations == 0 {
        return (current, vec![0u32; k]);
    }
    let mut left = max_iterations;
    loop
        invariant
            1 <= left <= max_iterations,
            current.len() == k,
            k == centroids.len(),
            k >= 1,
            samples.len() <= 1000000,
            all_bounded(current@),
            all_bounded(samples@),
            goal == kmeans_run(samples@, centroids@, threshold as int, max_iterations as int),
            goal == kmeans_run(samples@, current@, threshold as int, left as int),
        decreases left,
    {
        let (moved, sizes, farthest) = kmeans_round(samples, &current);
        if left == 1 || farthest < threshold {
            return (moved, sizes);
        }
        current = moved;
        left = left - 1;
    }
}

/// A copy of a row of colours.
pub fn copy_colours(colours: &Vec<Oklab>) -> (copy: Vec<Oklab>)
    ensures
        copy@ == colours@,
{
    let mut copy: Vec<Oklab> = Vec::new();
    let mut i: usize = 0;
    while i < colours.len()
        invariant
            0 <= i <= colours.len(),
            copy@ == colours@.take(i as int),
        decreases colours.len() - i,
    {
        copy.push(colours[i]);
        assert(copy@ =~= colours@.take(i + 1));
        i = i + 1;
    }
    assert(colours@.take(i as int) =~= colours@);
    copy
}

/// The centres that clustering starts from.
pub fn choose_centroids(samples: &Vec<Oklab>, k: usize, rng: &mut Lcg) -> (cs: Vec<Oklab>)
    requires
        k <= samples.len() <= 1000000,
        all_bounded(samples@),
    ensures
        cs@ == first_centroids(samples@, old(rng).state, k as int),
        cs.len() == k,
        all_bounded(cs@),
{
    let chosen = choose_positions(samples.len(), k, rng);
    let mut cs: Vec<Oklab> = Vec::new();
    let mut j: usize = 0;
    while j < k
        invariant
            0 <= j <= k,
            chosen.len() == k,
            forall|i: int| 0 <= i < k ==> (#[trigger] chosen[i]) < samples.len(),
            all_bounded(samples@),
            cs.len() == j,
            forall|i: int| 0 <= i < j ==> (#[trigger] cs[i]) == samples[chosen[i] as int],
            all_bounded(cs@),
        decreases k - j,
    {
        cs.push(samples[chosen[j]]);
        j = j + 1;
    }
    proof {
        let want = first_centroids(samples@, old(rng).state, k as int);
        let perm = shuffle_run(samples.len() as int, old(rng).state, k as int).perm;
        crate::rng::lemma_shuffle_arranges(samples.len() as int, old(rng).state, k as int);
        assert forall|i: int| 0 <= i < k implies cs@[i] == want[i] by {
            assert(chosen@[i] == perm.take(k as int)[i]);
        }
        assert(cs@ =~= want);
    }
    cs
}

/// Turns the centres of the clusters that are not empty into a palette.
pub fn materialize_palette(centroids: &Vec<Oklab>, sizes: &Vec<u32>) -> (palette: Vec<u8>)
    requires
        sizes.len() == centroids.len(),
        centroids.len() <= 256,
        all_bounded(centroids@),
    ensures
        palette@ == palette_of(
            Clustering { centroids: centroids@, sizes: sizes@.map_values(|s: u32| s as int) },
            centroids.len() as int,
        ),
        palette.len() % 3 == 0,
        palette.len() <= 3 * centroids.len(),
{
    let ghost c = Clustering { centroids: centroids@, sizes: sizes@.map_values(|s: u32| s as int) };
    let mut palette: Vec<u8> = Vec::new();
    let mut j: usize = 0;
    while j < centroids.len()
        invariant
            0 <= j <= centroids.len() <= 256,
            sizes.len() == centroids.len(),
            all_bounded(centroids@),
            c == (Clustering { centroids: centroids@, sizes: sizes@.map_values(|s: u32| s as int) }),
            palette@ == palette_of(c, j as int),
            palette.len() % 3 == 0,
            palette.len() <= 3 * j,
        decreases centroids.len() - j,
    {
        if sizes[j] > 0 {
            let (r, g, b) = oklab_to_rgb(centroids[j]);
            palette.push(r);
            palette.push(g);
            palette.push(b);
            assert(palette@ =~= palette_of(c, j as int) + seq![r, g, b]);
        } else {
            assert(palette@ =~= palette_of(c, j as int) + Seq::<u8>::empty());
        }
        j = j + 1;
    }
    palette
}

} // verus!
