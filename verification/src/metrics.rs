//! The measurements that go with a quantized cube: mean and 95th percentile
//! of the distances, and how alike the index histograms of consecutive frames
//! are.

use vstd::prelude::*;

verus! {

/// Sum of the first `n` values.
pub open spec fn total(values: Seq<u32>, n: int) -> int
    decreases n,
{
    if n <= 0 {
        0
    } else {
        total(values, n - 1) + values[n - 1]
    }
}

/// The mean of the values, rounded down; 0 of no values.
pub open spec fn mean_of_values(values: Seq<u32>) -> int {
    if values.len() == 0 {
        0
    } else {
        total(values, values.len() as int) / values.len() as int
    }
}

/// How many of the first `n` values do not exceed `v`.
pub open spec fn count_le(values: Seq<u32>, v: int, n: int) -> int
    decreases n,
{
    if n <= 0 {
        0
    } else {
        count_le(values, v, n - 1) + if values[n - 1] <= v {
            1int
        } else {
            0int
        }
    }
}

/// The place in the sorted values that the 95th percentile is read from.
pub open spec fn rank_95(n: int) -> int {
    if n * 95 / 100 < n - 1 {
        n * 95 / 100
    } else {
        n - 1
    }
}

/// `v` is the value at place `rank` of the sorted values: more than `rank`
/// values do not exceed it, and that is true of no smaller number.
pub open spec fn is_ranked(values: Seq<u32>, rank: int, v: int) -> bool {
    &&& 0 <= v
    &&& count_le(values, v, values.len() as int) > rank
    &&& v > 0 ==> count_le(values, v - 1, values.len() as int) <= rank
}

/// The value at place `rank` of the sorted values.
pub open spec fn ranked(values: Seq<u32>, rank: int) -> int {
    choose|v: int| is_ranked(values, rank, v)
}

/// The 95th percentile of the values; 0 of no values.
pub open spec fn percentile_95(values: Seq<u32>) -> int {
    if values.len() == 0 {
        0
    } else {
        ranked(values, rank_95(values.len() as int))
    }
}

/// Values of 32 bits sum to no more than the largest of them per value.
pub proof fn lemma_total_bound(values: Seq<u32>, n: int)
    requires
        0 <= n,
    ensures
        0 <= total(values, n) <= 0xFFFF_FFFF * n,
    decreases n,
{
    if n > 0 {
        lemma_total_bound(values, n - 1);
    }
}

/// The larger the bound, the more values stay within it; never more than there are.
pub proof fn lemma_count_le_grows(values: Seq<u32>, v: int, w: int, n: int)
    requires
        v <= w,
        0 <= n,
    ensures
        0 <= count_le(values, v, n) <= count_le(values, w, n) <= n,
    decreases n,
{
    if n > 0 {
        lemma_count_le_grows(values, v, w, n - 1);
    }
}

/// Every value of 32 bits stays within the largest of them.
pub proof fn lemma_count_le_all(values: Seq<u32>, n: int)
    requires
        0 <= n,
    ensures
        count_le(values, 0xFFFF_FFFF, n) == n,
    decreases n,
{
    if n > 0 {
        lemma_count_le_all(values, n - 1);
    }
}

/// Only one value stands at a place.
pub proof fn lemma_ranked_unique(values: Seq<u32>, rank: int, v: int, w: int)
    requires
        is_ranked(values, rank, v),
        is_ranked(values, rank, w),
    ensures
        v == w,
{
    let n = values.len() as int;
    if v < w {
        lemma_count_le_grows(values, v, w - 1, n);
    } else if w < v {
        lemma_count_le_grows(values, w, v - 1, n);
    }
}

/// The mean stays within the 95th percentile exactly where the values sum to
/// less than the percentile's successor taken once for each of them.  A few
/// values far above the percentile can sum to more: then the mean is the
/// larger of the two.
pub proof fn lemma_mean_within_percentile(values: Seq<u32>)
    requires
        values.len() > 0,
    ensures
        mean_of_values(values) <= percentile_95(values) <==> total(values, values.len() as int) < (
        percentile_95(values) + 1) * values.len(),
{
    let n = values.len() as int;
    let t = total(values, n);
    let p = percentile_95(values);
    let q = t / n;
    lemma_total_bound(values, n);
    vstd::arithmetic::div_mod::lemma_fundamental_div_mod(t, n);
    vstd::arithmetic::div_mod::lemma_mod_pos_bound(t, n);
    assert(q <= p ==> n * q + n <= (p + 1) * n) by (nonlinear_arith)
        requires
            n > 0,
    ;
    assert(q >= p + 1 ==> n * q >= (p + 1) * n) by (nonlinear_arith)
        requires
            n > 0,
    ;
}

/// Where no value exceeds the 95th percentile, the mean does not either.
pub proof fn lemma_mean_of_values_within_percentile(values: Seq<u32>)
    requires
        values.len() > 0,
        forall|i: int| 0 <= i < values.len() ==> values[i] <= percentile_95(values),
    ensures
        mean_of_values(values) <= percentile_95(values),
{
    let n = values.len() as int;
    let p = percentile_95(values);
    lemma_total_within(values, p, n);
    lemma_mean_within_percentile(values);
    assert(p * n < (p + 1) * n) by (nonlinear_arith)
        requires
            n > 0,
    ;
}

/// Values that stay within a bound sum to no more than the bound for each.
pub proof fn lemma_total_within(values: Seq<u32>, bound: int, n: int)
    requires
        0 <= n <= values.len(),
        forall|i: int| 0 <= i < n ==> values[i] <= bound,
    ensures
        total(values, n) <= bound * n,
    decreases n,
{
    if n > 0 {
        lemma_total_within(values, bound, n - 1);
        assert(bound * (n - 1) + bound == bound * n) by (nonlinear_arith);
    } else {
        assert(bound * n == 0) by (nonlinear_arith)
            requires
                n == 0,
        ;
    }
}

/// The mean of the values, rounded down.
pub fn mean_value(values: &Vec<u32>) -> (m: u32)
    requires
        values.len() <= 0xFFFF_FFFF,
    ensures
        m == mean_of_values(values@),
{
    if values.len() == 0 {
        return 0;
    }
    let mut sum: u64 = 0;
    let mut i: usize = 0;
    while i < values.len()
        invariant
            0 <= i <= values.len() <= 0xFFFF_FFFF,
            sum == total(values@, i as int),
        decreases values.len() - i,
    {
        proof {
            lemma_total_bound(values@, i as int);
            assert(0xFFFF_FFFF * i + 0xFFFF_FFFF <= 0xFFFF_FFFF * 0xFFFF_FFFF) by (nonlinear_arith)
                requires
                    i < 0xFFFF_FFFF,
            ;
        }
        sum = sum + values[i] as u64;
        i = i + 1;
    }
    proof {
        lemma_total_bound(values@, values.len() as int);
        assert(sum as int / values.len() as int <= 0xFFFF_FFFF) by (nonlinear_arith)
            requires
                0 <= sum <= 0xFFFF_FFFF * values.len(),
                values.len() > 0,
        ;
    }
    (sum / values.len() as u64) as u32
}

/// How many values do not exceed `v`.
pub fn count_not_above(values: &Vec<u32>, v: u32) -> (c: usize)
    ensures
        c == count_le(values@, v as int, values.len() as int),
{
    let mut c: usize = 0;
    let mut i: usize = 0;
    while i < values.len()
        invariant
            0 <= i <= values.len(),
            c <= i,
            c == count_le(values@, v as int, i as int),
        decreases values.len() - i,
    {
        if values[i] <= v {
            c = c + 1;
        }
        i = i + 1;
    }
    c
}

/// The 95th percentile of the values: the value at place `n * 95 / 100` of
/// the sorted values, the last place if that lies past it.
pub fn calculate_p95(errors: &Vec<u32>) -> (v: u32)
    requires
        errors.len() <= 0xFF_FFFF,
    ensures
        v == percentile_95(errors@),
{
    let n = errors.len();
    if n == 0 {
        return 0;
    }
    let at = n * 95 / 100;
    let rank = if at < n - 1 {
        at
    } else {
        n - 1
    };
    let mut lo: u64 = 0;
    let mut hi: u64 = 0xFFFF_FFFF;
    proof {
        lemma_count_le_all(errors@, n as int);
    }
    // `lo` is one more than a value that too few values stay below, or 0.
    while lo < hi
        invariant
            0 <= lo <= hi <= 0xFFFF_FFFF,
            n == errors.len(),
            rank < n,
            count_le(errors@, hi as int, n as int) > rank,
            lo > 0 ==> count_le(errors@, lo - 1, n as int) <= rank,
        decreases hi - lo,
    {
        let mid = lo + (hi - lo) / 2;
        if count_not_above(errors, mid as u32) > rank {
            hi = mid;
        } else {
            lo = mid + 1;
        }
    }
    proof {
        assert(is_ranked(errors@, rank as int, hi as int));
        lemma_ranked_unique(errors@, rank as int, hi as int, ranked(errors@, rank as int));
    }
    hi as u32
}

/// How often `bin` occurs among the first `n` indices of a plane.
pub open spec fn occurrences(plane: Seq<u8>, bin: int, n: int) -> int
    decreases n,
{
    if n <= 0 {
        0
    } else {
        occurrences(plane, bin, n - 1) + if plane[n - 1] == bin {
            1int
        } else {
            0int
        }
    }
}

/// What two planes have in common over the first `bins` indices: for each
/// index the smaller of the two numbers of pixels that have it, summed.
pub open spec fn overlap(p: Seq<u8>, q: Seq<u8>, bins: int) -> int
    decreases bins,
{
    if bins <= 0 {
        0
    } else {
        let a = occurrences(p, bins - 1, p.len() as int);
        let b = occurrences(q, bins - 1, q.len() as int);
        overlap(p, q, bins - 1) + if a <= b {
            a
        } else {
            b
        }
    }
}

/// The overlaps of the first `pairs` pairs of consecutive planes, summed.
pub open spec fn overlap_sum(planes: Seq<Seq<u8>>, pairs: int) -> int
    decreases pairs,
{
    if pairs <= 0 {
        0
    } else {
        overlap_sum(planes, pairs - 1) + overlap(planes[pairs - 1], planes[pairs], 256)
    }
}

/// Mean overlap of consecutive planes as a share of the 6561 pixels of a
/// plane, in millionths.
pub open spec fn stability_of(planes: Seq<Seq<u8>>) -> int {
    1000000 * overlap_sum(planes, 80) / 524880
}

/// How many of the first `n` indices of a plane are below `bins`.
pub open spec fn below(plane: Seq<u8>, bins: int, n: int) -> int
    decreases n,
{
    if n <= 0 {
        0
    } else {
        below(plane, bins, n - 1) + if plane[n - 1] < bins {
            1int
        } else {
            0int
        }
    }
}

/// The indices below `bins` are those below `bins - 1` and those equal to it.
pub proof fn lemma_below_splits(plane: Seq<u8>, bins: int, n: int)
    requires
        0 <= n,
        1 <= bins,
    ensures
        below(plane, bins, n) == below(plane, bins - 1, n) + occurrences(plane, bins - 1, n),
        0 <= occurrences(plane, bins - 1, n),
        0 <= below(plane, bins, n) <= n,
    decreases n,
{
    if n > 0 {
        lemma_below_splits(plane, bins, n - 1);
    }
}

/// Two planes have no more in common than the first of them has pixels.
pub proof fn lemma_overlap_bound(p: Seq<u8>, q: Seq<u8>, bins: int)
    requires
        0 <= bins,
    ensures
        0 <= overlap(p, q, bins) <= below(p, bins, p.len() as int) <= p.len(),
    decreases bins,
{
    if bins > 0 {
        lemma_overlap_bound(p, q, bins - 1);
        lemma_below_splits(p, bins, p.len() as int);
        lemma_below_splits(q, bins, q.len() as int);
    } else {
        lemma_below_none(p, p.len() as int);
    }
}

/// An index occurs no more often than there are pixels.
pub proof fn lemma_occurrences_bound(plane: Seq<u8>, bin: int, n: int)
    requires
        0 <= n,
    ensures
        0 <= occurrences(plane, bin, n) <= n,
    decreases n,
{
    if n > 0 {
        lemma_occurrences_bound(plane, bin, n - 1);
    }
}

/// No index is below 0.
pub proof fn lemma_below_none(plane: Seq<u8>, n: int)
    requires
        0 <= n,
    ensures
        below(plane, 0, n) == 0,
    decreases n,
{
    if n > 0 {
        lemma_below_none(plane, n - 1);
    }
}

/// Consecutive planes of 6561 pixels have no more in common than 6561 a pair.
pub proof fn lemma_overlap_sum_bound(planes: Seq<Seq<u8>>, pairs: int)
    requires
        0 <= pairs < planes.len(),
        forall|f: int| 0 <= f < planes.len() ==> (#[trigger] planes[f]).len() == 6561,
    ensures
        0 <= overlap_sum(planes, pairs) <= 6561 * pairs,
    decreases pairs,
{
    if pairs > 0 {
        lemma_overlap_sum_bound(planes, pairs - 1);
        lemma_overlap_bound(planes[pairs - 1], planes[pairs], 256);
    }
}

/// The stability of 81 planes of 6561 indices lies between 0 and 1.
pub proof fn lemma_stability_in_unit_range(planes: Seq<Seq<u8>>)
    requires
        planes.len() == 81,
        forall|f: int| 0 <= f < 81 ==> (#[trigger] planes[f]).len() == 6561,
    ensures
        0 <= stability_of(planes) <= 1000000,
{
    lemma_overlap_sum_bound(planes, 80);
}

/// The histogram of a plane: for each of the 256 indices the number of
/// pixels that have it.
pub fn build_histogram(frame_indices: &Vec<u8>) -> (histogram: Vec<u32>)
    requires
        frame_indices.len() <= 0xFFFF_FFFF,
    ensures
        histogram.len() == 256,
        forall|b: int|
            0 <= b < 256 ==> (#[trigger] histogram[b]) == occurrences(
                frame_indices@,
                b,
                frame_indices.len() as int,
            ),
{
    let mut histogram: Vec<u32> = vec![0u32; 256];
    let mut n: usize = 0;
    while n < frame_indices.len()
        invariant
            0 <= n <= frame_indices.len() <= 0xFFFF_FFFF,
            histogram.len() == 256,
            forall|b: int|
                0 <= b < 256 ==> (#[trigger] histogram[b]) == occurrences(
                    frame_indices@,
                    b,
                    n as int,
                ),
        decreases frame_indices.len() - n,
    {
        let bin = frame_indices[n] as usize;
        proof {
            lemma_occurrences_bound(frame_indices@, bin as int, n as int);
        }
        let held = histogram[bin];
        histogram.set(bin, held + 1);
        n = n + 1;
    }
    histogram
}

/// What two histograms have in common over the first `bins` bins: the
/// smaller of the two numbers in each bin, summed.
pub open spec fn common(h1: Seq<u32>, h2: Seq<u32>, bins: int) -> int
    decreases bins,
{
    if bins <= 0 {
        0
    } else {
        common(h1, h2, bins - 1) + if h1[bins - 1] <= h2[bins - 1] {
            h1[bins - 1] as int
        } else {
            h2[bins - 1] as int
        }
    }
}

/// `h` is the histogram of `plane`.
pub open spec fn is_histogram(h: Seq<u32>, plane: Seq<u8>) -> bool {
    &&& h.len() == 256
    &&& forall|b: int|
        0 <= b < 256 ==> (#[trigger] h[b]) == occurrences(plane, b, plane.len() as int)
}

/// What the histograms of two planes have in common is what the planes have
/// in common.
pub proof fn lemma_common_is_overlap(h1: Seq<u32>, h2: Seq<u32>, p: Seq<u8>, q: Seq<u8>, bins: int)
    requires
        is_histogram(h1, p),
        is_histogram(h2, q),
        0 <= bins <= 256,
    ensures
        common(h1, h2, bins) == overlap(p, q, bins),
    decreases bins,
{
    if bins > 0 {
        lemma_common_is_overlap(h1, h2, p, q, bins - 1);
        assert(h1[bins - 1] == occurrences(p, bins - 1, p.len() as int));
        assert(h2[bins - 1] == occurrences(q, bins - 1, q.len() as int));
    }
}

/// Histograms have no more in common than the largest count per bin.
pub proof fn lemma_common_bound(h1: Seq<u32>, h2: Seq<u32>, bins: int)
    requires
        0 <= bins,
    ensures
        0 <= common(h1, h2, bins) <= 0xFFFF_FFFF * bins,
    decreases bins,
{
    if bins > 0 {
        lemma_common_bound(h1, h2, bins - 1);
    }
}

/// What two histograms of 256 bins have in common.
pub fn histogram_similarity(hist1: &Vec<u32>, hist2: &Vec<u32>) -> (c: u64)
    requires
        hist1.len() == 256,
        hist2.len() == 256,
    ensures
        c == common(hist1@, hist2@, 256),
{
    let mut c: u64 = 0;
    let mut b: usize = 0;
    while b < 256
        invariant
            0 <= b <= 256,
            hist1.len() == 256,
            hist2.len() == 256,
            c == common(hist1@, hist2@, b as int),
        decreases 256 - b,
    {
        proof {
            lemma_common_bound(hist1@, hist2@, b as int);
        }
        let h1 = hist1[b];
        let h2 = hist2[b];
        c = c + if h1 <= h2 {
            h1 as u64
        } else {
            h2 as u64
        };
        b = b + 1;
    }
    c
}

/// How alike the index histograms of consecutive planes are: the mean of
/// what each two have in common, as a share of the pixels of a plane, in
/// millionths.
pub fn calculate_palette_stability(indexed_frames: &Vec<Vec<u8>>) -> (stability: u32)
    requires
        indexed_frames.len() == 81,
        forall|f: int| 0 <= f < 81 ==> (#[trigger] indexed_frames[f]).len() == 6561,
    ensures
        stability == stability_of(crate::cube::planes(indexed_frames@)),
        stability <= 1000000,
{
    let ghost pl = crate::cube::planes(indexed_frames@);
    assert forall|f: int| 0 <= f < 81 implies (#[trigger] pl[f]).len() == 6561 by {
        assert(indexed_frames[f].len() == 6561);
    }
    let mut sum: u64 = 0;
    let mut previous = build_histogram(&indexed_frames[0]);
    let mut i: usize = 1;
    while i < 81
        invariant
            1 <= i <= 81,
            indexed_frames.len() == 81,
            pl == crate::cube::planes(indexed_frames@),
            forall|f: int| 0 <= f < 81 ==> (#[trigger] pl[f]).len() == 6561,
            is_histogram(previous@, pl[i - 1]),
            sum == overlap_sum(pl, i - 1),
        decreases 81 - i,
    {
        assert(pl[i as int] == indexed_frames[i as int]@);
        let current = build_histogram(&indexed_frames[i]);
        let c = histogram_similarity(&previous, &current);
        proof {
            lemma_common_is_overlap(previous@, current@, pl[i - 1], pl[i as int], 256);
            lemma_overlap_sum_bound(pl, i as int);
            lemma_overlap_sum_bound(pl, i - 1);
        }
        sum = sum + c;
        previous = current;
        i = i + 1;
    }
    proof {
        lemma_overlap_sum_bound(pl, 80);
    }
    (sum * 1000000 / 524880) as u32
}

/// How often index `c` occurs in the first `f` planes.
pub open spec fn usage_of(planes: Seq<Seq<u8>>, c: int, f: int) -> int
    decreases f,
{
    if f <= 0 {
        0
    } else {
        usage_of(planes, c, f - 1) + occurrences(planes[f - 1], c, planes[f - 1].len() as int)
    }
}

/// How many of the first `n` counts are 0.
pub open spec fn zeros_among(usage: Seq<u32>, n: int) -> int
    decreases n,
{
    if n <= 0 {
        0
    } else {
        zeros_among(usage, n - 1) + if usage[n - 1] == 0 {
            1int
        } else {
            0int
        }
    }
}

/// An index occurs in the first `f` planes no more often than they have pixels,
/// if none has more than `most`.
pub proof fn lemma_usage_bound(planes: Seq<Seq<u8>>, c: int, f: int, most: int)
    requires
        0 <= f <= planes.len(),
        forall|g: int| 0 <= g < planes.len() ==> (#[trigger] planes[g]).len() <= most,
    ensures
        0 <= usage_of(planes, c, f) <= most * f,
    decreases f,
{
    if f > 0 {
        lemma_usage_bound(planes, c, f - 1, most);
        lemma_occurrences_bound(planes[f - 1], c, planes[f - 1].len() as int);
        assert(most * (f - 1) + most == most * f) by (nonlinear_arith);
    } else {
        assert(most * f == 0) by (nonlinear_arith)
            requires
                f == 0,
        ;
    }
}

/// How often each palette index occurs in all planes of a cube together.
pub fn palette_usage(indexed_frames: &Vec<Vec<u8>>) -> (usage: Vec<u32>)
    requires
        indexed_frames.len() <= 81,
        forall|f: int|
            0 <= f < indexed_frames.len() ==> (#[trigger] indexed_frames[f]).len() <= 6561,
    ensures
        usage.len() == 256,
        forall|c: int|
            0 <= c < 256 ==> (#[trigger] usage[c]) == usage_of(
                crate::cube::planes(indexed_frames@),
                c,
                indexed_frames.len() as int,
            ),
{
    let ghost pl = crate::cube::planes(indexed_frames@);
    assert forall|g: int| 0 <= g < pl.len() implies (#[trigger] pl[g]).len() <= 6561 by {
        assert(indexed_frames[g].len() <= 6561);
    }
    let mut usage: Vec<u32> = vec![0u32; 256];
    let mut f: usize = 0;
    while f < indexed_frames.len()
        invariant
            0 <= f <= indexed_frames.len() <= 81,
            pl == crate::cube::planes(indexed_frames@),
            forall|g: int| 0 <= g < pl.len() ==> (#[trigger] pl[g]).len() <= 6561,
            usage.len() == 256,
            forall|c: int| 0 <= c < 256 ==> (#[trigger] usage[c]) == usage_of(pl, c, f as int),
        decreases indexed_frames.len() - f,
    {
        assert(pl[f as int] == indexed_frames[f as int]@);
        let h = build_histogram(&indexed_frames[f]);
        let ghost before = usage@;
        let mut c: usize = 0;
        while c < 256
            invariant
                0 <= c <= 256,
                f < indexed_frames.len() <= 81,
                pl.len() == indexed_frames.len(),
                forall|g: int| 0 <= g < pl.len() ==> (#[trigger] pl[g]).len() <= 6561,
                usage.len() == 256,
                h.len() == 256,
                forall|b: int|
                    0 <= b < 256 ==> (#[trigger] h[b]) == occurrences(
                        pl[f as int],
                        b,
                        pl[f as int].len() as int,
                    ),
                forall|b: int| 0 <= b < 256 ==> (#[trigger] before[b]) == usage_of(pl, b, f as int),
                before.len() == 256,
                forall|b: int|
                    0 <= b < 256 ==> (#[trigger] usage[b]) == if b < c {
                        usage_of(pl, b, f + 1)
                    } else {
                        before[b] as int
                    },
            decreases 256 - c,
        {
            proof {
                lemma_usage_bound(pl, c as int, f as int, 6561);
                lemma_occurrences_bound(pl[f as int], c as int, pl[f as int].len() as int);
                assert(before[c as int] == usage_of(pl, c as int, f as int));
                assert(6561 * f <= 6561 * 81) by (nonlinear_arith)
                    requires
                        f <= 81,
                ;
            }
            let held = usage[c];
            usage.set(c, held + h[c]);
            c = c + 1;
        }
        f = f + 1;
    }
    usage
}

/// How many palette indices no pixel uses, among the first `entries`.
pub fn unused_entries(usage: &Vec<u32>, entries: usize) -> (unused: usize)
    requires
        entries <= usage.len(),
    ensures
        unused == zeros_among(usage@, entries as int),
        unused <= entries,
{
    let mut unused: usize = 0;
    let mut c: usize = 0;
    while c < entries
        invariant
            0 <= c <= entries <= usage.len(),
            unused <= c,
            unused == zeros_among(usage@, c as int),
        decreases entries - c,
    {
        if usage[c] == 0 {
            unused = unused + 1;
        }
        c = c + 1;
    }
    unused
}

} // verus!
