use gifpipe::kmeans::{
    choose_centroids, find_nearest, gather, kmeans_oklab, kmeans_round, materialize_palette,
};
use gifpipe::mapping::{map_frame_to_palette, palette_to_oklab};
use gifpipe::oklab::{
    cbrt_floor, delta_e_oklab, dist2_oklab, linear_to_srgb, oklab_to_rgb, rgb_to_oklab,
    sqrt_floor, srgb_to_linear, Oklab,
};
use gifpipe::rng::{choose_positions, Lcg};
use gifpipe::sample::{sample_all_frames, sample_frame_pixels};

fn lab(l: i32, a: i32, b: i32) -> Oklab {
    Oklab { l, a, b }
}

#[test]
fn colours_convert_to_known_values() {
    assert_eq!(rgb_to_oklab(255, 255, 255), lab(999999, 2, -1));
    assert_eq!(rgb_to_oklab(255, 0, 0), lab(627954, 224864, 125845));
    assert_eq!(rgb_to_oklab(0, 255, 0), lab(866439, -233888, 179498));
    assert_eq!(rgb_to_oklab(0, 0, 255), lab(452013, -32459, -311529));
    assert_eq!(rgb_to_oklab(128, 128, 128), lab(599869, 0, 0));
    assert_eq!(rgb_to_oklab(0, 0, 0), lab(0, 0, 0));
    assert_eq!(rgb_to_oklab(10, 20, 30), lab(186989, -8947, -23704));
}

#[test]
fn colours_agree_with_the_floating_point_definition() {
    fn reference(r: u8, g: u8, b: u8) -> [f64; 3] {
        let lin = |c: u8| {
            let x = c as f64 / 255.0;
            if x <= 0.04045 { x / 12.92 } else { ((x + 0.055) / 1.055).powf(2.4) }
        };
        let (r, g, b) = (lin(r), lin(g), lin(b));
        let l = (0.4122214708 * r + 0.5363325363 * g + 0.0514459929 * b).cbrt();
        let m = (0.2119034982 * r + 0.6806995451 * g + 0.1073969566 * b).cbrt();
        let s = (0.0883024619 * r + 0.2817188376 * g + 0.6299787005 * b).cbrt();
        [
            0.2104542553 * l + 0.7936177850 * m - 0.0040720468 * s,
            1.9779984951 * l - 2.4285922050 * m + 0.4505937099 * s,
            0.0259040371 * l + 0.7827717662 * m - 0.8086757660 * s,
        ]
    }
    for &(r, g, b) in &[(255u8, 128u8, 0u8), (12, 200, 99), (1, 1, 1), (77, 0, 240), (250, 250, 5)] {
        let fixed = rgb_to_oklab(r, g, b);
        let float = reference(r, g, b);
        assert!((fixed.l as f64 / 1e6 - float[0]).abs() < 1e-5);
        assert!((fixed.a as f64 / 1e6 - float[1]).abs() < 1e-5);
        assert!((fixed.b as f64 / 1e6 - float[2]).abs() < 1e-5);
    }
}

#[test]
fn every_grey_and_many_colours_come_back_from_oklab() {
    for v in 0..=255u8 {
        assert_eq!(oklab_to_rgb(rgb_to_oklab(v, v, v)), (v, v, v));
        assert_eq!(oklab_to_rgb(rgb_to_oklab(v, 0, 255 - v)), (v, 0, 255 - v));
        assert_eq!(oklab_to_rgb(rgb_to_oklab(0, v, 7)), (0, v, 7));
    }
    let mut s: u32 = 1;
    for _ in 0..20000 {
        s = s.wrapping_mul(1664525).wrapping_add(1013904223);
        let (r, g, b) = ((s >> 24) as u8, (s >> 16) as u8, (s >> 8) as u8);
        assert_eq!(oklab_to_rgb(rgb_to_oklab(r, g, b)), (r, g, b));
    }
}

#[test]
fn colours_outside_the_gamut_go_to_the_nearest_level() {
    assert_eq!(oklab_to_rgb(lab(500000, 400000, 0)), (240, 0, 90));
    assert_eq!(oklab_to_rgb(lab(1200000, 0, 0)), (255, 255, 255));
    assert_eq!(oklab_to_rgb(lab(-5, 0, 0)), (0, 0, 0));
    assert_eq!(oklab_to_rgb(lab(500000, -400000, -400000)), (0, 69, 255));
}

#[test]
fn distances_are_euclidean_and_rounded_down() {
    let red = rgb_to_oklab(255, 0, 0);
    let blue = rgb_to_oklab(0, 0, 255);
    assert_eq!(delta_e_oklab(red, blue), 537090);
    assert_eq!(delta_e_oklab(blue, red), 537090);
    assert_eq!(delta_e_oklab(red, red), 0);
    assert_eq!(delta_e_oklab(rgb_to_oklab(0, 0, 0), rgb_to_oklab(255, 255, 255)), 999999);
    assert_eq!(delta_e_oklab(rgb_to_oklab(10, 20, 30), rgb_to_oklab(10, 20, 31)), 2101);
    assert_eq!(dist2_oklab(lab(3, 0, 0), lab(0, 4, 0)), 25);
    assert_eq!(delta_e_oklab(lab(3, 0, 0), lab(0, 4, 0)), 5);
    assert_eq!(delta_e_oklab(lab(3, 0, 0), lab(0, 4, 1)), 5);
    assert_eq!(delta_e_oklab(lab(-4000000, -4000000, -4000000), lab(4000000, 4000000, 4000000)), 13856406);
}

#[test]
fn roots_are_rounded_down() {
    assert_eq!(sqrt_floor(0), 0);
    assert_eq!(sqrt_floor(15), 3);
    assert_eq!(sqrt_floor(16), 4);
    assert_eq!(sqrt_floor(u64::MAX), 4294967295);
    assert_eq!(cbrt_floor(0), 0);
    assert_eq!(cbrt_floor(26), 2);
    assert_eq!(cbrt_floor(27), 3);
    assert_eq!(cbrt_floor(1_000_000_000_000_000_000), 1_000_000);
    assert_eq!(cbrt_floor(999_999_999_999_999_999), 999_999);
    assert_eq!(cbrt_floor(u64::MAX), 2642245);
}

#[test]
fn the_transfer_curve_is_sampled_at_every_level() {
    assert_eq!(srgb_to_linear(0), 0);
    assert_eq!(srgb_to_linear(1), 30353);
    assert_eq!(srgb_to_linear(10), 303527);
    assert_eq!(srgb_to_linear(11), 334654);
    assert_eq!(srgb_to_linear(128), 21586050);
    assert_eq!(srgb_to_linear(254), 99110210);
    assert_eq!(srgb_to_linear(255), 100000000);
    for c in 0..=255u8 {
        assert_eq!(linear_to_srgb(srgb_to_linear(c) as u64), c);
    }
    // Halfway between two levels the lower one is taken.
    assert_eq!(linear_to_srgb(15176), 0);
    assert_eq!(linear_to_srgb(15177), 1);
    assert_eq!(linear_to_srgb(u64::MAX), 255);
}

#[test]
fn the_generator_repeats_itself_for_a_seed() {
    let mut g = Lcg::new(0);
    assert_eq!(g.below(10), 4);
    assert_eq!(g.state, 1442695040888963407);
    assert_eq!(g.below(10), 9);
    assert_eq!(g.state, 1876011003808476466);
    assert_eq!(g.below(6561), 1697);
    assert_eq!(g.below(6561), 3189);
    assert_eq!(g.state, 7401132627792533940);
}

#[test]
fn chosen_positions_do_not_repeat() {
    let mut g = Lcg::new(7);
    assert_eq!(choose_positions(5, 3, &mut g), vec![1, 4, 2]);
    assert_eq!(g.state, 16723372171710603212);
    let mut g = Lcg::new(0);
    assert_eq!(choose_positions(10, 10, &mut g), vec![4, 8, 0, 1, 3, 7, 6, 2, 9, 5]);
    assert_eq!(g.state, 8237903092696572954);
    let mut g = Lcg::new(99);
    let chosen = choose_positions(6561, 1000, &mut g);
    let mut seen = vec![false; 6561];
    for &p in &chosen {
        assert!(!seen[p]);
        seen[p] = true;
    }
    assert_eq!(chosen.len(), 1000);
    assert_eq!(choose_positions(4, 0, &mut g), Vec::<usize>::new());
}

#[test]
fn pixels_are_drawn_without_repetition() {
    // A frame in which every pixel has another colour.
    let mut frame = Vec::with_capacity(26244);
    for p in 0..6561u32 {
        frame.extend_from_slice(&[(p % 256) as u8, (p / 256) as u8, 9, if p % 2 == 0 { 255 } else { 0 }]);
    }
    let mut g = Lcg::new(5);
    let mut samples = Vec::new();
    sample_frame_pixels(&frame, 1000, false, &mut g, &mut samples);
    assert_eq!(samples.len(), 1000);
    let mut sorted: Vec<(i32, i32, i32)> = samples.iter().map(|c| (c.l, c.a, c.b)).collect();
    sorted.sort();
    sorted.dedup();
    assert_eq!(sorted.len(), 1000);
    // The same seed draws the same pixels.
    let mut again = Vec::new();
    sample_frame_pixels(&frame, 1000, false, &mut Lcg::new(5), &mut again);
    assert_eq!(again, samples);
    // With weighting only opaque pixels are taken: those at even places.
    let mut weighted = Vec::new();
    sample_frame_pixels(&frame, 1000, true, &mut Lcg::new(5), &mut weighted);
    assert!(weighted.len() > 300 && weighted.len() < 700);
    let even: Vec<Oklab> = (0..6561u32)
        .filter(|p| p % 2 == 0)
        .map(|p| rgb_to_oklab((p % 256) as u8, (p / 256) as u8, 9))
        .collect();
    assert!(weighted.iter().all(|c| even.contains(c)));
    // All 81 frames are drawn from in turn.
    let (all, _) = sample_all_frames(&vec![frame.clone(); 81], 10, false, 1);
    assert_eq!(all.len(), 810);
    let (none, _) = sample_all_frames(&vec![frame; 81], 0, false, 1);
    assert!(none.is_empty());
}

#[test]
fn the_nearest_centre_is_the_first_of_the_nearest() {
    let centres = vec![lab(10, 0, 0), lab(30, 0, 0), lab(10, 0, 0), lab(50, 0, 0)];
    assert_eq!(find_nearest(&centres, lab(0, 0, 0)), 0);
    assert_eq!(find_nearest(&centres, lab(20, 0, 0)), 0);
    assert_eq!(find_nearest(&centres, lab(21, 0, 0)), 1);
    assert_eq!(find_nearest(&centres, lab(40, 0, 0)), 1);
    assert_eq!(find_nearest(&centres, lab(41, 0, 0)), 3);
}

#[test]
fn centres_move_to_the_mean_of_their_colours() {
    let samples = vec![lab(0, 0, 0), lab(10, -3, 5), lab(100, 7, 7), lab(103, 8, -7), lab(104, 0, 0)];
    let centres = vec![lab(1, 0, 0), lab(90, 0, 0), lab(100000, 0, 0)];
    let t = gather(&samples, &centres);
    assert_eq!(t.count, vec![2, 3, 0]);
    assert_eq!(t.l, vec![10, 307, 0]);
    assert_eq!(t.a, vec![-3, 15, 0]);
    assert_eq!(t.b, vec![5, 0, 0]);
    let (moved, sizes, farthest) = kmeans_round(&samples, &centres);
    // Means are rounded down, also below zero; the empty cluster stays.
    assert_eq!(moved, vec![lab(5, -2, 2), lab(102, 5, 0), lab(100000, 0, 0)]);
    assert_eq!(sizes, vec![2, 3, 0]);
    assert_eq!(farthest, 13);
    // One round is made even if nothing moves far; no round leaves all empty.
    let (end, sizes) = kmeans_oklab(&samples, &centres, 1_000_000, 50);
    assert_eq!(end, moved);
    assert_eq!(sizes, vec![2, 3, 0]);
    let (end, sizes) = kmeans_oklab(&samples, &centres, 1_000_000, 0);
    assert_eq!(end, centres);
    assert_eq!(sizes, vec![0, 0, 0]);
    // With a threshold of 1 the centres move until they rest.
    let (end, _) = kmeans_oklab(&samples, &centres, 1, 50);
    let (next, _, moved_by) = kmeans_round(&samples, &end);
    assert!(moved_by < 1 || next == end);
    let (two, _) = kmeans_oklab(&samples, &centres, 1, 2);
    let (second, _, _) = kmeans_round(&samples, &moved);
    assert_eq!(two, second);
}

#[test]
fn the_first_centres_are_drawn_colours() {
    let samples: Vec<Oklab> = (0..50).map(|i| lab(i * 1000, i, -i)).collect();
    let mut g = Lcg::new(3);
    let centres = choose_centroids(&samples, 8, &mut g);
    assert_eq!(centres.len(), 8);
    let mut seen = Vec::new();
    for c in &centres {
        assert!(samples.contains(c));
        assert!(!seen.contains(c));
        seen.push(*c);
    }
    let mut g = Lcg::new(3);
    let positions = choose_positions(50, 8, &mut g);
    let expect: Vec<Oklab> = positions.iter().map(|&p| samples[p]).collect();
    assert_eq!(centres, expect);
}

#[test]
fn only_clusters_with_colours_enter_the_palette() {
    let centres = vec![rgb_to_oklab(255, 0, 0), rgb_to_oklab(1, 2, 3), rgb_to_oklab(0, 0, 255)];
    assert_eq!(materialize_palette(&centres, &vec![5, 0, 1]), vec![255, 0, 0, 0, 0, 255]);
    assert_eq!(materialize_palette(&centres, &vec![0, 0, 0]), Vec::<u8>::new());
    assert_eq!(materialize_palette(&centres, &vec![1, 1, 1]), vec![255, 0, 0, 1, 2, 3, 0, 0, 255]);
}

#[test]
fn pixels_map_to_the_nearest_entry() {
    let palette = vec![0, 0, 0, 255, 255, 255, 255, 0, 0, 0, 0, 0];
    let labs = palette_to_oklab(&palette);
    assert_eq!(labs.len(), 4);
    assert_eq!(labs[2], rgb_to_oklab(255, 0, 0));
    let mut frame = vec![0u8; 26244];
    frame[0..4].copy_from_slice(&[250, 250, 250, 255]);
    frame[4..8].copy_from_slice(&[200, 10, 10, 0]);
    frame[8..12].copy_from_slice(&[3, 3, 3, 255]);
    let (indices, errors) = map_frame_to_palette(&frame, &labs);
    assert_eq!(indices.len(), 6561);
    assert_eq!(errors.len(), 6561);
    assert_eq!(&indices[0..4], &[1, 2, 0, 0]);
    // Black stands twice in the palette; the first entry is taken.
    assert!(indices[3..].iter().all(|&i| i == 0));
    assert_eq!(errors[3], 0);
    assert_eq!(errors[0], delta_e_oklab(rgb_to_oklab(250, 250, 250), rgb_to_oklab(255, 255, 255)));
    assert_eq!(errors[1], delta_e_oklab(rgb_to_oklab(200, 10, 10), rgb_to_oklab(255, 0, 0)));
    assert!(errors[0] > 0);
}
