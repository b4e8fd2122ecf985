use gifpipe::metrics::{
    build_histogram, calculate_p95, calculate_palette_stability, count_not_above,
    histogram_similarity, mean_value,
};
use gifpipe::quantizer::{m2_quantize_for_cube_rgb, OklabQuantizer};
use gifpipe::error::GifPipeError;
use gifpipe::resize::{add_alpha, m2_downsize_rgb_729_to_81, m2_downsize_rgba_729_to_81};
use gifpipe::lct::GifError;

#[test]
fn the_mean_is_rounded_down() {
    assert_eq!(mean_value(&vec![]), 0);
    assert_eq!(mean_value(&vec![7]), 7);
    assert_eq!(mean_value(&vec![1, 2]), 1);
    assert_eq!(mean_value(&vec![u32::MAX, u32::MAX, u32::MAX - 3]), u32::MAX - 1);
}

#[test]
fn the_percentile_is_read_from_the_sorted_values() {
    assert_eq!(calculate_p95(&vec![]), 0);
    assert_eq!(calculate_p95(&vec![42]), 42);
    // Twenty values: place 19 of the sorted row.
    let values: Vec<u32> = (0..20).map(|i| (i * 37 % 20) * 10).collect();
    assert_eq!(calculate_p95(&values), 190);
    // A hundred values: place 95.
    let values: Vec<u32> = (0..100).rev().collect();
    assert_eq!(calculate_p95(&values), 95);
    // 96 in a hundred are 0: the percentile is 0 though the mean is not.
    let mut values = vec![0u32; 96];
    values.extend_from_slice(&[1000, 1000, 1000, 1000]);
    assert_eq!(calculate_p95(&values), 0);
    assert_eq!(mean_value(&values), 40);
    assert_eq!(calculate_p95(&vec![u32::MAX; 3]), u32::MAX);
    assert_eq!(count_not_above(&values, 0), 96);
    assert_eq!(count_not_above(&values, 999), 96);
    assert_eq!(count_not_above(&values, 1000), 100);
}

#[test]
fn histograms_count_indices() {
    let h = build_histogram(&vec![0, 3, 3, 255, 3]);
    assert_eq!(h.len(), 256);
    assert_eq!(h[0], 1);
    assert_eq!(h[3], 3);
    assert_eq!(h[255], 1);
    assert_eq!(h.iter().sum::<u32>(), 5);
    let g = build_histogram(&vec![3, 3, 7, 0, 0]);
    assert_eq!(histogram_similarity(&h, &g), 3);
    assert_eq!(histogram_similarity(&h, &h), 5);
    assert_eq!(histogram_similarity(&h, &build_histogram(&vec![])), 0);
}

#[test]
fn stability_is_the_mean_overlap_in_millionths() {
    let same = vec![vec![5u8; 6561]; 81];
    assert_eq!(calculate_palette_stability(&same), 1_000_000);
    // Frames that alternate between two indices have nothing in common.
    let mut alternating = Vec::new();
    for f in 0..81 {
        alternating.push(vec![(f % 2) as u8; 6561]);
    }
    assert_eq!(calculate_palette_stability(&alternating), 0);
    // One pair of 80 differs in 656 of 6561 pixels.
    let mut one_off = same.clone();
    for p in 0..656 {
        one_off[80][p] = 9;
    }
    assert_eq!(calculate_palette_stability(&one_off) as u64, (80 * 6561 - 656) * 1_000_000u64 / 524880);
    assert_eq!(calculate_palette_stability(&one_off), 998750);
}

#[test]
fn rgb_cubes_are_quantized_as_opaque() {
    let frames = vec![[9u8, 99, 199].repeat(6561); 81];
    let cube = m2_quantize_for_cube_rgb(frames.clone()).unwrap();
    assert_eq!(cube.global_palette_rgb, vec![9, 99, 199]);
    let rgba: Vec<Vec<u8>> = frames.iter().map(|f| add_alpha(f)).collect();
    assert_eq!(&rgba[0][..8], &[9, 99, 199, 255, 9, 99, 199, 255]);
    let direct = OklabQuantizer::new(256).quantize_for_cube(&rgba).unwrap();
    assert_eq!(direct.global_palette_rgb, cube.global_palette_rgb);
    assert_eq!(direct.indexed_frames, cube.indexed_frames);
    assert!(matches!(
        m2_quantize_for_cube_rgb(Vec::new()),
        Err(GifPipeError::InvalidFrameCount { expected: 81, actual: 0 })
    ));
    let mut short = frames.clone();
    short[3].pop();
    assert!(matches!(
        m2_quantize_for_cube_rgb(short),
        Err(GifPipeError::InvalidFrameSize { index: 3, expected: 19683, actual: 19682 })
    ));
}

#[test]
fn test_nn_downsizes_729_to_81() {
    let input = vec![255u8, 0, 0, 255].repeat(729 * 729);
    assert_eq!(input.len(), 729 * 729 * 4);
    let output = m2_downsize_rgba_729_to_81(input).expect("Downscale should succeed");
    assert_eq!(output.len(), 81 * 81 * 4, "Output should be 81×81 RGBA");
    assert!(output[0] > 250, "Red channel should be preserved");
    assert!(output[1] < 5, "Green should be near 0");
    assert!(output[2] < 5, "Blue should be near 0");
    assert_eq!(output[3], 255, "Alpha should be 255");
}

#[test]
fn frames_of_another_size_are_not_reduced() {
    assert_eq!(
        m2_downsize_rgba_729_to_81(vec![0; 100]),
        Err(GifError::InvalidDimensions { expected: 2125764, actual: 100 })
    );
    assert_eq!(
        m2_downsize_rgb_729_to_81(vec![0; 2125764]),
        Err(GifError::InvalidDimensions { expected: 1594323, actual: 2125764 })
    );
}

#[test]
fn rgb_frames_are_reduced_through_rgba() {
    let mut input = Vec::with_capacity(729 * 729 * 3);
    for y in 0..729usize {
        for x in 0..729usize {
            input.extend_from_slice(&[(x * 255 / 728) as u8, (y * 255 / 728) as u8, 20]);
        }
    }
    let output = m2_downsize_rgb_729_to_81(input.clone()).unwrap();
    assert_eq!(output.len(), 81 * 81 * 3);
    // A gradient is reduced to a gradient, not handed back.
    assert_ne!(&output[..], &input[..output.len()]);
    assert!(output[0] < 10 && output[1] < 10);
    assert!(output[3 * 80] > 245);
    assert!(output[3 * (80 * 81) + 1] > 245);
    assert!((output[2] as i32 - 20).abs() <= 1);
    let rgba = m2_downsize_rgba_729_to_81(add_alpha(&input)).unwrap();
    let stripped: Vec<u8> = rgba.chunks_exact(4).flat_map(|p| [p[0], p[1], p[2]]).collect();
    assert_eq!(output, stripped);
}

#[test]
fn palette_usage_counts_every_plane() {
    let mut frames = vec![vec![0u8; 6561]; 81];
    frames[0][5] = 7;
    frames[80][0] = 7;
    frames[40] = vec![255u8; 6561];
    let usage = gifpipe::metrics::palette_usage(&frames);
    assert_eq!(usage.len(), 256);
    assert_eq!(usage[0], 80 * 6561 - 2);
    assert_eq!(usage[7], 2);
    assert_eq!(usage[255], 6561);
    assert_eq!(usage[1], 0);
    assert_eq!(gifpipe::metrics::unused_entries(&usage, 256), 253);
    assert_eq!(gifpipe::metrics::unused_entries(&usage, 8), 6);
    assert_eq!(gifpipe::metrics::unused_entries(&usage, 1), 0);
    assert_eq!(gifpipe::metrics::unused_entries(&usage, 0), 0);
    assert_eq!(gifpipe::metrics::palette_usage(&Vec::new()), vec![0u32; 256]);
}
