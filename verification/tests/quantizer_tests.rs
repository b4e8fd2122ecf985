use gifpipe::cube::QuantizedCubeData;
use gifpipe::encoder::Gif89aEncoder;
use gifpipe::error::GifPipeError;
use gifpipe::quantizer::{m2_quantize_for_cube, OklabQuantizer};
use gifpipe::validator::validate_gif_bytes;

fn solid(r: u8, g: u8, b: u8, a: u8) -> Vec<Vec<u8>> {
    vec![[r, g, b, a].repeat(6561); 81]
}

fn checkerboard() -> Vec<Vec<u8>> {
    let mut frame = Vec::with_capacity(26244);
    for y in 0..81 {
        for x in 0..81 {
            if (x + y) % 2 == 0 {
                frame.extend_from_slice(&[0, 0, 0, 255]);
            } else {
                frame.extend_from_slice(&[255, 255, 255, 255]);
            }
        }
    }
    vec![frame; 81]
}

fn gradient() -> Vec<Vec<u8>> {
    let mut frames = Vec::new();
    for f in 0..81usize {
        let mut frame = Vec::with_capacity(26244);
        for y in 0..81usize {
            for x in 0..81usize {
                frame.extend_from_slice(&[((x + f) % 256) as u8, ((y + f) % 256) as u8, 128, 255]);
            }
        }
        frames.push(frame);
    }
    frames
}

fn check_shape(cube: &QuantizedCubeData) {
    assert_eq!(cube.width, 81);
    assert_eq!(cube.height, 81);
    assert_eq!(cube.indexed_frames.len(), 81);
    assert!(cube.global_palette_rgb.len() >= 3);
    assert!(cube.global_palette_rgb.len() <= 768);
    assert_eq!(cube.global_palette_rgb.len() % 3, 0);
    let entries = cube.global_palette_rgb.len() / 3;
    for frame in &cube.indexed_frames {
        assert_eq!(frame.len(), 6561);
        assert!(frame.iter().all(|&i| (i as usize) < entries));
    }
    assert_eq!(cube.delays_cs.len(), 81);
    assert!(cube.palette_stability <= 1_000_000);
}

#[test]
fn solid_colour_cube() {
    let cube = m2_quantize_for_cube(solid(255, 0, 0, 255)).unwrap();
    check_shape(&cube);
    assert_eq!(cube.global_palette_rgb, vec![255, 0, 0]);
    assert!(cube.indexed_frames.iter().all(|f| f.iter().all(|&i| i == 0)));
    assert_eq!(cube.mean_delta_e, 0);
    assert_eq!(cube.p95_delta_e, 0);
    assert_eq!(cube.palette_stability, 1_000_000);
    assert_eq!(cube.delays_cs, vec![4u8; 81]);
    let bytes = Gif89aEncoder::new().encode_from_cube_data(&cube, 4, true).unwrap();
    assert_eq!(&bytes[0..6], &[0x47, 0x49, 0x46, 0x38, 0x39, 0x61]);
    assert!(bytes.windows(11).any(|w| w == b"NETSCAPE2.0"));
    assert_eq!(*bytes.last().unwrap(), 0x3B);
    let report = validate_gif_bytes(bytes).unwrap();
    assert!(report.is_valid);
    assert_eq!(report.frame_count, 81);
}

#[test]
fn two_colour_checkerboard() {
    let cube = m2_quantize_for_cube(checkerboard()).unwrap();
    check_shape(&cube);
    assert_eq!(cube.global_palette_rgb.len(), 6);
    let mut colours = vec![
        cube.global_palette_rgb[0..3].to_vec(),
        cube.global_palette_rgb[3..6].to_vec(),
    ];
    colours.sort();
    assert_eq!(colours, vec![vec![0, 0, 0], vec![255, 255, 255]]);
    for frame in &cube.indexed_frames {
        assert_eq!(frame, &cube.indexed_frames[0]);
    }
    assert_eq!(cube.palette_stability, 1_000_000);
    assert_eq!(cube.mean_delta_e, 0);
    let black = if cube.global_palette_rgb[0] == 0 { 0 } else { 1 };
    assert_eq!(cube.indexed_frames[0][0], black);
    assert_eq!(cube.indexed_frames[0][1], 1 - black);
    let bytes = Gif89aEncoder::new().encode_from_cube_data(&cube, 4, true).unwrap();
    let report = validate_gif_bytes(bytes).unwrap();
    assert!(report.has_valid_header && report.has_loop_extension && report.has_trailer);
    assert!(report.frame_count >= 81);
}

#[test]
fn slow_diagonal_gradient() {
    let cube = m2_quantize_for_cube(gradient()).unwrap();
    check_shape(&cube);
    assert!(cube.palette_stability > 800_000, "stability {}", cube.palette_stability);
    assert!(cube.mean_delta_e < 5_000_000, "mean {}", cube.mean_delta_e);
    let entries = cube.global_palette_rgb.len() / 3;
    let mut used = vec![false; 256];
    for frame in &cube.indexed_frames {
        for &i in frame {
            used[i as usize] = true;
        }
    }
    let distinct = used.iter().filter(|&&u| u).count();
    assert!(distinct * 4 > entries, "{} of {} entries in use", distinct, entries);
}

#[test]
fn the_same_seed_gives_the_same_cube() {
    let frames = gradient();
    let q = OklabQuantizer::new(256).with_seed(42);
    let a = q.quantize_for_cube(&frames).unwrap();
    let b = q.quantize_for_cube(&frames).unwrap();
    assert_eq!(a.global_palette_rgb, b.global_palette_rgb);
    assert_eq!(a.indexed_frames, b.indexed_frames);
    assert_eq!(a.palette_stability, b.palette_stability);
    assert_eq!(a.mean_delta_e, b.mean_delta_e);
    assert_eq!(a.p95_delta_e, b.p95_delta_e);
    let c = OklabQuantizer::new(256).with_seed(43).quantize_for_cube(&frames).unwrap();
    assert_ne!(a.global_palette_rgb, c.global_palette_rgb);
}

#[test]
fn eighty_or_eighty_two_frames_are_not_a_cube() {
    let mut frames = solid(1, 2, 3, 255);
    frames.pop();
    assert!(matches!(
        m2_quantize_for_cube(frames.clone()),
        Err(GifPipeError::InvalidFrameCount { expected: 81, actual: 80 })
    ));
    frames.push(vec![0; 26244]);
    frames.push(vec![0; 26244]);
    assert!(matches!(
        m2_quantize_for_cube(frames),
        Err(GifPipeError::InvalidFrameCount { expected: 81, actual: 82 })
    ));
}

#[test]
fn a_frame_of_the_wrong_size_is_named() {
    let mut frames = solid(1, 2, 3, 255);
    frames[7].pop();
    frames[9].push(0);
    assert!(matches!(
        m2_quantize_for_cube(frames),
        Err(GifPipeError::InvalidFrameSize { index: 7, expected: 26244, actual: 26243 })
    ));
}

#[test]
fn transparent_frames_leave_nothing_to_cluster_when_alpha_weighs() {
    let frames = solid(10, 20, 30, 0);
    let q = OklabQuantizer::new(256).with_attention_weighting(true);
    assert!(matches!(q.quantize_for_cube(&frames), Err(GifPipeError::ClusteringDegenerate)));
    // Without weighting alpha plays no part.
    let cube = OklabQuantizer::new(256).quantize_for_cube(&frames).unwrap();
    assert_eq!(cube.global_palette_rgb, vec![10, 20, 30]);
    // Opaque pixels are always taken.
    let cube = q.quantize_for_cube(&solid(10, 20, 30, 255)).unwrap();
    assert_eq!(cube.global_palette_rgb, vec![10, 20, 30]);
    // No colours or no rounds leave no cluster either.
    assert!(matches!(
        OklabQuantizer::new(0).quantize_for_cube(&frames),
        Err(GifPipeError::ClusteringDegenerate)
    ));
    let mut idle = OklabQuantizer::new(256);
    idle.max_iterations = 0;
    assert!(matches!(idle.quantize_for_cube(&frames), Err(GifPipeError::ClusteringDegenerate)));
}

#[test]
fn the_quantizer_is_set_up_as_asked() {
    let q = OklabQuantizer::new(16);
    assert_eq!(q.max_colors, 16);
    assert_eq!(q.convergence_threshold, 1_000_000);
    assert_eq!(q.max_iterations, 50);
    assert_eq!(q.samples_per_frame, 1000);
    assert!(!q.attention_weighted);
    assert_eq!(q.delay_cs, 4);
    let q = q.with_seed(9).with_delay(7).with_attention_weighting(true);
    assert_eq!((q.seed, q.delay_cs, q.attention_weighted, q.max_colors), (9, 7, true, 16));
    assert_eq!(OklabQuantizer::default().max_colors, 256);
    let cube = OklabQuantizer::new(16).with_delay(7).quantize_for_cube(&gradient()).unwrap();
    check_shape(&cube);
    assert!(cube.global_palette_rgb.len() <= 48);
    assert_eq!(cube.delays_cs, vec![7u8; 81]);
}

#[test]
fn quantized_cubes_encode_and_validate() {
    for looped in [true, false] {
        let cube = m2_quantize_for_cube(checkerboard()).unwrap();
        let bytes = Gif89aEncoder::new().encode_from_cube_data(&cube, 4, looped).unwrap();
        let report = validate_gif_bytes(bytes).unwrap();
        assert!(report.has_valid_header);
        assert!(report.has_trailer);
        assert_eq!(report.has_loop_extension, looped);
        assert_eq!(report.frame_count, 81);
        assert_eq!(report.is_valid, looped);
    }
}

#[test]
fn the_mean_distance_can_exceed_the_percentile() {
    // One frame of many colours among eighty black ones: more than 95 pixels
    // in a hundred are matched exactly, the others are not.
    let mut frames = solid(0, 0, 0, 255);
    let mut s: u32 = 7;
    for p in 0..6561 {
        for c in 0..3 {
            s = s.wrapping_mul(1664525).wrapping_add(1013904223);
            frames[0][4 * p + c] = (s >> 24) as u8;
        }
    }
    let cube = OklabQuantizer::new(256).quantize_for_cube(&frames).unwrap();
    check_shape(&cube);
    assert_eq!(cube.p95_delta_e, 0);
    assert!(cube.mean_delta_e > 0);
}
