use gifpipe::cube::QuantizedCubeData;
use gifpipe::oklab::Oklab;
use gifpipe::quantizer::OklabQuantizer;
use gifpipe::rng::Lcg;
use gifpipe::sample::sample_frame_pixels;

const SIDE: usize = 81;

fn millionths(v: u32) -> f64 {
    v as f64 / 1_000_000.0
}

fn frames_from(colour: impl Fn(usize, usize, usize) -> [u8; 3]) -> Vec<Vec<u8>> {
    let mut frames = Vec::with_capacity(81);
    for frame_idx in 0..81usize {
        let mut frame = Vec::with_capacity(SIDE * SIDE * 4);
        for y in 0..SIDE {
            for x in 0..SIDE {
                frame.extend_from_slice(&colour(x, y, frame_idx));
                frame.push(255);
            }
        }
        frames.push(frame);
    }
    frames
}

fn generate_test_frames_81() -> Vec<Vec<u8>> {
    frames_from(|x, y, frame_idx| {
        [
            ((x * 255 / 81) + frame_idx * 2) as u8,
            ((y * 255 / 81) + frame_idx) as u8,
            (frame_idx * 255 / 81) as u8,
        ]
    })
}

fn generate_gradual_shift_frames() -> Vec<Vec<u8>> {
    frames_from(|x, y, frame_idx| {
        [
            ((x * 200 / 81) + 28) as u8,
            ((y * 200 / 81) + 28) as u8,
            ((frame_idx * 50 / 81) + 100) as u8,
        ]
    })
}

fn generate_high_quality_test_frames() -> Vec<Vec<u8>> {
    let base_colors: [[u8; 3]; 8] = [
        [255, 0, 0],
        [0, 255, 0],
        [0, 0, 255],
        [255, 255, 0],
        [255, 0, 255],
        [0, 255, 255],
        [128, 128, 128],
        [255, 255, 255],
    ];
    frames_from(move |x, y, frame_idx| base_colors[((x / 10) + (y / 10) + frame_idx / 10) % 8])
}

fn generate_diverse_color_frames() -> Vec<Vec<u8>> {
    frames_from(|x, y, frame_idx| {
        [
            ((x * 3 + y * 7 + frame_idx * 11) % 256) as u8,
            ((x * 5 + y * 13 + frame_idx * 17) % 256) as u8,
            ((x * 7 + y * 19 + frame_idx * 23) % 256) as u8,
        ]
    })
}

fn quantize(frames: Vec<Vec<u8>>, max_colors: usize) -> QuantizedCubeData {
    OklabQuantizer::new(max_colors).quantize_for_cube(&frames).unwrap()
}

#[test]
fn test_quantizer_creation() {
    let quantizer = OklabQuantizer::new(16);
    assert_eq!(quantizer.max_colors, 16);
}

#[test]
fn test_pixel_sampling() {
    let frame = [128u8, 128, 128, 255].repeat(SIDE * SIDE);
    let mut rng = Lcg::new(42);
    let mut samples: Vec<Oklab> = Vec::new();
    sample_frame_pixels(&frame, 1000, false, &mut rng, &mut samples);
    assert!(!samples.is_empty());
    assert!(samples.len() <= 1000);
}

#[test]
fn test_quantization_workflow() {
    let frames = vec![[128u8, 128, 128, 255].repeat(SIDE * SIDE); 81];
    let result = quantize(frames, 8);
    assert_eq!(result.indexed_frames.len(), 81);
    assert!(result.global_palette_rgb.len() <= 8 * 3);
    assert!(millionths(result.mean_delta_e) >= 0.0);
}

#[test]
fn test_invalid_frame_data() {
    let quantizer = OklabQuantizer::new(256);
    let invalid_frame = vec![128u8; 100];
    let result = quantizer.quantize_for_cube(&vec![invalid_frame]);
    assert!(result.is_err());
}

#[test]
fn test_global_palette_shared_across_frames() {
    let cube_data = quantize(generate_test_frames_81(), 256);

    assert_eq!(cube_data.indexed_frames.len(), 81);
    assert!(cube_data.global_palette_rgb.len() <= 256 * 3);
    assert!(cube_data.global_palette_rgb.len() >= 3);

    let max_index = (cube_data.global_palette_rgb.len() / 3) - 1;
    for (frame_idx, frame) in cube_data.indexed_frames.iter().enumerate() {
        assert_eq!(frame.len(), 81 * 81, "frame {}", frame_idx);
        for (pixel_idx, &index) in frame.iter().enumerate() {
            assert!(
                (index as usize) <= max_index,
                "frame {} pixel {} has index {} of {} colours",
                frame_idx,
                pixel_idx,
                index,
                max_index + 1
            );
        }
    }
}

#[test]
fn test_temporal_coherence_stability() {
    let cube_data = quantize(generate_gradual_shift_frames(), 256);

    assert!(
        millionths(cube_data.palette_stability) > 0.8,
        "stability {}",
        cube_data.palette_stability
    );
    assert!(millionths(cube_data.mean_delta_e) < 5.0, "mean {}", cube_data.mean_delta_e);
    assert!(millionths(cube_data.p95_delta_e) < 10.0, "p95 {}", cube_data.p95_delta_e);
}

#[test]
fn test_concrete_perceptual_thresholds() {
    let cube_data = quantize(generate_high_quality_test_frames(), 256);

    assert!(millionths(cube_data.mean_delta_e) < 2.0, "mean {}", cube_data.mean_delta_e);
    assert!(millionths(cube_data.p95_delta_e) < 5.0, "p95 {}", cube_data.p95_delta_e);
    assert!(
        millionths(cube_data.palette_stability) > 0.85,
        "stability {}",
        cube_data.palette_stability
    );
}

#[test]
fn test_palette_utilization() {
    let cube_data = quantize(generate_diverse_color_frames(), 256);

    let mut palette_usage = vec![false; 256];
    for frame in &cube_data.indexed_frames {
        for &index in frame {
            palette_usage[index as usize] = true;
        }
    }

    let colors_used = palette_usage.iter().filter(|&&used| used).count();
    let utilization = colors_used as f32 / 256.0;
    assert!(utilization > 0.1, "{} colours used", colors_used);
}
