use gifpipe::cube::QuantizedCubeData;
use gifpipe::error::{GifPipeError, Le16Field, ProcessingError};
use gifpipe::pipeline::{
    calculate_compression_ratio, create_test_cube, get_pipeline_metrics, m3_write_gif_from_cube,
    process_frames_internal, process_gif_frames,
};
use gifpipe::validator::validate_gif_bytes;

fn two_colour_cube() -> QuantizedCubeData {
    let mut frame = Vec::with_capacity(6561);
    for y in 0..81 {
        for x in 0..81 {
            frame.push(((x + y) % 2) as u8);
        }
    }
    QuantizedCubeData {
        width: 81,
        height: 81,
        global_palette_rgb: vec![0, 0, 0, 255, 255, 255],
        indexed_frames: vec![frame; 81],
        delays_cs: vec![4; 81],
        palette_stability: 1_000_000,
        mean_delta_e: 0,
        p95_delta_e: 0,
    }
}

#[test]
fn test_basic_pipeline() {
    let test_cube = create_test_cube();
    assert_eq!(test_cube.width, 4);
    assert_eq!(test_cube.height, 4);
    assert_eq!(test_cube.indexed_frames.len(), 3);
    assert_eq!(test_cube.global_palette_rgb.len(), 12);
    assert_eq!(test_cube.delays_cs, vec![10, 10, 10]);
}

#[test]
fn the_test_cube_is_not_one_the_encoder_takes() {
    assert!(matches!(
        m3_write_gif_from_cube(create_test_cube(), 4, true),
        Err(GifPipeError::InvalidFrameCount { expected: 81, actual: 3 })
    ));
}

#[test]
fn encoding_reports_what_came_out() {
    let info = m3_write_gif_from_cube(two_colour_cube(), 4, true).unwrap();
    assert_eq!(info.file_path, "");
    assert_eq!(info.file_size_bytes, info.gif_data.len() as u64);
    assert_eq!(info.frame_count, 81);
    assert_eq!(info.palette_size, 2);
    assert!(info.has_netscape_loop);
    assert!(info.validation_passed);
    assert_eq!(info.processing_time_ms, 0);
    assert_eq!(info.total_processing_ms, 0);
    assert_eq!(info.compression_ratio, 1_594_323_000_000 / info.gif_data.len() as u64);
    assert!(info.compression_ratio > 2_000_000);
    let without = m3_write_gif_from_cube(two_colour_cube(), 4, false).unwrap();
    assert!(!without.has_netscape_loop);
    assert_eq!(without.gif_data.len() + 19, info.gif_data.len());
}

#[test]
fn the_ratio_counts_millionths() {
    assert_eq!(calculate_compression_ratio(1_594_323), 1_000_000);
    assert_eq!(calculate_compression_ratio(1), 1_594_323_000_000);
    assert_eq!(calculate_compression_ratio(3_000_000), 531_441);
}

#[test]
fn the_loop_flag_decides_on_the_marker() {
    let with = m3_write_gif_from_cube(two_colour_cube(), 4, true).unwrap().gif_data;
    let without = m3_write_gif_from_cube(two_colour_cube(), 4, false).unwrap().gif_data;
    assert!(with.windows(11).any(|w| w == b"NETSCAPE2.0"));
    assert!(!without.windows(11).any(|w| w == b"NETSCAPE2.0"));
    let report = validate_gif_bytes(with).unwrap();
    assert!(report.has_loop_extension);
    let report = validate_gif_bytes(without).unwrap();
    assert!(!report.has_loop_extension);
    assert!(!report.is_valid);
    assert!(report.has_valid_header);
    assert!(report.has_trailer);
    assert!(report.frame_count >= 81);
}

#[test]
fn the_validator_reports_on_any_bytes() {
    let report = validate_gif_bytes(Vec::new()).unwrap();
    assert!(!report.is_valid);
    assert!(!report.has_valid_header);
    assert!(!report.has_loop_extension);
    assert!(!report.has_trailer);
    assert_eq!(report.frame_count, 0);
    assert_eq!(
        report.errors,
        vec![
            "GIF too small (< 13 bytes)".to_string(),
            "Missing GIF89a header".to_string(),
            "Missing GIF trailer (0x3B)".to_string()
        ]
    );

    let report = validate_gif_bytes(b"GIF89a".to_vec()).unwrap();
    assert!(report.has_valid_header);
    assert!(!report.has_trailer);
    assert_eq!(
        report.errors,
        vec!["GIF too small (< 13 bytes)".to_string(), "Missing GIF trailer (0x3B)".to_string()]
    );

    let mut bytes = b"GIF87a".to_vec();
    bytes.extend_from_slice(b"...NETSCAPE2.0...");
    bytes.extend_from_slice(&[0x2C; 81]);
    bytes.push(0x3B);
    let report = validate_gif_bytes(bytes.clone()).unwrap();
    assert!(!report.has_valid_header);
    assert!(report.has_loop_extension);
    assert!(report.has_trailer);
    assert_eq!(report.frame_count, 81);
    assert!(!report.is_valid);
    assert_eq!(report.errors, vec!["Missing GIF89a header".to_string()]);

    bytes[3] = b'8';
    bytes[4] = b'9';
    let report = validate_gif_bytes(bytes.clone()).unwrap();
    assert!(report.is_valid);
    assert!(report.errors.is_empty());

    bytes.insert(30, 0x2C);
    let report = validate_gif_bytes(bytes.clone()).unwrap();
    assert_eq!(report.frame_count, 82);
    assert!(!report.is_valid);

    // The marker counts wherever it stands, also at the very end.
    let mut tail = b"GIF89a".to_vec();
    tail.extend_from_slice(&[0x2C; 81]);
    tail.extend_from_slice(b"NETSCAPE2.0");
    let report = validate_gif_bytes(tail).unwrap();
    assert!(report.has_loop_extension);
    assert!(!report.has_trailer);
    let report = validate_gif_bytes(b"NETSCAPE2.".to_vec()).unwrap();
    assert!(!report.has_loop_extension);
}

#[test]
fn the_retired_calls_say_so() {
    match process_gif_frames(vec![1, 2, 3], "session".to_string()) {
        Err(ProcessingError::ProcessingFailed { message }) => assert_eq!(
            message,
            "Legacy API deprecated - use m2_quantize_for_cube + m3_write_gif_from_cube"
        ),
        other => panic!("unexpected: {:?}", other),
    }
    assert_eq!(
        get_pipeline_metrics(),
        "{\"status\": \"deprecated\", \"message\": \"Use structured logging with session IDs instead\"}"
    );
}

#[test]
fn every_error_has_its_code() {
    assert_eq!(GifPipeError::InvalidFrameCount { expected: 81, actual: 80 }.code(), "E_M1_INPUT");
    assert_eq!(
        GifPipeError::InvalidFrameSize { index: 0, expected: 26244, actual: 1 }.code(),
        "E_M1_INPUT"
    );
    assert_eq!(GifPipeError::InvalidPaletteSize { actual: 769 }.code(), "E_VALIDATION");
    assert_eq!(
        GifPipeError::InvalidIndex { frame: 0, pixel: 0, index: 9, palette_entries: 9 }.code(),
        "E_VALIDATION"
    );
    assert_eq!(GifPipeError::EncodingOverflow { field: Le16Field::Delay }.code(), "E_M3_ENCODE");
    assert_eq!(GifPipeError::ClusteringDegenerate.code(), "E_M2_PALETTE");
}

#[test]
fn the_whole_pipeline_in_one_call() {
    let frames = vec![[200u8, 100, 50, 255].repeat(6561); 81];
    let info = process_frames_internal(frames.clone()).unwrap();
    assert_eq!(info.frame_count, 81);
    assert_eq!(info.palette_size, 1);
    assert!(info.has_netscape_loop);
    assert!(info.validation_passed);
    assert_eq!(info.file_size_bytes, info.gif_data.len() as u64);
    let cube = gifpipe::quantizer::m2_quantize_for_cube(frames).unwrap();
    let direct = m3_write_gif_from_cube(cube, 4, true).unwrap();
    assert_eq!(info.gif_data, direct.gif_data);
    let report = validate_gif_bytes(info.gif_data).unwrap();
    assert!(report.is_valid);

    match process_frames_internal(vec![vec![0u8; 26244]; 80]) {
        Err(ProcessingError::ProcessingFailed { message }) => {
            assert_eq!(message, "M2 quantization failed")
        }
        other => panic!("unexpected: {:?}", other.map(|i| i.frame_count)),
    }
}
