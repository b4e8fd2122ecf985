use gifpipe::m2down::{
    baseline_block_average, get_m2_version, m2_downsize_9x9_cpu, m2_initialize_model, M2Error,
    M2Model,
};

fn gradient_frame() -> Vec<u8> {
    let mut input = vec![0u8; 729 * 729 * 4];
    for y in 0..729 {
        for x in 0..729 {
            let idx = (y * 729 + x) * 4;
            input[idx] = (x * 255 / 729) as u8;
            input[idx + 1] = (y * 255 / 729) as u8;
            input[idx + 2] = 128;
            input[idx + 3] = 255;
        }
    }
    input
}

#[test]
fn test_neural_downsize_initialization() {
    let mut model = M2Model::new();
    let result = m2_initialize_model(&mut model, &vec![0u8; 4096]);
    assert!(result.is_ok());
    assert!(model.loaded);
}

#[test]
fn a_model_of_1000_bytes_is_too_small_and_the_first_attempt_decides() {
    let mut model = M2Model::new();
    assert_eq!(m2_initialize_model(&mut model, &vec![0u8; 1000]), Err(M2Error::ModelLoadError));
    assert!(model.attempted);
    assert!(!model.loaded);
    assert_eq!(m2_initialize_model(&mut model, &vec![0u8; 5000]), Err(M2Error::ModelLoadError));
    let mut model = M2Model::new();
    assert_eq!(m2_initialize_model(&mut model, &vec![0u8; 1001]), Ok(()));
    assert_eq!(m2_initialize_model(&mut model, &vec![]), Ok(()));
    assert!(model.loaded);
}

#[test]
fn test_enhanced_downsize() {
    let input = gradient_frame();
    let mut model = M2Model::new();
    let _ = m2_initialize_model(&mut model, &vec![0u8; 4096]);
    let result = m2_downsize_9x9_cpu(input, 729, 729).unwrap();
    assert_eq!(result.len(), 81 * 81 * 4);
    assert!(result[0] < 30);
    assert!(result[1] < 30);
    assert!((result[2] as i32 - 128).abs() < 10);
    assert!(result[3] >= 250);
}

#[test]
fn lib_test_baseline_downsize() {
    let mut input = vec![0u8; 729 * 729 * 4];
    for i in (0..input.len()).step_by(4) {
        input[i] = 100;
        input[i + 1] = 150;
        input[i + 2] = 200;
        input[i + 3] = 255;
    }
    let result = baseline_block_average(&input, 729, 729).unwrap();
    assert_eq!(result.len(), 81 * 81 * 4);
    assert_eq!(result[0], 100);
    assert_eq!(result[1], 150);
    assert_eq!(result[2], 200);
    assert_eq!(result[3], 255);
}

#[test]
fn lib_test_invalid_dimensions() {
    let input = vec![0u8; 100 * 100 * 4];
    let result = m2_downsize_9x9_cpu(input, 100, 100);
    assert!(matches!(result, Err(M2Error::InvalidInputDimensions { .. })));
}

#[test]
fn lib_simple_test_baseline_downsize() {
    let input = gradient_frame();
    let result = m2_downsize_9x9_cpu(input, 729, 729).unwrap();
    assert_eq!(result.len(), 81 * 81 * 4);
    assert!(result[0] < 20);
    assert!(result[1] < 20);
    assert!((result[2] as i32 - 128).abs() < 5);
    assert_eq!(result[3], 255);
}

#[test]
fn lib_simple_test_invalid_dimensions() {
    let input = vec![0u8; 100 * 100 * 4];
    let result = m2_downsize_9x9_cpu(input, 100, 100);
    assert!(result.is_err());
    assert_eq!(result, Err(M2Error::InvalidInputDimensions { width: 100, height: 100 }));
}

#[test]
fn a_buffer_of_the_wrong_length_is_refused_after_the_dimensions() {
    assert_eq!(
        m2_downsize_9x9_cpu(vec![0u8; 10], 729, 729),
        Err(M2Error::InvalidDataSize { expected: 2125764, actual: 10 })
    );
    assert_eq!(
        m2_downsize_9x9_cpu(vec![0u8; 10], 729, 728),
        Err(M2Error::InvalidInputDimensions { width: 729, height: 728 })
    );
}

#[test]
fn each_output_pixel_is_the_mean_of_its_block_rounded_down() {
    let input = gradient_frame();
    let out = m2_downsize_9x9_cpu(input.clone(), 729, 729).unwrap();
    for &(ox, oy) in &[(0usize, 0usize), (80, 80), (17, 63), (80, 0)] {
        for c in 0..4 {
            let mut sum = 0u32;
            for dy in 0..9 {
                for dx in 0..9 {
                    sum += input[((oy * 9 + dy) * 729 + ox * 9 + dx) * 4 + c] as u32;
                }
            }
            assert_eq!(out[(oy * 81 + ox) * 4 + c] as u32, sum / 81);
        }
    }
    // A block whose mean is not whole: 80 pixels of 0 and one of 255.
    let mut sparse = vec![0u8; 729 * 729 * 4];
    sparse[(4 * 729 + 4) * 4] = 255;
    let out = m2_downsize_9x9_cpu(sparse, 729, 729).unwrap();
    assert_eq!(out[0], 3);
    assert_eq!(out[4], 0);
}

#[test]
fn the_version_names_the_baseline() {
    assert_eq!(get_m2_version(), "1.0.0-baseline");
}
