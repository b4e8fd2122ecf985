use gifpipe::frame::{CborFrame, CborFrameV2, CurrentCborFrame, InsufficientData};

#[test]
fn test_stride_handling() {
    let width = 100;
    let height = 100;
    let stride = 416;
    let mut rgba_padded = vec![0u8; (stride * height) as usize];
    for y in 0..height {
        for x in 0..width {
            let offset = (y * stride + x * 4) as usize;
            rgba_padded[offset] = x as u8;
            rgba_padded[offset + 1] = y as u8;
            rgba_padded[offset + 2] = 255;
            rgba_padded[offset + 3] = 255;
        }
    }
    let frame = CborFrame::new(width, height, rgba_padded, stride, 0);
    let packed = frame.get_packed_rgba();
    assert_eq!(packed.len(), (width * height * 4) as usize);
    assert_eq!(packed[0], 0);
    assert_eq!(packed[1], 0);
    assert_eq!(packed[2], 255);
    assert_eq!(packed[3], 255);
}

#[test]
fn a_new_frame_is_version_one_rgba_in_srgb() {
    let frame = CborFrame::new(2, 1, vec![1, 2, 3, 4, 5, 6, 7, 8], 8, 1234567890);
    assert_eq!(frame.v, 1);
    assert_eq!(frame.ts, 1234567890);
    assert_eq!(frame.w, 2);
    assert_eq!(frame.h, 1);
    assert_eq!(frame.fmt, "RGBA8888");
    assert_eq!(frame.stride, 8);
    assert!(!frame.premul);
    assert_eq!(frame.colorspace, "sRGB");
    assert_eq!(frame.get_packed_rgba(), vec![1, 2, 3, 4, 5, 6, 7, 8]);
}

#[test]
fn padding_is_dropped_and_an_incomplete_row_left_out() {
    // Two pixels per row, stride 10: two bytes of padding behind each row.
    let data: Vec<u8> = (0..30).collect();
    let frame = CborFrame::new(2, 3, data.clone(), 10, 0);
    assert_eq!(
        frame.get_packed_rgba(),
        vec![0, 1, 2, 3, 4, 5, 6, 7, 10, 11, 12, 13, 14, 15, 16, 17, 20, 21, 22, 23, 24, 25, 26, 27]
    );
    // The third row would need bytes 20..28; only 25 are there.
    let frame = CborFrame::new(2, 3, data[..25].to_vec(), 10, 0);
    assert_eq!(
        frame.get_packed_rgba(),
        vec![0, 1, 2, 3, 4, 5, 6, 7, 10, 11, 12, 13, 14, 15, 16, 17]
    );
    // With the stride of a tight frame the buffer comes back whole.
    let frame = CborFrame::new(2, 3, data[..25].to_vec(), 8, 0);
    assert_eq!(frame.get_packed_rgba(), data[..25].to_vec());
}

#[test]
fn the_current_layout_packs_rows_the_same_way() {
    let data: Vec<u8> = (0..30).collect();
    let frame = CurrentCborFrame::new(data.clone(), 10, 2, 3, "RGBA8888".to_string(), 77);
    assert_eq!(frame.stride, 10);
    assert_eq!(frame.width, 2);
    assert_eq!(frame.height, 3);
    assert_eq!(frame.format, "RGBA8888");
    assert_eq!(frame.timestamp_ms, 77);
    assert_eq!(
        frame.get_rgba_row_data(),
        vec![0, 1, 2, 3, 4, 5, 6, 7, 10, 11, 12, 13, 14, 15, 16, 17, 20, 21, 22, 23, 24, 25, 26, 27]
    );
    let tight = CurrentCborFrame::new(data.clone(), 8, 2, 3, "RGBA8888".to_string(), 0);
    assert_eq!(tight.get_rgba_row_data(), data);
}

#[test]
fn test_cbor_v2_creation() {
    let frame = CborFrameV2::new(729, 729, vec![128; 729 * 729 * 4], 729 * 4, 0, 1234567890);
    assert_eq!(frame.version, 0x0200);
    assert_eq!(frame.width, 729);
    assert_eq!(frame.height, 729);
    assert!(frame.verify_integrity());
}

#[test]
fn test_stride_removal() {
    let width = 100u16;
    let height = 100u16;
    let stride = 416u32;
    let mut raw_data = vec![0u8; (stride * height as u32) as usize];
    for y in 0..height {
        for x in 0..width {
            let offset = (y as u32 * stride + x as u32 * 4) as usize;
            raw_data[offset] = x as u8;
            raw_data[offset + 1] = y as u8;
            raw_data[offset + 2] = 255;
            raw_data[offset + 3] = 255;
        }
    }
    let frame = CborFrameV2::from_camera_data(&raw_data, width, height, stride, 0, 0).unwrap();
    assert_eq!(frame.rgba_data.len(), width as usize * height as usize * 4);
    assert_eq!(frame.stride, width as u32 * 4);
    assert_eq!(frame.rgba_data[0], 0);
    assert_eq!(frame.rgba_data[1], 0);
    assert_eq!(frame.rgba_data[2], 255);
    assert_eq!(frame.rgba_data[3], 255);
}

#[test]
fn the_checksum_is_the_crc32_of_the_pixels() {
    let frame = CborFrameV2::new(2, 2, vec![128; 16], 8, 3, 9);
    assert_eq!(frame.checksum, 3833770604);
    assert_eq!(frame.frame_index, 3);
    assert_eq!(frame.timestamp_ms, 9);
    assert_eq!(frame.pixel_format, 1);
    assert!(frame.verify_integrity());
    let mut broken = frame.clone();
    broken.rgba_data[5] = 127;
    assert!(!broken.verify_integrity());
    assert_eq!(CborFrameV2::new(0, 0, vec![], 0, 0, 0).checksum, 0);
    let counting: Vec<u8> = (0..16).collect();
    assert_eq!(CborFrameV2::new(2, 2, counting, 8, 0, 0).checksum, 3469664904);
}

#[test]
fn camera_data_must_hold_every_row() {
    let raw: Vec<u8> = (0..30).collect();
    assert_eq!(
        CborFrameV2::from_camera_data(&raw, 2, 3, 11, 0, 0).unwrap_err(),
        InsufficientData { got: 30, expected: 33 }
    );
    let frame = CborFrameV2::from_camera_data(&raw, 2, 3, 10, 1, 2).unwrap();
    assert_eq!(
        frame.rgba_data,
        vec![0, 1, 2, 3, 4, 5, 6, 7, 10, 11, 12, 13, 14, 15, 16, 17, 20, 21, 22, 23, 24, 25, 26, 27]
    );
    assert_eq!(frame.stride, 8);
    assert!(frame.verify_integrity());
    // A tight buffer is cut to the rows of the frame.
    let frame = CborFrameV2::from_camera_data(&raw, 2, 3, 8, 1, 2).unwrap();
    assert_eq!(frame.rgba_data, raw[..24].to_vec());
}

#[test]
fn statistics_count_what_is_there() {
    let pixels = vec![
        0, 255, 16, 255, //
        15, 100, 31, 255, //
        16, 100, 200, 0, //
        255, 1, 200, 254,
    ];
    let frame = CborFrameV2::new(2, 2, pixels, 8, 0, 0);
    let stats = frame.get_statistics();
    assert_eq!(stats.avg_r, 71);
    assert_eq!(stats.avg_g, 114);
    assert_eq!(stats.avg_b, 111);
    assert_eq!(stats.avg_a, 191);
    assert_eq!(stats.clipped_pixels, 3);
    assert_eq!(stats.non_opaque_pixels, 2);
    let mut r = [0u32; 16];
    r[0] = 2;
    r[1] = 1;
    r[15] = 1;
    assert_eq!(stats.r_histogram, r);
    let mut g = [0u32; 16];
    g[15] = 1;
    g[6] = 2;
    g[0] = 1;
    assert_eq!(stats.g_histogram, g);
    let mut b = [0u32; 16];
    b[1] = 2;
    b[12] = 2;
    assert_eq!(stats.b_histogram, b);
}
