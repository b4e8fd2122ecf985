use gifpipe::animation::{
    encode_gif89a_from_quantized, encode_gif89a_rgba, encode_rgba_frames_to_gif89a,
    m3_gif89a_encode_rgba_frames, verify_gif_structure, GifEncodeOptions,
};
use gifpipe::lct::{
    count_colours, find_nearest_palette_index, median_cut_quantize, quantize_rgba_frames,
    quantize_rgba_to_lct, sort_by_frequency, strip_alpha, ColourCount, GifError,
    QuantizationMethod, QuantizeOptions,
};

fn colour(r: u8, g: u8, b: u8, count: usize) -> ColourCount {
    ColourCount { r, g, b, count }
}

fn gradient_frame(shift: usize) -> Vec<u8> {
    let mut frame = Vec::with_capacity(26244);
    for y in 0..81usize {
        for x in 0..81usize {
            frame.extend_from_slice(&[(x * 3 + shift) as u8, (y * 3) as u8, 128, 255]);
        }
    }
    frame
}

fn decode(bytes: &[u8]) -> (Vec<(u16, Vec<u8>, Vec<u8>)>, bool) {
    let mut options = gif::DecodeOptions::new();
    options.set_color_output(gif::ColorOutput::Indexed);
    let mut decoder = options.read_info(bytes).unwrap();
    let mut frames = Vec::new();
    while let Some(frame) = decoder.read_next_frame().unwrap() {
        frames.push((frame.delay, frame.palette.clone().unwrap(), frame.buffer.to_vec()));
    }
    (frames, matches!(decoder.repeat(), gif::Repeat::Infinite))
}

#[test]
fn test_quantization() {
    let rgba = vec![255, 0, 0, 255, 0, 255, 0, 255, 0, 0, 255, 255, 255, 255, 0, 255];
    let (palette, indices) =
        quantize_rgba_to_lct(&rgba, 2, 2, QuantizationMethod::MedianCut { colors: 4 }).unwrap();
    assert_eq!(palette.len(), 12);
    assert_eq!(indices.len(), 4);
    // Equally frequent colours keep the order in which they first occur.
    assert_eq!(palette, vec![255, 0, 0, 0, 255, 0, 0, 0, 255, 255, 255, 0]);
    assert_eq!(indices, vec![0, 1, 2, 3]);
}

#[test]
fn frequent_colours_come_first_and_rare_ones_go_to_their_neighbour() {
    // Five pixels: blue twice, red once, dark blue twice, nearly red once... in
    // a row of six.
    let rgba = vec![
        0, 0, 255, 255, 250, 0, 0, 255, 0, 0, 100, 255, 0, 0, 255, 9, 0, 0, 100, 255, 255, 10, 0,
        255,
    ];
    let counted = count_colours(&rgba, 6);
    assert_eq!(
        counted,
        vec![colour(0, 0, 255, 2), colour(250, 0, 0, 1), colour(0, 0, 100, 2), colour(255, 10, 0, 1)]
    );
    let sorted = sort_by_frequency(&counted);
    assert_eq!(
        sorted,
        vec![colour(0, 0, 255, 2), colour(0, 0, 100, 2), colour(250, 0, 0, 1), colour(255, 10, 0, 1)]
    );
    let (palette, indices) = median_cut_quantize(&rgba, 6, 3);
    assert_eq!(palette, vec![0, 0, 255, 0, 0, 100, 250, 0, 0]);
    // The last pixel lost its colour and takes the nearest one kept.
    assert_eq!(indices, vec![0, 2, 1, 0, 1, 2]);
    let (palette, indices) = median_cut_quantize(&rgba, 6, 5);
    assert_eq!(palette, vec![0, 0, 255, 0, 0, 100, 250, 0, 0, 255, 10, 0, 0, 0, 0]);
    assert_eq!(indices, vec![0, 2, 1, 0, 1, 3]);
    let (palette, indices) = median_cut_quantize(&rgba, 6, 1);
    assert_eq!(palette, vec![0, 0, 255]);
    assert_eq!(indices, vec![0; 6]);
}

#[test]
fn the_nearest_colour_is_the_first_of_the_nearest() {
    let palette = vec![colour(10, 10, 10, 1), colour(20, 10, 10, 1), colour(0, 10, 10, 1)];
    assert_eq!(find_nearest_palette_index((15, 10, 10), &palette), 0);
    assert_eq!(find_nearest_palette_index((16, 10, 10), &palette), 1);
    assert_eq!(find_nearest_palette_index((4, 10, 10), &palette), 2);
    assert_eq!(find_nearest_palette_index((5, 10, 10), &palette), 0);
    assert_eq!(find_nearest_palette_index((1, 2, 3), &Vec::new()), 0);
}

#[test]
fn a_buffer_that_is_not_the_image_or_a_method_that_cannot_be_is_refused() {
    let method = QuantizationMethod::default();
    assert_eq!(method, QuantizationMethod::NeuQuant { colors: 256, sample_fac: 10 });
    assert_eq!(
        quantize_rgba_to_lct(&vec![0; 15], 2, 2, method),
        Err(GifError::InvalidDimensions { expected: 16, actual: 15 })
    );
    let rgba = vec![0u8; 16];
    for bad in [
        QuantizationMethod::NeuQuant { colors: 0, sample_fac: 10 },
        QuantizationMethod::NeuQuant { colors: 257, sample_fac: 10 },
        QuantizationMethod::NeuQuant { colors: 256, sample_fac: 0 },
        QuantizationMethod::NeuQuant { colors: 256, sample_fac: 31 },
        QuantizationMethod::MedianCut { colors: 0 },
        QuantizationMethod::MedianCut { colors: 300 },
    ] {
        assert!(matches!(
            quantize_rgba_to_lct(&rgba, 2, 2, bad),
            Err(GifError::QuantizationError { .. })
        ));
    }
    // The size of the buffer is looked at first.
    assert!(matches!(
        quantize_rgba_to_lct(&vec![0; 3], 2, 2, QuantizationMethod::MedianCut { colors: 0 }),
        Err(GifError::InvalidDimensions { expected: 16, actual: 3 })
    ));
}

#[test]
fn the_network_gives_a_table_and_diffused_indices() {
    let frame = gradient_frame(0);
    let method = QuantizationMethod::NeuQuant { colors: 256, sample_fac: 1 };
    let (palette, indices) = quantize_rgba_to_lct(&frame, 81, 81, method).unwrap();
    assert_eq!(palette.len(), 768);
    assert_eq!(indices.len(), 6561);
    // The table is that of the network, without alpha.
    let nq = color_quant::NeuQuant::new(1, 256, &frame);
    assert_eq!(palette, nq.color_map_rgb());
    assert_ne!(palette[..26244.min(palette.len())], frame[..palette.len()]);
    // The first pixel has no error waiting; every index follows from the
    // errors of the pixels before it.
    assert_eq!(indices[0] as usize, nq.index_of(&[frame[0], frame[1], frame[2], 255]));
    let mut err = vec![[0i32; 3]; 6561];
    for i in 0..6561usize {
        let (x, y) = (i % 81, i / 81);
        let mut c = [0u8; 3];
        for k in 0..3 {
            c[k] = (frame[4 * i + k] as i32 + err[i][k]).clamp(0, 255) as u8;
        }
        let index = nq.index_of(&[c[0], c[1], c[2], 255]);
        assert_eq!(indices[i] as usize, index, "pixel {}", i);
        for k in 0..3 {
            let e = c[k] as i32 - palette[3 * index + k] as i32;
            if x + 1 < 81 {
                err[i + 1][k] += e * 7 / 16;
            }
            if y + 1 < 81 && x > 0 {
                err[i + 80][k] += e * 3 / 16;
            }
            if y + 1 < 81 {
                err[i + 81][k] += e * 5 / 16;
            }
            if y + 1 < 81 && x + 1 < 81 {
                err[i + 82][k] += e / 16;
            }
        }
    }
    // Diffusion does change indices: without it some pixels map elsewhere.
    let plain: Vec<u8> =
        frame.chunks_exact(4).map(|p| nq.index_of(&[p[0], p[1], p[2], 255]) as u8).collect();
    assert_ne!(plain, indices);
}

#[test]
fn alpha_drops_out_of_a_colour_map() {
    assert_eq!(strip_alpha(&vec![1, 2, 3, 4, 5, 6, 7, 8, 9]), vec![1, 2, 3, 5, 6, 7]);
    assert_eq!(strip_alpha(&vec![]), Vec::<u8>::new());
}

#[test]
fn frames_share_one_network() {
    let frames = vec![gradient_frame(0), gradient_frame(9), vec![1, 2, 3, 255, 9]];
    let quantized = quantize_rgba_frames(&frames, 81, 81, None).unwrap();
    assert_eq!(quantized.len(), 3);
    let mut all = Vec::new();
    for frame in &frames {
        all.extend_from_slice(frame);
    }
    let nq = color_quant::NeuQuant::new(10, 256, &all);
    for (f, (indices, palette)) in quantized.iter().enumerate() {
        assert_eq!(palette, &nq.color_map_rgb());
        let expect: Vec<u8> = frames[f].chunks_exact(4).map(|p| nq.index_of(p) as u8).collect();
        assert_eq!(indices, &expect);
    }
    assert_eq!(quantized[2].0.len(), 1);
    let other = quantize_rgba_frames(&frames, 81, 81, Some(QuantizeOptions { sample_fac: 1 }))
        .unwrap();
    assert_ne!(other[0].1, quantized[0].1);
    assert!(matches!(
        quantize_rgba_frames(&frames, 81, 81, Some(QuantizeOptions { sample_fac: 0 })),
        Err(GifError::QuantizationError { colors: 256, .. })
    ));
    assert!(matches!(
        quantize_rgba_frames(&frames, 81, 81, Some(QuantizeOptions { sample_fac: 31 })),
        Err(GifError::QuantizationError { colors: 256, .. })
    ));
    assert_eq!(QuantizeOptions::default().sample_fac, 10);
}

#[test]
fn frames_with_their_own_tables_read_back() {
    let frames = vec![gradient_frame(0), gradient_frame(5), gradient_frame(10)];
    let method = QuantizationMethod::NeuQuant { colors: 256, sample_fac: 10 };
    let bytes = encode_gif89a_rgba(&frames, 81, 81, 6, true, method).unwrap();
    assert_eq!(&bytes[0..6], b"GIF89a");
    assert_eq!(&bytes[6..19], &[81, 0, 81, 0, 0x80, 0, 0, 0, 0, 0, 0, 0, 0]);
    assert_eq!(&bytes[19..22], &[0x21, 0xFF, 0x0B]);
    assert_eq!(&bytes[22..33], b"NETSCAPE2.0");
    assert_eq!(&bytes[33..38], &[3, 1, 0, 0, 0]);
    assert_eq!(*bytes.last().unwrap(), 0x3B);
    let (decoded, repeats) = decode(&bytes);
    assert!(repeats);
    assert_eq!(decoded.len(), 3);
    for (f, (delay, palette, indices)) in decoded.iter().enumerate() {
        let (table, expect) = quantize_rgba_to_lct(&frames[f], 81, 81, method).unwrap();
        assert_eq!(*delay, 6);
        assert_eq!(palette, &table);
        assert_eq!(indices, &expect);
    }
    let once = encode_gif89a_rgba(&frames, 81, 81, 6, false, method).unwrap();
    assert_eq!(once.len() + 19, bytes.len());
    assert_eq!(&once[..19], &bytes[..19]);
    assert_eq!(&once[19..], &bytes[38..]);
    assert!(!decode(&once).1);
}

#[test]
fn frames_that_cannot_be_encoded_are_refused() {
    let method = QuantizationMethod::default();
    assert_eq!(
        encode_gif89a_rgba(&Vec::new(), 81, 81, 4, true, method),
        Err(GifError::InvalidFrameCount(0))
    );
    let frames = vec![gradient_frame(0), vec![0; 100]];
    assert_eq!(
        encode_gif89a_rgba(&frames, 81, 81, 4, true, method),
        Err(GifError::InvalidDimensions { expected: 26244, actual: 100 })
    );
    assert!(matches!(
        encode_gif89a_rgba(
            &frames,
            81,
            81,
            4,
            true,
            QuantizationMethod::MedianCut { colors: 0 }
        ),
        Err(GifError::QuantizationError { .. })
    ));
    // A stream of less than 100 bytes is not taken for an animation.
    let tiny = vec![vec![7u8, 7, 7, 255]];
    assert_eq!(
        encode_gif89a_rgba(&tiny, 1, 1, 4, false, QuantizationMethod::MedianCut { colors: 2 }),
        Err(GifError::EncodingError("GIF too small".to_string()))
    );
}

#[test]
fn a_stream_needs_size_signature_and_trailer() {
    let mut bytes = b"GIF89a".to_vec();
    bytes.extend_from_slice(&[0u8; 93]);
    assert_eq!(
        verify_gif_structure(&bytes, 1),
        Err(GifError::EncodingError("GIF too small".to_string()))
    );
    bytes.push(0x3B);
    assert_eq!(verify_gif_structure(&bytes, 1), Ok(()));
    bytes[99] = 0;
    assert_eq!(
        verify_gif_structure(&bytes, 1),
        Err(GifError::EncodingError("Invalid GIF trailer: expected 0x3B".to_string()))
    );
    bytes[0] = b'g';
    assert_eq!(
        verify_gif_structure(&bytes, 1),
        Err(GifError::EncodingError("Invalid GIF header: expected GIF89a".to_string()))
    );
}

#[test]
fn quantized_frames_are_written_as_given() {
    let frames = vec![gradient_frame(0), gradient_frame(30)];
    let quantized = quantize_rgba_frames(&frames, 81, 81, None).unwrap();
    let options = GifEncodeOptions { delay_cs: 9, loop_gif: false };
    let bytes = encode_gif89a_from_quantized(&quantized, 81, 81, Some(options)).unwrap();
    let (decoded, repeats) = decode(&bytes);
    assert!(!repeats);
    assert_eq!(decoded.len(), 2);
    for (f, (delay, palette, indices)) in decoded.iter().enumerate() {
        assert_eq!(*delay, 9);
        assert_eq!(palette, &quantized[f].1);
        assert_eq!(indices, &quantized[f].0);
    }
    let defaults = encode_gif89a_from_quantized(&quantized, 81, 81, None).unwrap();
    let (decoded, repeats) = decode(&defaults);
    assert!(repeats);
    assert_eq!(decoded[0].0, 4);
    assert_eq!(GifEncodeOptions::default().delay_cs, 4);
    assert!(GifEncodeOptions::default().loop_gif);
    assert_eq!(encode_rgba_frames_to_gif89a(&frames, 81, 81, None, None).unwrap(), defaults);
    assert_eq!(m3_gif89a_encode_rgba_frames(&frames).unwrap(), defaults);
    assert!(matches!(
        encode_gif89a_from_quantized(&quantized, 80, 81, None),
        Err(GifError::InvalidDimensions { expected: 6480, actual: 6561 })
    ));
    assert!(matches!(
        encode_gif89a_from_quantized(&quantized, 70000, 81, None),
        Err(GifError::InvalidDimensions { .. })
    ));
    assert!(matches!(
        encode_rgba_frames_to_gif89a(
            &frames,
            81,
            81,
            None,
            Some(QuantizeOptions { sample_fac: 99 })
        ),
        Err(GifError::QuantizationError { .. })
    ));
}

#[test]
fn frames_of_the_cube_must_have_26244_bytes() {
    assert_eq!(m3_gif89a_encode_rgba_frames(&Vec::new()), Err(GifError::InvalidFrameCount(0)));
    let frames = vec![gradient_frame(0), vec![0; 26240], vec![0; 3]];
    assert_eq!(
        m3_gif89a_encode_rgba_frames(&frames),
        Err(GifError::InvalidDimensions { expected: 26244, actual: 26240 })
    );
}

#[test]
fn each_frame_can_have_a_network_of_its_own() {
    let frames = vec![(gradient_frame(0), 81u32, 81u32), (gradient_frame(100), 81, 81)];
    let quantized = gifpipe::lct::quantize_frames(&frames, 10).unwrap();
    assert_eq!(quantized.len(), 2);
    for (f, q) in quantized.iter().enumerate() {
        let rgb: Vec<u8> = frames[f].0.chunks_exact(4).flat_map(|p| [p[0], p[1], p[2]]).collect();
        let nq = color_quant::NeuQuant::new(10, 256, &rgb);
        assert_eq!(q.palette, nq.color_map_rgb());
        let expect: Vec<u8> = frames[f].0.chunks_exact(4).map(|p| nq.index_of(p) as u8).collect();
        assert_eq!(q.indices, expect);
        assert_eq!((q.width, q.height), (81, 81));
    }
    assert_ne!(quantized[0].palette, quantized[1].palette);
    assert!(matches!(
        gifpipe::lct::quantize_frames(&frames, 0),
        Err(GifError::QuantizationError { colors: 256, sample_fac: 0 })
    ));
    assert!(matches!(
        gifpipe::lct::quantize_frames(&frames, 31),
        Err(GifError::QuantizationError { colors: 256, sample_fac: 255 })
    ));
}

#[test]
fn a_frame_brings_control_descriptor_and_table() {
    let palette = vec![255u8, 0, 0, 0, 255, 0, 0, 0, 255];
    let frames = vec![(vec![0u8, 1, 2, 0], palette.clone())];
    let options = GifEncodeOptions { delay_cs: 0x0107, loop_gif: false };
    let bytes = encode_gif89a_from_quantized(&frames, 2, 2, Some(options)).unwrap();
    assert_eq!(&bytes[0..6], b"GIF89a");
    assert_eq!(&bytes[6..19], &[2, 0, 2, 0, 0x80, 0, 0, 0, 0, 0, 0, 0, 0]);
    assert_eq!(&bytes[19..27], &[0x21, 0xF9, 0x04, 0x04, 0x07, 0x01, 0x00, 0x00]);
    assert_eq!(&bytes[27..37], &[0x2C, 0, 0, 0, 0, 2, 0, 2, 0, 0x81]);
    assert_eq!(&bytes[37..46], &palette[..]);
    assert_eq!(&bytes[46..49], &[0, 0, 0]);
    assert_eq!(bytes[49], 2);
    assert_eq!(*bytes.last().unwrap(), 0x3B);
}

#[test]
fn a_table_is_cut_to_whole_colours() {
    let frames = vec![(vec![0u8, 1, 2, 0], vec![9u8, 8, 7, 6, 5, 4, 3, 2, 1, 77])];
    let options = GifEncodeOptions { delay_cs: 4, loop_gif: true };
    let bytes = encode_gif89a_from_quantized(&frames, 2, 2, Some(options)).unwrap();
    assert_eq!(&bytes[22..33], b"NETSCAPE2.0");
    assert_eq!(&bytes[38..46], &[0x21, 0xF9, 0x04, 0x04, 0x04, 0x00, 0x00, 0x00]);
    assert_eq!(bytes[55], 0x81);
    assert_eq!(&bytes[56..65], &[9, 8, 7, 6, 5, 4, 3, 2, 1]);
    assert_eq!(&bytes[65..68], &[0, 0, 0]);
    assert_eq!(bytes[68], 2);
}

#[test]
fn a_table_of_more_than_256_colours_is_refused() {
    let fits = vec![(vec![0u8; 4], vec![0u8; 768])];
    assert!(encode_gif89a_from_quantized(&fits, 2, 2, None).is_ok());
    let frames = vec![(vec![0u8; 4], vec![0u8; 3]), (vec![0u8; 4], vec![0u8; 771])];
    match encode_gif89a_from_quantized(&frames, 2, 2, None) {
        Err(GifError::EncodingError(_)) => {}
        other => panic!("{:?}", other),
    }
}

#[test]
fn the_first_frame_at_fault_decides() {
    let frames = vec![(vec![0u8; 4], vec![0u8; 3]), (vec![0u8; 5], vec![0u8; 771])];
    match encode_gif89a_from_quantized(&frames, 2, 2, None) {
        Err(GifError::InvalidDimensions { expected, actual }) => {
            assert_eq!((expected, actual), (4, 5));
        }
        other => panic!("{:?}", other),
    }
    let rgba = vec![vec![0u8; 16], vec![0u8; 12]];
    let method = QuantizationMethod::MedianCut { colors: 0 };
    match encode_gif89a_rgba(&rgba, 2, 2, 4, true, method) {
        Err(GifError::QuantizationError { colors, sample_fac }) => {
            assert_eq!((colors, sample_fac), (0, 0));
        }
        other => panic!("{:?}", other),
    }
    let rgba = vec![vec![0u8; 12], vec![0u8; 16]];
    match encode_gif89a_rgba(&rgba, 2, 2, 4, true, method) {
        Err(GifError::InvalidDimensions { expected, actual }) => {
            assert_eq!((expected, actual), (16, 12));
        }
        other => panic!("{:?}", other),
    }
}
