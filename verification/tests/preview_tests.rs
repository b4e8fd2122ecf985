use gifpipe::preview::{m1_preview_patch, marker_color};

fn pixel(buf: &[u8], w: usize, x: usize, y: usize) -> [u8; 4] {
    let i = (y * w + x) * 4;
    [buf[i], buf[i + 1], buf[i + 2], buf[i + 3]]
}

#[test]
fn markers_are_drawn_where_they_belong() {
    let (w, h) = (200usize, 160usize);
    let input = vec![7u8; w * h * 4];
    let out = m1_preview_patch(input.clone(), w as u32, h as u32);
    assert_eq!(out.len(), input.len());
    let white = [255, 255, 255, 255];
    let red = [255, 0, 0, 255];
    let green = [0, 255, 0, 255];
    let blue = [0, 0, 255, 255];
    let plain = [7, 7, 7, 7];
    // Border.
    assert_eq!(pixel(&out, w, 0, 0), white);
    assert_eq!(pixel(&out, w, 199, 159), white);
    assert_eq!(pixel(&out, w, 0, 90), white);
    assert_eq!(pixel(&out, w, 120, 159), white);
    assert_eq!(pixel(&out, w, 1, 1), plain);
    // Crosshair: centre (100, 80), arms of 19 pixels to each side.
    assert_eq!(pixel(&out, w, 100, 80), red);
    assert_eq!(pixel(&out, w, 119, 80), red);
    assert_eq!(pixel(&out, w, 81, 80), red);
    assert_eq!(pixel(&out, w, 120, 80), plain);
    assert_eq!(pixel(&out, w, 80, 80), plain);
    assert_eq!(pixel(&out, w, 100, 99), red);
    assert_eq!(pixel(&out, w, 100, 61), red);
    assert_eq!(pixel(&out, w, 100, 100), plain);
    assert_eq!(pixel(&out, w, 101, 81), plain);
    // Squares: red at (50, 50), green at (w - 80, 50), blue at (50, h - 80).
    assert_eq!(pixel(&out, w, 50, 50), red);
    assert_eq!(pixel(&out, w, 49, 50), plain);
    assert_eq!(pixel(&out, w, 120, 50), green);
    assert_eq!(pixel(&out, w, 149, 79), green);
    assert_eq!(pixel(&out, w, 150, 79), plain);
    // The blue square starts at row 80 and ends before row 110; it covers
    // the red one nowhere here, but it is drawn last.
    assert_eq!(pixel(&out, w, 50, 80), blue);
    assert_eq!(pixel(&out, w, 79, 109), blue);
    assert_eq!(pixel(&out, w, 79, 110), plain);
    assert_eq!(pixel(&out, w, 79, 79), red);
}

#[test]
fn a_buffer_of_the_wrong_size_or_an_empty_frame_stays_as_it_is() {
    let input = vec![9u8; 100];
    assert_eq!(m1_preview_patch(input.clone(), 10, 10), input);
    assert_eq!(m1_preview_patch(Vec::new(), 0, 0), Vec::<u8>::new());
    assert_eq!(m1_preview_patch(Vec::new(), 0, 5), Vec::<u8>::new());
}

#[test]
fn small_frames_get_what_fits() {
    // 3 by 3: all border but the centre, and the centre is the crosshair.
    let out = m1_preview_patch(vec![1u8; 36], 3, 3);
    for y in 0..3 {
        for x in 0..3 {
            let expect = if x == 1 || y == 1 { [255, 0, 0, 255] } else { [255, 255, 255, 255] };
            assert_eq!(pixel(&out, 3, x, y), expect, "({}, {})", x, y);
        }
    }
    // 60 wide: the green square would start left of the frame; what lies
    // inside the frame of it is drawn, here columns 0 to 9 of rows 50 to 79.
    let out = m1_preview_patch(vec![1u8; 60 * 100 * 4], 60, 100);
    assert_eq!(pixel(&out, 60, 5, 60), [0, 255, 0, 255]);
    assert_eq!(pixel(&out, 60, 9, 79), [0, 255, 0, 255]);
    assert_eq!(pixel(&out, 60, 10, 60), [1, 1, 1, 1]);
    assert_eq!(pixel(&out, 60, 55, 60), [255, 0, 0, 255]);
}

#[test]
fn later_markers_cover_earlier_ones() {
    // In a frame of 130 by 130 the three squares overlap at (50..80, 50..80).
    assert_eq!(marker_color(60, 60, 130, 130), Some((0, 0, 255)));
    assert_eq!(marker_color(60, 40, 130, 130), None);
    assert_eq!(marker_color(85, 60, 130, 130), None);
    assert_eq!(marker_color(65, 65, 130, 200), Some((0, 255, 0)));
    assert_eq!(marker_color(65, 65, 200, 200), Some((255, 0, 0)));
    assert_eq!(marker_color(0, 0, 200, 200), Some((255, 255, 255)));
    assert_eq!(marker_color(100, 90, 200, 200), Some((255, 0, 0)));
    assert_eq!(marker_color(100, 120, 200, 200), None);
}
