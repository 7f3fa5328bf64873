use trdelniki::image_processing::{EdgeKernel, HandleRgbaComponents, SliceMode};
use trdelniki::ui::{Message, UIState, UiAction};

fn solid(width: u32, height: u32, rgba: [u8; 4]) -> Vec<u8> {
    let mut v = Vec::new();
    for _ in 0..(width * height) {
        v.extend_from_slice(&rgba);
    }
    v
}

fn grey_value(buf: &HandleRgbaComponents, x: u32, y: u32) -> u8 {
    buf.pixels[(4 * (y * buf.width + x)) as usize]
}

#[test]
fn greyscale_weights_single_pixel() {
    let rgba = vec![10u8, 100, 200, 7];
    let g = HandleRgbaComponents::from_rgb_to_greyscale(1, 1, &rgba);
    // round(10 * 0.299) + round(100 * 0.587) + round(200 * 0.114) = 3 + 59 + 23
    assert_eq!(g.pixels, vec![85u8, 85, 85, 255]);
}

#[test]
fn greyscale_channels_equal_and_opaque() {
    let mut rgba = Vec::new();
    for i in 0u32..64 {
        rgba.extend_from_slice(&[(i * 3) as u8, (255 - i) as u8, (i * 7 % 256) as u8, (i % 4) as u8]);
    }
    let g = HandleRgbaComponents::from_rgb_to_greyscale(8, 8, &rgba);
    assert_eq!(g.pixels.len(), 8 * 8 * 4);
    for k in 0..64usize {
        let r = g.pixels[4 * k];
        assert_eq!(g.pixels[4 * k + 1], r);
        assert_eq!(g.pixels[4 * k + 2], r);
        assert_eq!(g.pixels[4 * k + 3], 255);
    }
}

#[test]
fn greyscale_white_stays_white() {
    let rgba = solid(2, 2, [255, 255, 255, 0]);
    let g = HandleRgbaComponents::from_rgb_to_greyscale(2, 2, &rgba);
    // 76 + 150 + 29 = 255
    assert_eq!(grey_value(&g, 0, 0), 255);
}

#[test]
fn greyscale_empty_buffer_passes_through() {
    let rgba: Vec<u8> = Vec::new();
    let g = HandleRgbaComponents::from_rgb_to_greyscale(0, 0, &rgba);
    assert_eq!(g.width, 0);
    assert_eq!(g.height, 0);
    assert!(g.pixels.is_empty());
}

#[test]
fn brightness_slice_exact_boundaries() {
    // one pixel at brightness 99, one at 100, one at 101
    let mut px = Vec::new();
    for b in [99u8, 100, 101] {
        px.extend_from_slice(&[b, b, b, 255]);
    }
    let buf = HandleRgbaComponents::new(3, 1, px);
    let sliced = buf.brightness_slice(100, 100, SliceMode::Clear);
    // 99 passes through unchanged
    assert_eq!(&sliced.pixels[0..4], &[99, 99, 99, 255]);
    // exactly 100 is cleared to transparent white
    assert_eq!(&sliced.pixels[4..8], &[255, 255, 255, 0]);
    // 101 passes through unchanged
    assert_eq!(&sliced.pixels[8..12], &[101, 101, 101, 255]);
}

#[test]
fn brightness_slice_inverted_bounds_is_noop() {
    let px = vec![50u8, 50, 50, 255, 200, 200, 200, 255];
    let buf = HandleRgbaComponents::new(2, 1, px.clone());
    let sliced = buf.greyscale_to_brightness_slice_keep_bg(200, 100);
    assert_eq!(sliced.pixels, px);
}

#[test]
fn edge_detect_uniform_is_all_zero() {
    let rgba = solid(9, 7, [90, 90, 90, 255]);
    let buf = HandleRgbaComponents::new(9, 7, rgba);
    let edges = buf.edge_detect(EdgeKernel::Prewitt);
    for y in 0..7 {
        for x in 0..9 {
            assert_eq!(grey_value(&edges, x, y), 0);
        }
    }
    let edges_s = buf.edge_detect(EdgeKernel::Sobel);
    for y in 0..7 {
        for x in 0..9 {
            assert_eq!(grey_value(&edges_s, x, y), 0);
        }
    }
}

#[test]
fn edge_detect_borders_are_zero() {
    let mut rgba = Vec::new();
    for i in 0u32..(5 * 6) {
        let v = (i * 37 % 256) as u8;
        rgba.extend_from_slice(&[v, v, v, 255]);
    }
    let buf = HandleRgbaComponents::new(5, 6, rgba);
    let edges = buf.edge_detect(EdgeKernel::Prewitt);
    for x in 0..5 {
        assert_eq!(grey_value(&edges, x, 0), 0);
        assert_eq!(grey_value(&edges, x, 5), 0);
    }
    for y in 0..6 {
        assert_eq!(grey_value(&edges, 0, y), 0);
        assert_eq!(grey_value(&edges, 4, y), 0);
    }
}

#[test]
fn edge_detect_degenerate_passes_through() {
    let rgba = solid(2, 5, [10, 10, 10, 255]);
    let buf = HandleRgbaComponents::new(2, 5, rgba.clone());
    let edges = buf.edge_detect(EdgeKernel::Prewitt);
    assert_eq!(edges.pixels, rgba);
}

#[test]
fn prewitt_vertical_line_marks_adjacent_columns() {
    // 10 x 10 all white except a black vertical line at x = 5
    let mut rgba = Vec::new();
    for y in 0..10u32 {
        for x in 0..10u32 {
            let v = if x == 5 { 0u8 } else { 255u8 };
            rgba.extend_from_slice(&[v, v, v, 255]);
            let _ = y;
        }
    }
    let buf = HandleRgbaComponents::new(10, 10, rgba);
    let edges = buf.prewitt_filtered();
    for y in 0..10u32 {
        for x in 0..10u32 {
            let v = grey_value(&edges, x, y);
            let interior = x >= 1 && x <= 8 && y >= 1 && y <= 8;
            if interior && (x == 4 || x == 6) {
                assert!(v > 0, "expected edge at ({}, {})", x, y);
            } else {
                assert_eq!(v, 0, "expected no edge at ({}, {})", x, y);
            }
        }
    }
}

#[test]
fn sobel_magnitude_on_step_edge() {
    // 5 x 3: dark left half, bright right half
    let mut rgba = Vec::new();
    for _y in 0..3u32 {
        for x in 0..5u32 {
            let v = if x < 2 { 0u8 } else { 200u8 };
            rgba.extend_from_slice(&[v, v, v, 255]);
        }
    }
    let buf = HandleRgbaComponents::new(5, 3, rgba);
    let edges = buf.edge_detect(EdgeKernel::Sobel);
    // at (2, 1): gx = (200 - 0) * 4 = 800, gy = 0, magnitude clamps to 255
    assert_eq!(grey_value(&edges, 2, 1), 255);
    // at (3, 1) the window is uniform bright on both columns 2 and 4: gx = 0
    assert_eq!(grey_value(&edges, 3, 1), 0);
}

#[test]
fn ui_update_stores_brightness_text() {
    let mut st = UIState {
        image_path: String::new(),
        handle_rgba_components: HandleRgbaComponents::new(0, 0, Vec::new()),
        min_brightness: String::new(),
        max_brightness: String::new(),
    };
    let a = st.update(Message::MinBrightnessChange(String::from("17")));
    assert_eq!(a, UiAction::Noop);
    assert_eq!(st.min_brightness, "17");
    let a = st.update(Message::MaxBrightnessChange(String::from("200")));
    assert_eq!(a, UiAction::Noop);
    assert_eq!(st.max_brightness, "200");
    let a = st.update(Message::UploadImage);
    assert_eq!(a, UiAction::OpenImageDialog);
    assert_eq!(st.min_brightness, "17");
}
