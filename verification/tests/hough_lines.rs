use trdelniki::extract::extract_lines;
use trdelniki::hough::{Accumulator, HoughPolicy, TrigTable};
use trdelniki::image_processing::HandleRgbaComponents;
use trdelniki::math::FP_ONE;
use trdelniki::render::Rgba;

/// Fixed-point cosine/sine samples at the bin angles `t * pi / steps`,
/// the discretization both policies use.
fn trig_table(steps: usize) -> TrigTable {
    let mut cos_fp = Vec::new();
    let mut sin_fp = Vec::new();
    for t in 0..steps {
        let angle = (t as f64) * std::f64::consts::PI / (steps as f64);
        cos_fp.push((angle.cos() * (FP_ONE as f64)).round() as i64);
        sin_fp.push((angle.sin() * (FP_ONE as f64)).round() as i64);
    }
    TrigTable::new(cos_fp, sin_fp).expect("samples within scale")
}

fn white_image(width: u32, height: u32) -> Vec<u8> {
    let mut v = Vec::new();
    for _ in 0..(width * height) {
        v.extend_from_slice(&[255, 255, 255, 255]);
    }
    v
}

fn sum_votes(acc: &Accumulator) -> u64 {
    let mut s: u64 = 0;
    for t in 0..acc.theta_steps {
        for r in 0..acc.rho_steps {
            s += acc.vote_at(t, r) as u64;
        }
    }
    s
}

#[test]
fn trig_table_rejects_out_of_scale_samples() {
    assert!(TrigTable::new(vec![FP_ONE + 1], vec![0]).is_none());
    assert!(TrigTable::new(vec![0], vec![-FP_ONE - 1]).is_none());
    assert!(TrigTable::new(vec![0, 0], vec![0]).is_none());
    assert!(TrigTable::new(vec![FP_ONE], vec![-FP_ONE]).is_some());
}

#[test]
fn blank_buffer_gives_zero_accumulator_and_no_lines() {
    let buf = HandleRgbaComponents::new(10, 10, white_image(10, 10));
    let trig = trig_table(180);
    let policy = HoughPolicy::BoundedRange { theta_steps: 180, rho_steps: 200, edge_threshold: 1 };
    let acc = buf.hough_vote(policy, &trig);
    assert_eq!(acc.theta_steps, 180);
    assert_eq!(acc.rho_steps, 200);
    assert_eq!(acc.dropped, 0);
    assert_eq!(sum_votes(&acc), 0);
    assert_eq!(acc.max_vote(), 0);
    let segs = extract_lines(&acc, &trig, true, 0, true, 10, 10);
    assert!(segs.is_empty());
}

#[test]
fn vote_totals_match_edge_count_times_theta_bins() {
    // 6 x 4 image with 5 dark pixels below the threshold
    let mut px = white_image(6, 4);
    for k in [1usize, 7, 9, 13, 21] {
        px[4 * k] = 10;
        px[4 * k + 1] = 10;
        px[4 * k + 2] = 10;
    }
    let buf = HandleRgbaComponents::new(6, 4, px);
    let trig = trig_table(90);
    let policy = HoughPolicy::BoundedRange { theta_steps: 90, rho_steps: 120, edge_threshold: 50 };
    let acc = buf.hough_vote(policy, &trig);
    assert_eq!(sum_votes(&acc) + acc.dropped, 5 * 90);
}

#[test]
fn single_black_pixel_votes_once_per_theta_bin() {
    // one black pixel at the origin; every theta bin gets rho = 0
    let mut px = white_image(4, 4);
    px[0] = 0;
    px[1] = 0;
    px[2] = 0;
    let buf = HandleRgbaComponents::new(4, 4, px);
    let trig = trig_table(45);
    let policy = HoughPolicy::BoundedRange { theta_steps: 45, rho_steps: 64, edge_threshold: 1 };
    let acc = buf.hough_vote(policy, &trig);
    assert_eq!(sum_votes(&acc) + acc.dropped, 45);
    // the pixel at (0, 0) has rho = 0 for every angle: the middle rho bin
    let mid = 32;
    for t in 0..45 {
        assert_eq!(acc.vote_at(t, mid), 1, "theta bin {}", t);
    }
}

#[test]
fn scaled_axis_transform_counts_black_pixels() {
    // 20 x 20 white except a black vertical line at x = 7
    let mut px = white_image(20, 20);
    for y in 0..20usize {
        let k = y * 20 + 7;
        px[4 * k] = 0;
        px[4 * k + 1] = 0;
        px[4 * k + 2] = 0;
    }
    let buf = HandleRgbaComponents::new(20, 20, px);
    let trig = trig_table(180);
    let acc = buf.hough_transform(1, 1, &trig);
    assert_eq!(acc.theta_steps, 180);
    // diagonal of a 20 x 20 image is sqrt(800) = 28.28..; one bin per pixel
    assert_eq!(acc.rho_steps, 29);
    assert_eq!(sum_votes(&acc) + acc.dropped, 20 * 180);
    // the strongest angle is theta = 0 (a vertical line), where all 20
    // pixels share rho = 7
    let best = acc.max_vote();
    assert_eq!(best, 20);
    let r7 = {
        // rho_bin = round(7 * (29 / 2) / 28.284..) + 29 / 2
        let half = 29 / 2;
        ((7.0 * half as f64 / (800.0f64).sqrt()).round() as usize) + half
    };
    assert_eq!(acc.vote_at(0, r7), 20);
}

#[test]
fn round_trip_vertical_line_peak_matches_known_parameters() {
    // a black vertical line x = 30 on a 100 x 100 white background has
    // (rho, theta) = (30, 0)
    let w = 100u32;
    let h = 100u32;
    let mut px = white_image(w, h);
    for y in 0..h as usize {
        let k = y * w as usize + 30;
        px[4 * k] = 0;
        px[4 * k + 1] = 0;
        px[4 * k + 2] = 0;
    }
    let buf = HandleRgbaComponents::new(w, h, px);
    let theta_steps = 180usize;
    let rho_steps = 400usize;
    let trig = trig_table(theta_steps);
    let policy = HoughPolicy::BoundedRange {
        theta_steps: theta_steps as u32,
        rho_steps: rho_steps as u32,
        edge_threshold: 128,
    };
    let acc = buf.hough_vote(policy, &trig);
    // find the peak bin
    let mut best = (0usize, 0usize);
    let mut best_votes = 0u32;
    for t in 0..theta_steps {
        for r in 0..rho_steps {
            let v = acc.vote_at(t, r);
            if v > best_votes {
                best_votes = v;
                best = (t, r);
            }
        }
    }
    assert_eq!(best_votes, 100);
    // invert the discretization and compare with the known parameters
    let max_rho = ((w as f64).powi(2) + (h as f64).powi(2)).sqrt();
    let theta = best.0 as f64 * std::f64::consts::PI / theta_steps as f64;
    let rho = best.1 as f64 * 2.0 * max_rho / rho_steps as f64 - max_rho;
    let theta_bin_width = std::f64::consts::PI / theta_steps as f64;
    let rho_bin_width = 2.0 * max_rho / rho_steps as f64;
    assert!((theta - 0.0).abs() <= theta_bin_width, "theta {}", theta);
    assert!((rho - 30.0).abs() <= rho_bin_width, "rho {}", rho);
}

#[test]
fn extract_lines_vertical_line_segment_spans_image() {
    // a strong vertical line at x = 12 in a 40 x 40 image
    let mut px = white_image(40, 40);
    for y in 0..40usize {
        let k = y * 40 + 12;
        px[4 * k] = 0;
        px[4 * k + 1] = 0;
        px[4 * k + 2] = 0;
    }
    let buf = HandleRgbaComponents::new(40, 40, px);
    let trig = trig_table(180);
    let policy = HoughPolicy::BoundedRange { theta_steps: 180, rho_steps: 160, edge_threshold: 1 };
    let acc = buf.hough_vote(policy, &trig);
    let segs = extract_lines(&acc, &trig, true, 0, true, 40, 40);
    assert!(!segs.is_empty());
    for sg in &segs {
        assert!(sg.x1 >= 0 && sg.x1 <= 40);
        assert!(sg.y1 >= 0 && sg.y1 <= 40);
        assert!(sg.x2 >= 0 && sg.x2 <= 40);
        assert!(sg.y2 >= 0 && sg.y2 <= 40);
    }
    // at least one extracted segment is the near-vertical line around x = 12
    let found = segs.iter().any(|sg| {
        (sg.x1 - 12).abs() <= 1 && (sg.x2 - 12).abs() <= 1 && (sg.y1 - sg.y2).abs() >= 39
    });
    assert!(found, "segments: {:?}", segs.len());
}

#[test]
fn render_segments_paints_and_preserves() {
    let buf = HandleRgbaComponents::new(8, 8, white_image(8, 8));
    let segs = vec![trdelniki::extract::Segment { x1: 1, y1: 6, x2: 6, y2: 6 }];
    let color = Rgba { r: 255, g: 0, b: 0, a: 255 };
    let out = buf.render_segments(&segs, color);
    assert_eq!(out.width, 8);
    assert_eq!(out.height, 8);
    // the walk runs at y_image = 8 - 6 = 2 from x = 1 to x = 6
    for x in 1..=6usize {
        let k = 2 * 8 + x;
        assert_eq!(out.pixels[4 * k], 255);
        assert_eq!(out.pixels[4 * k + 1], 0);
        assert_eq!(out.pixels[4 * k + 2], 0);
        assert_eq!(out.pixels[4 * k + 3], 255);
    }
    // a pixel off the segment is untouched
    let k = 5 * 8 + 4;
    assert_eq!(out.pixels[4 * k], 255);
    assert_eq!(out.pixels[4 * k + 1], 255);
    assert_eq!(out.pixels[4 * k + 2], 255);
    assert_eq!(out.pixels[4 * k + 3], 255);
}

#[test]
fn visualize_lines_draws_red_on_copy() {
    // 16 x 16 with a black vertical line at x = 5, scaled-axis accumulator
    let mut px = white_image(16, 16);
    for y in 0..16usize {
        let k = y * 16 + 5;
        px[4 * k] = 0;
        px[4 * k + 1] = 0;
        px[4 * k + 2] = 0;
    }
    let buf = HandleRgbaComponents::new(16, 16, px);
    let trig = trig_table(180);
    let acc = buf.hough_transform(1, 1, &trig);
    let out = buf.visualize_lines(&acc, &trig, 16);
    assert_eq!(out.width, 16);
    assert_eq!(out.height, 16);
    // some pixel became red
    let mut reds = 0;
    for k in 0..(16 * 16) {
        if out.pixels[4 * k] == 255 && out.pixels[4 * k + 1] == 0 && out.pixels[4 * k + 2] == 0 {
            reds += 1;
        }
    }
    assert!(reds > 0);
}

#[test]
fn hough_lines_combined_matches_separate_calls() {
    let mut px = white_image(24, 24);
    for y in 0..24usize {
        let k = y * 24 + 9;
        px[4 * k] = 0;
        px[4 * k + 1] = 0;
        px[4 * k + 2] = 0;
    }
    let buf = HandleRgbaComponents::new(24, 24, px);
    let trig = trig_table(90);
    let policy = HoughPolicy::BoundedRange { theta_steps: 90, rho_steps: 100, edge_threshold: 1 };
    let (acc, segs) = buf.hough_lines(policy, &trig);
    let acc2 = buf.hough_vote(policy, &trig);
    let segs2 = extract_lines(&acc2, &trig, true, 0, true, 24, 24);
    assert_eq!(acc.theta_steps, acc2.theta_steps);
    assert_eq!(acc.rho_steps, acc2.rho_steps);
    for t in 0..acc.theta_steps {
        for r in 0..acc.rho_steps {
            assert_eq!(acc.vote_at(t, r), acc2.vote_at(t, r));
        }
    }
    assert_eq!(segs, segs2);
    assert!(!segs.is_empty());
}

#[test]
fn out_of_range_votes_are_counted_as_dropped() {
    // 2 x 2 white except a black pixel at (1, 1); a single theta bin at
    // angle 0 and a single rho bin
    let mut px = white_image(2, 2);
    px[12] = 0;
    px[13] = 0;
    px[14] = 0;
    let buf = HandleRgbaComponents::new(2, 2, px);
    let trig = TrigTable::new(vec![FP_ONE], vec![0]).unwrap();
    let policy = HoughPolicy::BoundedRange { theta_steps: 1, rho_steps: 1, edge_threshold: 1 };
    let acc = buf.hough_vote(policy, &trig);
    // rho = 1, max_rho = sqrt(8): the bin rounds to 1, outside the axis
    assert_eq!(acc.dropped, 1);
    assert_eq!(sum_votes(&acc), 0);
}
