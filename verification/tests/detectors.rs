//! The detectors on synthetic pictures.

use omakeys::active_monitor::FocusedWindow;
use omakeys::units::SUBPIXELS;
use omakeys::vision::boxes::{
    iou, rectangularity, std_dev, DEDUP_IOU_PERCENT, MAX_STD_DEV, MIN_RECTANGULARITY_PERCENT,
};
use omakeys::vision::dividers::detect_dividers_as_grid;
use omakeys::vision::edges::Orientation;
use omakeys::vision::fullscan::{
    full_scan_lines, full_scan_lines_with_peak_check, full_scan_lines_with_uniformity_check,
};
use omakeys::vision::growth::{detect_regions_by_growth, lengths_match, merge_segments, Segment};
use omakeys::vision::lines::{merge_adjacent, DIVIDER_MERGE_GAP};
use omakeys::vision::regions::{filter_to_windows, VisionRegion};

fn sub(px: f64) -> i64 {
    (px * SUBPIXELS as f64) as i64
}

fn window(x: f64, y: f64, w: f64, h: f64) -> FocusedWindow {
    FocusedWindow { title: "test".to_string(), x: sub(x), y: sub(y), w: sub(w), h: sub(h) }
}

fn region(x: f64, y: f64, w: f64, h: f64) -> VisionRegion {
    VisionRegion { x: sub(x), y: sub(y), w: sub(w), h: sub(h) }
}

fn point(x: i32, y: i32) -> (i32, i32) {
    (x, y)
}

#[test]
fn merge_adjacent_collapses_a_cluster_to_one_representative() {
    let mut values = vec![100, 101, 102, 200, 400, 401];
    merge_adjacent(&mut values, DIVIDER_MERGE_GAP);
    assert_eq!(values, vec![100, 200, 400]);
}

#[test]
fn detect_dividers_as_grid_keeps_a_clean_column_despite_a_spurious_row() {
    let mut img = image::GrayImage::new(600, 300);
    for y in 0..300 {
        img.put_pixel(300, y, image::Luma([255]));
    }
    for x in 0..600 {
        img.put_pixel(x, 150, image::Luma([255]));
    }
    let regions = detect_dividers_as_grid(img.as_raw(), img.width(), img.height(), (0, 0, 600, 300));
    assert!(
        regions.contains(&(0, 0, 300, 300)) && regions.contains(&(300, 0, 300, 300)),
        "expected both full-height column strips despite the spurious row, got {regions:?}"
    );
    assert!(
        !regions.contains(&(0, 0, 600, 150)) && !regions.contains(&(0, 150, 600, 150)),
        "the spurious full-width row strip should be suppressed when columns exist, got {regions:?}"
    );
}

#[test]
fn detect_dividers_as_grid_splits_a_window_at_a_real_vertical_divider() {
    let mut img = image::GrayImage::new(500, 200);
    for y in 0..200 {
        img.put_pixel(200, y, image::Luma([255]));
    }
    let regions = detect_dividers_as_grid(img.as_raw(), img.width(), img.height(), (0, 0, 500, 200));
    assert!(
        regions.contains(&(0, 0, 200, 200)),
        "expected a left panel from x=0..200, got {regions:?}"
    );
    assert!(
        regions.contains(&(200, 0, 300, 200)),
        "expected a right panel from x=200..500, got {regions:?}"
    );
}

#[test]
fn detect_dividers_as_grid_finds_a_divider_scoped_to_a_sub_panel() {
    let mut img = image::GrayImage::new(1600, 800);
    for y in 0..800 {
        img.put_pixel(1200, y, image::Luma([255]));
    }
    for x in 1200..1600 {
        img.put_pixel(x, 500, image::Luma([255]));
    }
    let regions = detect_dividers_as_grid(img.as_raw(), img.width(), img.height(), (0, 0, 1600, 800));
    let close = |(x, y, w, h): (i32, i32, i32, i32), (ex, ey, ew, eh): (i32, i32, i32, i32)| {
        (x - ex).abs() <= 10 && (y - ey).abs() <= 10 && (w - ew).abs() <= 20 && (h - eh).abs() <= 20
    };
    assert!(
        regions.iter().any(|&r| close(r, (1200, 0, 400, 500)))
            && regions.iter().any(|&r| close(r, (1200, 500, 400, 300))),
        "expected the right column to be further split at y=500, got {regions:?}"
    );
}

#[test]
fn detect_dividers_as_grid_finds_a_divider_interrupted_in_the_middle() {
    let mut img = image::GrayImage::new(400, 1000);
    for y in 0..300 {
        img.put_pixel(200, y, image::Luma([255]));
    }
    for y in 700..1000 {
        img.put_pixel(200, y, image::Luma([255]));
    }
    let regions = detect_dividers_as_grid(img.as_raw(), img.width(), img.height(), (0, 0, 400, 1000));
    assert!(
        regions.contains(&(0, 0, 200, 1000)) && regions.contains(&(200, 0, 200, 1000)),
        "expected the interrupted-but-edge-to-edge line to still split the window, got {regions:?}"
    );
}

#[test]
fn detect_dividers_as_grid_ignores_a_short_line_near_one_edge() {
    let mut img = image::GrayImage::new(400, 1000);
    for y in 0..300 {
        img.put_pixel(200, y, image::Luma([255]));
    }
    assert_eq!(detect_dividers_as_grid(img.as_raw(), img.width(), img.height(), (0, 0, 400, 1000)), Vec::new());
}

#[test]
fn detect_dividers_as_grid_returns_nothing_when_no_divider_found() {
    let img = image::GrayImage::new(300, 200);
    assert_eq!(detect_dividers_as_grid(img.as_raw(), img.width(), img.height(), (0, 0, 300, 200)), Vec::new());
}

#[test]
fn detect_dividers_as_grid_ignores_a_short_incidental_line() {
    let mut img = image::GrayImage::new(300, 200);
    for x in 50..110 {
        img.put_pixel(x, 100, image::Luma([255]));
    }
    assert_eq!(detect_dividers_as_grid(img.as_raw(), img.width(), img.height(), (0, 0, 300, 200)), Vec::new());
}

#[test]
fn detect_dividers_as_grid_skips_windows_smaller_than_a_panel() {
    let img = image::GrayImage::new(50, 50);
    assert_eq!(detect_dividers_as_grid(img.as_raw(), img.width(), img.height(), (0, 0, 50, 50)), Vec::new());
}

#[test]
fn rectangularity_is_high_for_a_clean_rectangle() {
    let points =
        vec![point(0, 0), point(10, 0), point(10, 10), point(0, 10)];
    assert!(rectangularity(&points, (0, 0, 10, 10)).exceeds(MIN_RECTANGULARITY_PERCENT));
}

#[test]
fn rectangularity_is_high_for_a_rounded_rectangle() {
    let points = vec![
        point(2, 0),
        point(10, 0),
        point(10, 10),
        point(0, 10),
        point(0, 2),
    ];
    assert!(rectangularity(&points, (0, 0, 10, 10)).exceeds(MIN_RECTANGULARITY_PERCENT));
}

#[test]
fn rectangularity_is_low_for_a_thin_diagonal_shape() {
    let points = vec![point(0, 0), point(10, 10), point(9, 10), point(0, 1)];
    assert!(rectangularity(&points, (0, 0, 10, 10)).falls_short_of(MIN_RECTANGULARITY_PERCENT));
}

#[test]
fn filter_to_windows_keeps_regions_inside_a_window() {
    let regions = vec![region(100.0, 100.0, 20.0, 20.0)];
    let windows = vec![window(0.0, 0.0, 200.0, 200.0)];
    assert_eq!(filter_to_windows(regions, &windows).len(), 1);
}

#[test]
fn filter_to_windows_drops_regions_on_empty_desktop() {
    let regions = vec![region(500.0, 300.0, 40.0, 30.0)];
    assert_eq!(filter_to_windows(regions, &[]).len(), 0);
}

#[test]
fn filter_to_windows_drops_regions_outside_every_window() {
    let regions = vec![region(900.0, 900.0, 20.0, 20.0)];
    let windows = vec![window(0.0, 0.0, 200.0, 200.0)];
    assert_eq!(filter_to_windows(regions, &windows).len(), 0);
}

#[test]
fn iou_is_high_for_near_duplicate_boxes() {
    let outer = (10, 10, 40, 24);
    let inner = (12, 12, 36, 20);
    assert!(iou(outer, inner).exceeds(DEDUP_IOU_PERCENT), "near-duplicate boxes should have high IoU");
}

#[test]
fn iou_is_low_for_a_small_button_inside_a_large_panel() {
    let panel = (0, 0, 400, 300);
    let button = (20, 20, 30, 20);
    assert!(
        iou(panel, button).falls_short_of(DEDUP_IOU_PERCENT),
        "a small nested button shouldn't be deduped away by its container"
    );
}

#[test]
fn std_dev_is_near_zero_for_a_flat_region() {
    let w = 10u32;
    let gray = vec![128u8; (w * 10) as usize];
    assert!(!std_dev(&gray, w, (0, 0, w as i32, 10)).exceeds(0));
}

#[test]
fn std_dev_is_high_for_a_noisy_region() {
    let w = 10u32;
    let gray: Vec<u8> = (0..w * 10).map(|i| if i % 2 == 0 { 0 } else { 255 }).collect();
    assert!(std_dev(&gray, w, (0, 0, w as i32, 10)).exceeds(MAX_STD_DEV));
}

fn draw_rect_outline(img: &mut image::GrayImage, x: i32, y: i32, w: i32, h: i32, value: u8) {
    for dx in 0..w {
        img.put_pixel((x + dx) as u32, y as u32, image::Luma([value]));
        img.put_pixel((x + dx) as u32, (y + h - 1) as u32, image::Luma([value]));
    }
    for dy in 0..h {
        img.put_pixel(x as u32, (y + dy) as u32, image::Luma([value]));
        img.put_pixel((x + w - 1) as u32, (y + dy) as u32, image::Luma([value]));
    }
}

fn close_box((x, y, w, h): (i32, i32, i32, i32), (ex, ey, ew, eh): (i32, i32, i32, i32)) -> bool {
    (x - ex).abs() <= 6 && (y - ey).abs() <= 6 && (w - ew).abs() <= 12 && (h - eh).abs() <= 12
}

#[test]
fn lengths_match_within_tolerance() {
    assert!(lengths_match(240, 238));
    assert!(lengths_match(100, 108));
}

#[test]
fn lengths_match_rejects_dissimilar_lengths() {
    assert!(!lengths_match(240, 180));
    assert!(!lengths_match(0, 50));
}

#[test]
fn merge_segments_unions_overlapping_same_line_detections() {
    let segments = vec![
        Segment { orientation: Orientation::Vertical, fixed: 100, start: 10, end: 150 },
        Segment { orientation: Orientation::Vertical, fixed: 101, start: 120, end: 300 },
    ];
    let merged = merge_segments(segments);
    assert_eq!(merged.len(), 1);
    assert_eq!(merged[0].start, 10);
    assert_eq!(merged[0].end, 300);
}

#[test]
fn detect_regions_by_growth_finds_a_clean_rectangle_outline() {
    let mut img = image::GrayImage::new(400, 400);
    draw_rect_outline(&mut img, 80, 80, 240, 240, 255);
    let boxes = detect_regions_by_growth(img.as_raw(), img.width(), img.height(), (0, 0, 400, 400));
    assert!(
        boxes.iter().any(|&b| close_box(b, (80, 80, 240, 240))),
        "expected to find the drawn rectangle, got {boxes:?}"
    );
}

#[test]
fn detect_regions_by_growth_ignores_lines_with_no_length_partner() {
    let mut img = image::GrayImage::new(400, 400);
    for y in 50..90 {
        img.put_pixel(120, y, image::Luma([255]));
    }
    for x in 200..340 {
        img.put_pixel(x, 250, image::Luma([255]));
    }
    let boxes = detect_regions_by_growth(img.as_raw(), img.width(), img.height(), (0, 0, 400, 400));
    assert!(boxes.is_empty(), "expected no boxes from two unrelated, unmatched lines, got {boxes:?}");
}

#[test]
fn full_scan_lines_finds_a_solid_vertical_divider() {
    let mut img = image::GrayImage::new(400, 300);
    for y in 0..300 {
        img.put_pixel(200, y, image::Luma([255]));
    }
    let (xs, ys) = full_scan_lines(img.as_raw(), img.width(), img.height(), (0, 0, 400, 300));
    assert!(xs.contains(&200) || xs.iter().any(|&x| (x - 200).abs() <= DIVIDER_MERGE_GAP), "expected x~200, got {xs:?}");
    assert!(ys.is_empty(), "a clean vertical line shouldn't also register as a horizontal one, got {ys:?}");
}

#[test]
fn full_scan_lines_finds_a_solid_horizontal_divider() {
    let mut img = image::GrayImage::new(300, 400);
    for x in 0..300 {
        img.put_pixel(x, 150, image::Luma([255]));
    }
    let (xs, ys) = full_scan_lines(img.as_raw(), img.width(), img.height(), (0, 0, 300, 400));
    assert!(xs.is_empty(), "a clean horizontal line shouldn't also register as a vertical one, got {xs:?}");
    assert!(ys.contains(&150) || ys.iter().any(|&y| (y - 150).abs() <= DIVIDER_MERGE_GAP), "expected y~150, got {ys:?}");
}

#[test]
fn full_scan_lines_ignores_a_short_incidental_line() {
    let mut img = image::GrayImage::new(400, 300);
    for y in 0..60 {
        img.put_pixel(200, y, image::Luma([255]));
    }
    let (xs, ys) = full_scan_lines(img.as_raw(), img.width(), img.height(), (0, 0, 400, 300));
    assert!(xs.is_empty() && ys.is_empty(), "expected no lines from a short 20%-coverage line, got xs={xs:?} ys={ys:?}");
}

#[test]
fn full_scan_lines_returns_nothing_on_a_blank_image() {
    let img = image::GrayImage::new(300, 200);
    let (xs, ys) = full_scan_lines(img.as_raw(), img.width(), img.height(), (0, 0, 300, 200));
    assert!(xs.is_empty() && ys.is_empty());
}

#[test]
fn full_scan_lines_with_peak_check_rejects_a_broad_band_but_keeps_a_real_spike() {
    let mut img = image::GrayImage::new(400, 300);
    for y in 0..300 {
        for x in 60..180 {
            if x % 2 == 0 {
                img.put_pixel(x, y, image::Luma([255]));
            }
        }
    }
    for y in 0..300 {
        img.put_pixel(300, y, image::Luma([255]));
    }

    let (naive_xs, _) = full_scan_lines(img.as_raw(), img.width(), img.height(), (0, 0, 400, 300));
    let (peaked_xs, _) = full_scan_lines_with_peak_check(img.as_raw(), img.width(), img.height(), (0, 0, 400, 300));

    assert!(
        naive_xs.contains(&120),
        "the plain density threshold should treat an interior band column as a divider too, got {naive_xs:?}"
    );
    assert!(
        !peaked_xs.contains(&120),
        "the peak-ratio check should reject an interior band column surrounded by similarly-dense neighbors, got {peaked_xs:?}"
    );
    assert!(
        peaked_xs.iter().any(|&x| (x - 300).abs() <= DIVIDER_MERGE_GAP),
        "the isolated real divider should still survive the peak check, got {peaked_xs:?}"
    );
}

#[test]
fn full_scan_lines_with_uniformity_check_rejects_a_variable_magnitude_line_but_keeps_a_uniform_one() {
    let mut img = image::GrayImage::new(300, 300);
    for y in 0..300 {
        img.put_pixel(100, y, image::Luma([200]));
    }
    for y in 0..300 {
        let v: u8 = if y % 2 == 0 { 210 } else { 10 };
        img.put_pixel(200, y, image::Luma([v]));
    }

    let (naive_xs, _) = full_scan_lines(img.as_raw(), img.width(), img.height(), (0, 0, 300, 300));
    let (uniform_xs, _) = full_scan_lines_with_uniformity_check(img.as_raw(), img.width(), img.height(), (0, 0, 300, 300));

    assert!(
        naive_xs.contains(&100) && naive_xs.contains(&200),
        "the plain density threshold should treat both equally-dense lines as dividers, got {naive_xs:?}"
    );
    assert!(
        uniform_xs.iter().any(|&x| (x - 100).abs() <= DIVIDER_MERGE_GAP),
        "the uniform-magnitude line should survive the uniformity check, got {uniform_xs:?}"
    );
    assert!(
        !uniform_xs.iter().any(|&x| (x - 200).abs() <= DIVIDER_MERGE_GAP),
        "the wildly-variable-magnitude line should be rejected by the uniformity check, got {uniform_xs:?}"
    );
}
