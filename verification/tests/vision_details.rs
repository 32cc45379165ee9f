//! The steps of the detectors, one by one.

use omakeys::sorting::stable_sort;
use omakeys::vision::boxes::{
    bounding_box, doubled_polygon_area, iou, keep_distinct, rectangularity, std_dev,
    ByAreaDescending, ByCorner, Spread,
};
use omakeys::vision::dividers::{
    detect_dividers_as_grid, detect_dividers_recursive, inset, DIVIDER_COVERAGE_PERCENT,
    DIVIDER_MIN_DENSITY_PERCENT, DIVIDER_SPAN_COVERAGE_PERCENT, MIN_PANEL_SIZE, RECURSE_INSET,
};
use omakeys::vision::edges::{is_edge_pixel, Orientation};
use omakeys::vision::fullscan::{
    edge_magnitude_std_dev, full_scan_counts, full_scan_lines, full_scan_lines_impl,
    full_scan_lines_with_peak_check, FullScanOptions,
};
use omakeys::vision::growth::{
    boxes_from_pairs, coord_matches, grow_segments, length_matched_pairs, lengths_match,
    merge_segments, ray_cast, refine_horizontal_edge, refine_vertical_edge, seed_positions,
    trace_edge, RayDirection, Segment, Xorshift32, MAX_RAY_DISTANCE, SEED_SPACING,
};
use omakeys::vision::lines::{is_local_peak, least_share, merge_adjacent, qualifies, LineStats};

#[test]
fn shares_are_rounded_up() {
    for percent in
        [DIVIDER_COVERAGE_PERCENT, DIVIDER_SPAN_COVERAGE_PERCENT, DIVIDER_MIN_DENSITY_PERCENT]
    {
        for n in [0, 1, 150, 180, 250, 999, 4_294_967_295u32] {
            let least = least_share(n, percent) as u64;
            assert!(100 * least >= percent as u64 * n as u64);
            assert!(least == 0 || 100 * (least - 1) < percent as u64 * n as u64);
        }
    }
    assert_eq!(least_share(250, 35), 88);
    assert_eq!(least_share(180, 35), 63);
    assert_eq!(least_share(181, 35), 64);
}

fn short_line(length: usize) -> Vec<u8> {
    let mut gray = blank(400, 250);
    for y in 0..length {
        gray[y * 400 + 200] = 90;
    }
    gray
}

#[test]
fn a_divider_covers_at_least_its_share_of_the_window() {
    // 87 of 250 pixels are a little less than 35 per cent.
    let window = (0, 0, 400, 250);
    assert_eq!(detect_dividers_as_grid(&short_line(87), 400, 250, window), vec![]);
    assert_eq!(
        detect_dividers_as_grid(&short_line(88), 400, 250, window),
        vec![(0, 0, 200, 250), (200, 0, 200, 250)]
    );
}

#[test]
fn edges_are_steps_of_eight_and_more() {
    let gray = [0, 7, 15, 15, 0, 0, 0, 23];
    let edge = |x, y, o| is_edge_pixel(&gray, 4, 2, x, y, o);
    assert!(!edge(1, 0, Orientation::Vertical));
    assert!(edge(2, 0, Orientation::Vertical));
    assert!(!edge(3, 0, Orientation::Vertical));
    assert!(edge(3, 1, Orientation::Vertical));
    assert!(edge(2, 1, Orientation::Horizontal));
    assert!(edge(3, 1, Orientation::Horizontal));
    assert!(!edge(1, 1, Orientation::Horizontal));
    assert!(!edge(0, 0, Orientation::Vertical));
    assert!(!edge(2, 0, Orientation::Horizontal));
    assert!(!edge(4, 1, Orientation::Vertical));
    assert!(!edge(-1, 1, Orientation::Horizontal));
}

#[test]
fn line_statistics_keep_the_ends_of_a_line() {
    let mut s = LineStats { count: 0, first: None, last: None };
    s.record(5);
    s.record(9);
    s.record(40);
    assert_eq!((s.count, s.first, s.last), (3, Some(5), Some(40)));
    assert!(qualifies(&s, 3, 100, 100));
    assert!(!qualifies(&s, 4, 100, 1));
    assert!(qualifies(&s, 4, 35, 3));
    assert!(!qualifies(&s, 4, 36, 3));
    assert!(!qualifies(&s, 4, 35, 4));
}

#[test]
fn a_peak_stands_out_from_its_neighborhood() {
    let mut counts = vec![10u32; 100];
    counts[50] = 16;
    assert!(is_local_peak(&counts, 50, 8, 28, 8, 5));
    counts[50] = 15;
    assert!(!is_local_peak(&counts, 50, 8, 28, 8, 5));
    // Nothing among nothing is no peak.
    assert!(!is_local_peak(&[0; 100], 50, 8, 28, 8, 5));
    // Where there is no neighborhood on one side, the other one counts.
    counts[2] = 17;
    assert!(is_local_peak(&counts, 2, 8, 28, 8, 5));
    assert!(is_local_peak(&[3, 1, 2], 1, 8, 28, 8, 5));
    // The two sides are averaged: 100 against 55 stands out, 80 does not.
    let mut slope = vec![10u32; 100];
    for c in slope.iter_mut().skip(51) {
        *c = 100;
    }
    slope[50] = 100;
    assert!(is_local_peak(&slope, 50, 8, 28, 8, 5));
    slope[50] = 80;
    assert!(!is_local_peak(&slope, 50, 8, 28, 8, 5));
}

#[test]
fn a_flat_band_is_no_peak_at_any_ratio_from_one() {
    for (num, den) in [(1, 1), (8, 8), (8, 5), (2, 1)] {
        for level in [0, 1, 7, 4_294_967_295u32] {
            let band = [level; 40];
            for index in [0, 20, 39] {
                assert!(!is_local_peak(&band, index, 1, 1, num, den));
                assert!(!is_local_peak(&band, index, 8, 28, num, den));
            }
            // With nothing around, there is nothing to stand out from.
            assert!(is_local_peak(&[level; 3], 1, 8, 28, num, den));
        }
    }
    assert!(!is_local_peak(&[1, 1, 1], 1, 1, 1, 1, 1));
    // A little more than the average stands out at a ratio of one; as much does not.
    assert!(is_local_peak(&[1, 2, 2], 1, 1, 1, 1, 1));
    assert!(!is_local_peak(&[1, 2, 3], 1, 1, 1, 1, 1));
    // Above one, exactly the ratio is enough.
    assert!(is_local_peak(&[1, 2, 1], 1, 1, 1, 2, 1));
    // Below one, half the average is not more than half of it.
    assert!(!is_local_peak(&[2, 1, 2], 1, 1, 1, 1, 2));
    assert!(is_local_peak(&[2, 2, 2], 1, 1, 1, 1, 2));
}

#[test]
fn merging_positions_twice_changes_nothing_more() {
    let mut values = vec![40, 3, 1, 9, 5, 44, 100];
    merge_adjacent(&mut values, 4);
    assert_eq!(values, vec![1, 9, 40, 100]);
    let once = values.clone();
    merge_adjacent(&mut values, 4);
    assert_eq!(values, once);
}

#[test]
fn sorting_is_stable_by_size_and_by_corner() {
    let mut boxes = vec![(0, 0, 2, 2), (1, 0, 4, 1), (2, 0, 10, 10), (3, 0, 1, 4)];
    stable_sort::<_, ByAreaDescending>(&mut boxes);
    assert_eq!(boxes, vec![(2, 0, 10, 10), (0, 0, 2, 2), (1, 0, 4, 1), (3, 0, 1, 4)]);
    let mut corners = vec![(5, 1, 1, 1), (1, 9, 1, 1), (1, 2, 9, 9), (5, 0, 3, 3)];
    stable_sort::<_, ByCorner>(&mut corners);
    let mut expected = corners.clone();
    expected.sort();
    assert_eq!(corners, expected);
}

#[test]
fn overlap_of_boxes_is_symmetric() {
    let (a, b) = ((0, 0, 10, 10), (5, 5, 10, 10));
    let (p, q) = (iou(a, b), iou(b, a));
    assert_eq!((p.num, p.den), (25, 175));
    assert_eq!((q.num, q.den), (25, 175));
    let apart = iou(a, (50, 50, 1, 1));
    assert_eq!(apart.num, 0);
    let nested = iou(a, (2, 2, 5, 2));
    assert_eq!((nested.num, nested.den), (10, 100));
    assert_eq!(keep_distinct(&vec![a, (1, 0, 10, 10), b]), vec![a, b]);
}

#[test]
fn areas_and_bounds_of_outlines() {
    let square = [(2, 3), (6, 3), (6, 8), (2, 8)];
    assert_eq!(doubled_polygon_area(&square), 40);
    assert_eq!(doubled_polygon_area(&[(0, 0), (4, 0), (0, 4)]), 16);
    assert_eq!(doubled_polygon_area(&[(0, 0), (4, 0)]), 0);
    let b = bounding_box(&square).unwrap();
    assert_eq!((b.0, b.1), (2, 3));
    assert_eq!(bounding_box(&[]), None);
    let r = rectangularity(&square, (2, 3, 4, 5));
    assert!(!r.falls_short_of(100) && r.exceeds(99));
}

#[test]
fn the_spread_of_samples_is_their_standard_deviation() {
    let gray = [0u8, 90, 0, 90];
    let s = std_dev(&gray, 2, (0, 0, 2, 2));
    assert_eq!((s.count, s.sum, s.sum_sq), (4, 180, 16200));
    assert!(s.exceeds(44));
    assert!(!s.exceeds(45));
    let none = Spread { count: 0, sum: 0, sum_sq: 0 };
    assert!(!none.exceeds(0));
}

fn blank(w: u32, h: u32) -> Vec<u8> {
    vec![0; (w * h) as usize]
}

#[test]
fn panels_lie_between_dividers_and_inside_the_window() {
    let (w, h) = (800u32, 600u32);
    let mut gray = blank(w, h);
    for y in 0..h {
        gray[(y * w + 300) as usize] = 100;
    }
    let window = (0, 0, 800, 600);
    let panels = detect_dividers_as_grid(&gray, w, h, window);
    assert!(panels.len() >= 2);
    for (x, y, pw, ph) in &panels {
        assert!(*x >= 0 && *y >= 0 && x + pw <= 800 && y + ph <= 600);
        assert!(*pw >= MIN_PANEL_SIZE && *ph >= MIN_PANEL_SIZE);
        assert!(x + pw <= 301 || *x >= 300);
    }
    let mut out = vec![(9, 9, 9, 9)];
    detect_dividers_recursive(&gray, w, h, window, 0, &mut out);
    assert_eq!(out[0], (9, 9, 9, 9));
    let i = RECURSE_INSET;
    assert_eq!(inset((10, 20, 100, 200)), (10 + i, 20 + i, 100 - 2 * i, 200 - 2 * i));
    assert_eq!(detect_dividers_as_grid(&blank(w, h), w, h, window), vec![]);
}

#[test]
fn every_row_and_column_is_counted() {
    let (w, h) = (20u32, 10u32);
    let mut gray = blank(w, h);
    for y in 2..9 {
        gray[y * 20 + 7] = 50;
    }
    let (cols, rows) = full_scan_counts(&gray, w, h, (5, 0, 10, 10));
    assert_eq!(cols, vec![0, 0, 7, 7, 0, 0, 0, 0, 0, 0]);
    assert_eq!(rows, vec![0, 0, 1, 0, 0, 0, 0, 0, 0, 1]);
    let s = edge_magnitude_std_dev(&gray, w, h, 7, (0, 10), Orientation::Vertical);
    assert_eq!((s.count, s.sum), (7, 350));
    assert!(!s.exceeds(0));
}

#[test]
fn further_checks_only_take_lines_away() {
    let (w, h) = (400u32, 300u32);
    let mut gray = blank(w, h);
    for y in 0..300 {
        for x in (60..180).step_by(2) {
            gray[y * 400 + x] = 255;
        }
        gray[y * 400 + 300] = 255;
    }
    let window = (0, 0, 400, 300);
    let (all, _) = full_scan_lines(&gray, w, h, window);
    let (peaks, _) = full_scan_lines_with_peak_check(&gray, w, h, window);
    assert!(peaks.len() < all.len());
    let none = FullScanOptions::default();
    assert_eq!(none, FullScanOptions { peak_check: false, uniformity_check: false });
    assert_eq!(full_scan_lines_impl(&gray, w, h, window, none).0, all);
    let both = FullScanOptions { peak_check: true, uniformity_check: true };
    assert_eq!(full_scan_lines_impl(&gray, w, h, window, both).0, peaks);
}

#[test]
fn the_generator_never_reaches_zero() {
    let mut g = Xorshift32(1);
    assert_eq!(g.next(), 270369);
    assert_eq!(g.next(), 67634689);
    for _ in 0..1000 {
        assert!(g.next() != 0);
        let j = g.jitter(16);
        assert!((-16..=16).contains(&j));
    }
    assert_eq!(Xorshift32(5).jitter(0), 0);
}

#[test]
fn seeds_cover_the_window_and_stay_in_it() {
    let window = (100, 200, 320, 160);
    let seeds = seed_positions(window);
    assert_eq!(seeds.len(), (320 / SEED_SPACING * (160 / SEED_SPACING)) as usize);
    for (x, y) in &seeds {
        assert!((100..420).contains(x) && (200..360).contains(y));
    }
    assert_eq!(seed_positions(window), seeds);
    assert_eq!(seed_positions((0, 0, 0, 50)), vec![]);
}

fn line(at: usize, from: usize, to: usize) -> Vec<u8> {
    let mut gray = blank(100, 80);
    for y in from..to {
        gray[y * 100 + at] = 255;
    }
    gray
}

#[test]
fn rays_hit_the_nearest_edge_and_traces_follow_it() {
    let gray = line(60, 10, 70);
    let window = (0, 0, 100, 80);
    let hit = ray_cast(&gray, 100, 80, (20, 40), RayDirection::Right, window);
    assert_eq!(hit, Some((60, 40, Orientation::Vertical)));
    let hit = ray_cast(&gray, 100, 80, (90, 40), RayDirection::Left, window);
    assert_eq!(hit, Some((61, 40, Orientation::Vertical)));
    assert_eq!(ray_cast(&gray, 100, 80, (20, 5), RayDirection::Right, window), None);
    assert_eq!(ray_cast(&gray, 100, 80, (20, 40), RayDirection::Up, window), None);
    // Outside of the window there is nothing to hit.
    assert_eq!(ray_cast(&gray, 100, 80, (20, 40), RayDirection::Right, (0, 0, 50, 80)), None);
    let s = trace_edge(&gray, 100, 80, (60, 40), Orientation::Vertical, window);
    assert_eq!((s.fixed, s.start, s.end, s.length()), (60, 10, 69, 59));
    assert!(MAX_RAY_DISTANCE > 100);
}

#[test]
fn traces_cross_small_gaps_only() {
    let mut gray = line(60, 10, 30);
    for y in 36..50 {
        gray[y * 100 + 60] = 255;
    }
    for y in 57..70 {
        gray[y * 100 + 60] = 255;
    }
    let s = trace_edge(&gray, 100, 80, (60, 20), Orientation::Vertical, (0, 0, 100, 80));
    assert_eq!((s.start, s.end), (10, 49));
}

fn segment(orientation: Orientation, fixed: i32, start: i32, end: i32) -> Segment {
    Segment { orientation, fixed, start, end }
}

#[test]
fn segments_of_other_lines_stay_apart() {
    let v = Orientation::Vertical;
    let h = Orientation::Horizontal;
    let merged = merge_segments(vec![
        segment(h, 100, 0, 50),
        segment(v, 100, 60, 90),
        segment(v, 100, 0, 50),
        segment(v, 104, 94, 120),
        segment(v, 120, 0, 50),
    ]);
    assert_eq!(
        merged,
        vec![
            segment(v, 100, 0, 50),
            segment(v, 100, 60, 120),
            segment(v, 120, 0, 50),
            segment(h, 100, 0, 50),
        ]
    );
}

#[test]
fn pairs_have_matching_lengths_and_are_in_order() {
    let v = Orientation::Vertical;
    let segments = vec![
        segment(v, 90, 0, 100),
        segment(v, 10, 0, 104),
        segment(v, 50, 0, 60),
        segment(Orientation::Horizontal, 10, 0, 100),
    ];
    let pairs = length_matched_pairs(&segments, v);
    assert_eq!(pairs, vec![(segments[1], segments[0])]);
    assert!(lengths_match(92, 100) && !lengths_match(91, 100));
    assert!(!lengths_match(0, 0));
    assert!(coord_matches(10, 16) == coord_matches(16, 10));
}

#[test]
fn rough_edges_are_refined_to_the_densest_line() {
    let gray = line(60, 10, 70);
    assert_eq!(refine_vertical_edge(&gray, 100, 80, 57, (10, 70)), 61);
    assert_eq!(refine_vertical_edge(&gray, 100, 80, 54, (10, 70)), 60);
    assert_eq!(refine_vertical_edge(&gray, 100, 80, 200, (10, 70)), 200);
    let mut level = blank(100, 80);
    for x in 10..90 {
        level[30 * 100 + x] = 255;
    }
    assert_eq!(refine_horizontal_edge(&level, 100, 80, 24, (10, 90)), 30);
}

#[test]
fn four_sides_make_a_box() {
    let (w, h) = (400u32, 400u32);
    let mut gray = blank(w, h);
    for i in 0..201 {
        gray[(100 * w + 100 + i) as usize] = 255;
        gray[(300 * w + 100 + i) as usize] = 255;
        gray[((100 + i) * w + 100) as usize] = 255;
        gray[((100 + i) * w + 300) as usize] = 255;
    }
    let v = Orientation::Vertical;
    let hz = Orientation::Horizontal;
    let sides = [(segment(v, 100, 100, 300), segment(v, 300, 100, 300))];
    let ends = [(segment(hz, 100, 100, 300), segment(hz, 300, 100, 300))];
    let found = boxes_from_pairs(&gray, w, h, &sides, &ends);
    assert_eq!(found.len(), 1);
    let (x, y, bw, bh) = found[0];
    assert!((x - 100).abs() <= 6 && (y - 100).abs() <= 6);
    assert!((bw - 200).abs() <= 12 && (bh - 200).abs() <= 12);
    let shifted = [(segment(hz, 150, 100, 300), segment(hz, 300, 100, 300))];
    assert_eq!(boxes_from_pairs(&gray, w, h, &sides, &shifted), vec![]);
    assert!(!grow_segments(&gray, w, h, (0, 0, 400, 400)).is_empty());
}

#[test]
fn ranges_that_do_not_meet_stay_apart() {
    let v = Orientation::Vertical;
    let apart = vec![segment(v, 100, 100, 200), segment(v, 101, 0, 10)];
    assert_eq!(merge_segments(apart.clone()), apart);
    // A gap of up to four pixels is bridged on either side.
    let meeting = vec![segment(v, 100, 100, 200), segment(v, 101, 0, 96)];
    assert_eq!(merge_segments(meeting), vec![segment(v, 100, 0, 200)]);
    let short_of_it = vec![segment(v, 100, 100, 200), segment(v, 101, 0, 95)];
    assert_eq!(merge_segments(short_of_it.clone()), short_of_it);
    // A line is found again though another one comes in between.
    assert_eq!(
        merge_segments(vec![
            segment(v, 100, 0, 10),
            segment(v, 100, 100, 200),
            segment(v, 101, 5, 20),
        ]),
        vec![segment(v, 100, 0, 20), segment(v, 100, 100, 200)]
    );
}

#[test]
fn a_segment_joins_all_the_lines_it_meets() {
    let v = Orientation::Vertical;
    assert_eq!(
        merge_segments(vec![
            segment(v, 100, 0, 10),
            segment(v, 100, 20, 30),
            segment(v, 101, 8, 22),
        ]),
        vec![segment(v, 100, 0, 30)]
    );
    assert_eq!(
        merge_segments(vec![
            segment(v, 100, 0, 10),
            segment(v, 100, 50, 60),
            segment(v, 101, 20, 30),
            segment(v, 103, 14, 16),
        ]),
        vec![segment(v, 100, 0, 30), segment(v, 100, 50, 60)]
    );
    // Joined at 96, the segment at 104 would be eight pixels from its line.
    assert_eq!(
        merge_segments(vec![
            segment(v, 96, 50, 60),
            segment(v, 100, 0, 10),
            segment(v, 104, 0, 100),
        ]),
        vec![segment(v, 96, 50, 60), segment(v, 100, 0, 100)]
    );
}

#[test]
fn at_least_half_have_to_agree_on_a_line() {
    // One of three rows changes at x = 1, and one of two columns at y = 1.
    let gray = [0, 255, 0, 0, 0, 0];
    assert_eq!(full_scan_lines(&gray, 2, 3, (0, 0, 2, 3)), (vec![], vec![1]));
    // In a single row, too, a line has to be there.
    assert_eq!(full_scan_lines(&[0, 0, 9, 9], 4, 1, (0, 0, 4, 1)), (vec![2], vec![]));
}

#[test]
fn sides_may_lie_off_the_picture() {
    let (v, hz) = (Orientation::Vertical, Orientation::Horizontal);
    let gray = blank(400, 400);
    let sides = [(segment(v, -300, -300, 0), segment(v, -50, -300, 0))];
    let ends = [(segment(hz, -300, -300, -50), segment(hz, 0, -300, -50))];
    // Only the bottom is near enough to the picture to be moved there.
    assert_eq!(boxes_from_pairs(&gray, 400, 400, &sides, &ends), vec![(-300, -300, 250, 306)]);
    assert_eq!(boxes_from_pairs(&gray, 400, 400, &sides, &[]), vec![]);
    assert_eq!(boxes_from_pairs(&gray, 400, 400, &[], &ends), vec![]);
}
