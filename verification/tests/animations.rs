//! The animations of the detectors.

use omakeys::canvas::{fits, is_readable, Frame};
use omakeys::demo::{demo_picture, Demo};
use omakeys::fullscan_viz::{self, CheckKind, MARGIN};
use omakeys::growth_viz;
use omakeys::vision::edges::is_complete;

const WIDTH: u32 = 400;

const HEIGHT: u32 = 300;

const WINDOW: (i32, i32, i32, i32) = (0, 0, 400, 300);

fn blank() -> Vec<u8> {
    vec![0; (WIDTH * HEIGHT) as usize]
}

fn pixel(frame: &Frame, x: u32, y: u32) -> (u8, u8, u8, u8) {
    let bytes = frame.canvas.rgba();
    let at = 4 * (y * frame.canvas.width() + x) as usize;
    (bytes[at], bytes[at + 1], bytes[at + 2], bytes[at + 3])
}

fn divided() -> Vec<u8> {
    let mut gray = blank();
    for y in 0..HEIGHT {
        gray[(y * WIDTH + 200) as usize] = 100;
    }
    gray
}

#[test]
fn a_scan_is_shown_from_the_sweep_to_the_lines() {
    let gray = divided();
    let r = fullscan_viz::render(&gray, WIDTH, HEIGHT, WINDOW, CheckKind::Plain);
    // Batches of 18 or 19 rows and of 25 columns, then the frames that are held.
    assert_eq!(r.frames.len(), 16 + 16 + 5 + 10);
    assert_eq!((r.vertical, r.horizontal), (1, 0));
    assert_eq!((r.vertical_unchecked, r.horizontal_unchecked), (1, 0));
    for f in &r.frames {
        assert_eq!((f.canvas.width(), f.canvas.height()), (WIDTH + MARGIN, HEIGHT + MARGIN));
    }
    let first = &r.frames[0];
    assert_eq!(first.delay_ms, 70);
    // The picture, the steps into and out of the line, and the cursor below them.
    assert_eq!(pixel(first, 10, 3), (0, 0, 0, 255));
    assert_eq!(pixel(first, 200, 3), (255, 70, 70, 255));
    assert_eq!(pixel(first, 201, 3), (255, 70, 70, 255));
    assert_eq!(pixel(first, 10, 17), (255, 255, 255, 255));
    assert_eq!(pixel(first, 10, 18), (0, 0, 0, 255));
    assert_eq!(pixel(first, 200, 18), (100, 100, 100, 255));
    // 18 of 300 rows are a bar of 4 out of 64 pixels.
    assert_eq!(pixel(first, 200, HEIGHT + 59), (16, 16, 20, 255));
    assert_eq!(pixel(first, 200, HEIGHT + 60), (80, 170, 255, 255));
    assert_eq!(pixel(first, 200, HEIGHT + 63), (80, 170, 255, 255));
    assert_eq!(pixel(first, 199, HEIGHT + 63), (16, 16, 20, 255));
}

#[test]
fn a_scan_ends_with_glowing_lines() {
    let gray = divided();
    let r = fullscan_viz::render(&gray, WIDTH, HEIGHT, WINDOW, CheckKind::Plain);
    let threshold = &r.frames[16 + 16];
    assert_eq!(threshold.delay_ms, 140);
    // Half of the rows are half of the strip.
    assert_eq!(pixel(threshold, 10, HEIGHT + 32), (255, 70, 70, 255));
    assert_eq!(pixel(threshold, WIDTH + 32, 10), (255, 70, 70, 255));
    assert_eq!(pixel(threshold, 10, HEIGHT + 31), (16, 16, 20, 255));
    let last = r.frames.last().unwrap();
    assert_eq!(pixel(last, 200, 150), (255, 255, 90, 255));
    for x in [198, 199, 201, 202] {
        assert_eq!(pixel(last, x, 150), (140, 120, 0, 255));
    }
    assert_eq!(pixel(last, 197, 150), (0, 0, 0, 255));
    // The line reaches one pixel into the strip, and the bar of the kept position is yellow.
    assert_eq!(pixel(last, 200, HEIGHT), (255, 255, 90, 255));
    assert_eq!(pixel(last, 200, HEIGHT + 10), (255, 220, 0, 255));
    // Its neighbor is as dense and passed as well, though only one of the two is reported.
    assert_eq!(pixel(last, 201, HEIGHT + 10), (255, 220, 0, 255));
    assert_eq!(pixel(last, 203, HEIGHT + 10), (16, 16, 20, 255));
}

#[test]
fn a_rejected_line_has_a_bar_of_its_own_color() {
    let mut gray = divided();
    for y in 0..HEIGHT {
        gray[(y * WIDTH + 300) as usize] = if y % 2 == 0 { 210 } else { 10 };
    }
    let r = fullscan_viz::render(&gray, WIDTH, HEIGHT, WINDOW, CheckKind::Uniformity);
    assert_eq!((r.vertical, r.vertical_unchecked), (1, 2));
    let last = r.frames.last().unwrap();
    assert_eq!(pixel(last, 300, HEIGHT + 30), (255, 130, 30, 255));
    assert_eq!(pixel(last, 200, HEIGHT + 30), (255, 220, 0, 255));
    assert_eq!(pixel(last, 300, 151), (10, 10, 10, 255));
    assert_eq!(CheckKind::Uniformity.name(), "uniformity");
    assert_eq!(CheckKind::Peak.name(), "peak");
    assert_eq!(CheckKind::Plain.name(), "none");
}

#[test]
fn a_level_line_glows_across_the_picture() {
    let mut gray = blank();
    for x in 0..WIDTH {
        gray[(150 * WIDTH + x) as usize] = 100;
    }
    let r = fullscan_viz::render(&gray, WIDTH, HEIGHT, WINDOW, CheckKind::Peak);
    assert_eq!((r.vertical, r.horizontal), (0, 1));
    let last = r.frames.last().unwrap();
    assert_eq!(pixel(last, 100, 150), (255, 255, 90, 255));
    assert_eq!(pixel(last, 100, 152), (140, 120, 0, 255));
    assert_eq!(pixel(last, 100, 153), (0, 0, 0, 255));
    assert_eq!(pixel(last, WIDTH + 20, 150), (255, 220, 0, 255));
}

#[test]
fn a_window_is_shown_relative_to_itself() {
    let gray = divided();
    let r = fullscan_viz::render(&gray, WIDTH, HEIGHT, (150, 100, 100, 80), CheckKind::Plain);
    let last = r.frames.last().unwrap();
    assert_eq!((last.canvas.width(), last.canvas.height()), (164, 144));
    assert_eq!(pixel(last, 50, 40), (255, 255, 90, 255));
}

#[test]
fn only_windows_over_gray_values_can_be_shown() {
    let gray = blank();
    assert!(fullscan_viz::is_showable(&gray, WIDTH, HEIGHT, WINDOW));
    assert!(growth_viz::is_showable(&gray, WIDTH, HEIGHT, WINDOW));
    for window in [(-1, 0, 10, 10), (0, -1, 10, 10), (0, 0, 400, 301), (0, 0, -5, 10)] {
        assert!(!fullscan_viz::is_showable(&gray, WIDTH, HEIGHT, window));
        assert!(!growth_viz::is_showable(&gray, WIDTH, HEIGHT, window));
    }
    assert!(!fullscan_viz::is_showable(&gray, WIDTH, HEIGHT, (0, 0, 0, 10)));
    assert!(growth_viz::is_showable(&gray, WIDTH, HEIGHT, (0, 0, 0, 10)));
    assert!(!fullscan_viz::is_showable(&gray, WIDTH, 301, WINDOW));
    assert!(is_complete(&gray, WIDTH, HEIGHT));
    assert!(!is_complete(&gray, u32::MAX, u32::MAX));
    assert!(is_readable(gray.len(), WIDTH, (399, 299, 1, 1)));
    assert!(!is_readable(gray.len(), WIDTH, (399, 299, 2, 1)));
    assert!(!is_readable(gray.len(), WIDTH, (i32::MAX, 0, 1, 1)));
    assert!(fits(1920, 1080));
    assert!(!fits(u32::MAX, u32::MAX));
}

fn boxed() -> Vec<u8> {
    let mut gray = blank();
    for x in 60..300 {
        gray[(40 * WIDTH + x) as usize] = 255;
        gray[(239 * WIDTH + x) as usize] = 255;
    }
    for y in 40..240 {
        gray[(y * WIDTH + 60) as usize] = 255;
        gray[(y * WIDTH + 299) as usize] = 255;
    }
    gray
}

fn count(frame: &Frame, color: (u8, u8, u8, u8)) -> usize {
    frame
        .canvas
        .rgba()
        .chunks(4)
        .filter(|c| (c[0], c[1], c[2], c[3]) == color)
        .count()
}

#[test]
fn growth_is_shown_from_the_seeds_to_the_boxes() {
    let gray = boxed();
    let r = growth_viz::render(&gray, WIDTH, HEIGHT, WINDOW);
    assert!(r.seeds > 0 && r.boxes > 0);
    assert!(r.raw_segments >= r.merged_segments && r.merged_segments >= 4);
    for f in &r.frames {
        assert_eq!((f.canvas.width(), f.canvas.height()), (WIDTH, HEIGHT));
    }
    let reveal = r.frames.iter().filter(|f| f.delay_ms == 90).count();
    assert_eq!(reveal, 14);
    assert_eq!(r.frames.len(), reveal + 25);
    let first = &r.frames[0];
    assert!(count(first, (255, 220, 0, 255)) > 0);
    assert!(count(first, (255, 140, 0, 255)) > 0);
    assert!(count(first, (255, 60, 60, 255)) > 0);
    assert_eq!(count(first, (60, 60, 160, 255)), 0);
    assert!(count(&r.frames[reveal - 1], (60, 60, 160, 255)) > 0);
    assert!(count(&r.frames[reveal], (60, 220, 90, 255)) > 0);
    assert!(count(&r.frames[reveal + 5], (0, 220, 220, 255)) > 0);
    assert!(count(&r.frames[reveal + 10], (255, 60, 220, 255)) > 0);
    let last = r.frames.last().unwrap();
    assert!(count(last, (255, 255, 0, 255)) >= 2 * (200 + 160));
    assert_eq!(pixel(last, 5, 5), (0, 0, 0, 255));
}

#[test]
fn growth_in_an_empty_picture_finds_nothing() {
    let gray = blank();
    let r = growth_viz::render(&gray, WIDTH, HEIGHT, WINDOW);
    assert_eq!((r.raw_segments, r.merged_segments, r.boxes), (0, 0, 0));
    let last = r.frames.last().unwrap();
    assert_eq!(count(last, (0, 0, 0, 255)), (WIDTH * HEIGHT) as usize);
}

#[test]
fn half_a_bar_is_half_of_the_strip_for_odd_sizes_too() {
    let gray = vec![0; 15];
    let r = fullscan_viz::render(&gray, 5, 3, (0, 0, 5, 3), CheckKind::Plain);
    let threshold = &r.frames[3 + 5];
    assert_eq!(pixel(threshold, 1, 3 + 32), (255, 70, 70, 255));
    assert_eq!(pixel(threshold, 5 + 32, 1), (255, 70, 70, 255));
}

#[test]
fn a_position_that_too_few_agree_on_has_a_blue_bar() {
    let mut gray = divided();
    for y in 0..100 {
        gray[y * WIDTH as usize + 300] = 100;
    }
    let r = fullscan_viz::render(&gray, WIDTH, HEIGHT, WINDOW, CheckKind::Plain);
    let last = r.frames.last().unwrap();
    assert_eq!(pixel(last, 300, HEIGHT + 60), (80, 170, 255, 255));
}

#[test]
fn demo_pictures_show_what_the_checks_are_for() {
    let (gray, w, h) = demo_picture(Demo::Band);
    assert_eq!((w, h, gray.len()), (400, 300, 120_000));
    assert_eq!((gray[60], gray[61], gray[178], gray[180], gray[300]), (255, 0, 255, 0, 255));
    assert_eq!(gray[299 * 400 + 300], 255);
    let window = (0, 0, 400, 300);
    let r = fullscan_viz::render(&gray, w, h, window, CheckKind::Peak);
    assert!(r.vertical < r.vertical_unchecked);
    let (gray, w, h) = demo_picture(Demo::Uniform);
    assert_eq!((w, h, gray.len()), (300, 300, 90_000));
    assert_eq!((gray[100], gray[200], gray[300 + 200], gray[0]), (200, 210, 10, 0));
    let r = fullscan_viz::render(&gray, w, h, (0, 0, 300, 300), CheckKind::Uniformity);
    assert_eq!((r.vertical, r.vertical_unchecked), (1, 2));
}

#[test]
fn a_sweep_takes_sixteen_frames_unless_there_are_fewer_rows() {
    for (w, h, columns, rows) in [(31, 17, 16, 16), (16, 15, 16, 15), (1, 500, 1, 16)] {
        let gray = vec![0; (w * h) as usize];
        let r = fullscan_viz::render(&gray, w, h, (0, 0, w as i32, h as i32), CheckKind::Plain);
        assert_eq!(r.frames.len(), rows + columns + 5 + 10);
    }
}
