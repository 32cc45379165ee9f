//! Screenshots and the regions found in them.

use omakeys::active_monitor::FocusedWindow;
use omakeys::screencap::{
    buffer_size, holds_frame, to_gray, BufferInfo, Capture, CaptureAction, CaptureError, FrameEvent, Session,
    FORMAT_ARGB8888, FORMAT_XRGB8888,
};
use omakeys::units::SUBPIXELS;
use omakeys::vision::regions::{
    all_windows_fit, boxes_from_outlines, detect_regions, detect_regions_with, hint_regions, merge_boxes,
    VisionRegion,
};

const PX: i64 = SUBPIXELS;

fn info(format: u32) -> BufferInfo {
    BufferInfo { format, width: 2, height: 2, stride: 12 }
}

fn buffer(format: u32) -> FrameEvent {
    FrameEvent::Buffer { format: Some(format), width: 2, height: 2, stride: 12 }
}

#[test]
fn a_capture_copies_into_a_buffer_and_converts_it() {
    let mut s = Session::new();
    assert_eq!(s.next(), CaptureAction::Dispatch);
    s.event(buffer(FORMAT_XRGB8888));
    assert_eq!(s.next(), CaptureAction::Copy(info(FORMAT_XRGB8888)));
    s.copy_requested();
    assert_eq!(s.next(), CaptureAction::Dispatch);
    s.event(FrameEvent::Other);
    assert_eq!(s.next(), CaptureAction::Dispatch);
    s.event(FrameEvent::Ready);
    assert_eq!(s.next(), CaptureAction::Convert(info(FORMAT_XRGB8888)));
}

#[test]
fn a_capture_fails_if_the_copy_does() {
    let mut s = Session::new();
    s.event(buffer(FORMAT_ARGB8888));
    s.copy_requested();
    s.event(FrameEvent::Failed);
    assert_eq!(s.next(), CaptureAction::Fail(CaptureError::CopyFailed));
}

#[test]
fn a_capture_fails_on_another_pixel_format() {
    let mut s = Session::new();
    s.event(buffer(7));
    assert_eq!(s.next(), CaptureAction::Fail(CaptureError::UnsupportedFormat(7)));
}

#[test]
fn a_buffer_of_an_unknown_format_is_not_taken() {
    let mut s = Session::new();
    s.event(FrameEvent::Buffer { format: None, width: 2, height: 2, stride: 12 });
    assert_eq!(s.next(), CaptureAction::Dispatch);
}

#[test]
fn the_size_of_a_buffer_is_counted_in_rows() {
    assert_eq!(buffer_size(&info(FORMAT_ARGB8888)), Some(24));
    let huge = BufferInfo { format: 0, width: 1, height: 0x10000, stride: 0x10000 };
    assert_eq!(buffer_size(&huge), None);
}

#[test]
fn gray_values_are_luminances_of_the_pixels() {
    // Blue, green, red, unused; then four bytes of padding to each row.
    let bytes = [
        255, 0, 0, 9, 0, 255, 0, 9, 1, 2, 3, 4, //
        0, 0, 255, 9, 80, 80, 80, 9, 5, 6, 7, 8,
    ];
    let c = to_gray(&bytes, &info(FORMAT_XRGB8888));
    assert_eq!((c.width, c.height), (2, 2));
    assert_eq!(
        c.gray,
        vec![
            (0.114 * 255.0_f32) as u8,
            (0.587 * 255.0_f32) as u8,
            (0.299 * 255.0_f32) as u8,
            80,
        ]
    );
}

fn picture(width: u32, height: u32) -> Capture {
    Capture { width, height, gray: vec![0; (width * height) as usize] }
}

fn outline(c: &mut Capture, x: u32, y: u32, w: u32, h: u32, v: u8) {
    for i in 0..w {
        c.gray[(y * c.width + x + i) as usize] = v;
        c.gray[((y + h - 1) * c.width + x + i) as usize] = v;
    }
    for i in 0..h {
        c.gray[((y + i) * c.width + x) as usize] = v;
        c.gray[((y + i) * c.width + x + w - 1) as usize] = v;
    }
}

fn window(x: i64, y: i64, w: i64, h: i64) -> FocusedWindow {
    FocusedWindow { title: "w".to_string(), x: x * PX, y: y * PX, w: w * PX, h: h * PX }
}

#[test]
fn a_divider_splits_a_window_into_two_regions() {
    let mut c = picture(400, 300);
    for y in 0..300 {
        c.gray[y * 400 + 200] = 200;
    }
    let windows = vec![window(0, 0, 400, 300)];
    let regions = detect_regions(&c, &windows);
    assert_eq!(regions.len(), 2);
    assert_eq!(detect_regions_with(&c, &windows, true), regions);
    assert_eq!(hint_regions(Some(&c), &windows), regions);
    let elsewhere = vec![window(0, 0, 400, 300), window(1000, 1000, 10, 10)];
    assert_eq!(hint_regions(Some(&c), &elsewhere), regions);
}

#[test]
fn without_a_screenshot_there_are_no_regions() {
    assert_eq!(hint_regions(None, &[window(0, 0, 400, 300)]), vec![]);
}

#[test]
fn outlines_of_controls_are_found_by_their_edges() {
    let mut c = picture(400, 300);
    for y in 100..140 {
        for x in 150..230 {
            c.gray[y * 400 + x] = 200;
        }
    }
    let regions = detect_regions_with(&c, &[], false);
    assert!(!regions.is_empty());
    let near = |a: i64, b: i64| (a - b * PX).abs() <= 4 * PX;
    assert!(
        regions.iter().any(|r| near(r.x, 150) && near(r.y, 100) && near(r.w, 80) && near(r.h, 40)),
        "{regions:?}"
    );
}

#[test]
fn a_blank_screen_has_no_outlines() {
    assert_eq!(detect_regions_with(&picture(120, 90), &[], false), vec![]);
    for (value, width, height) in [(200, 120, 90), (77, 5, 5), (255, 1, 1), (1, 8, 300)] {
        let c = Capture { width, height, gray: vec![value; (width * height) as usize] };
        assert_eq!(detect_regions_with(&c, &[window(0, 0, 120, 90)], false), vec![]);
    }
}

#[test]
fn a_buffer_that_is_too_short_has_no_outlines() {
    let c = Capture { width: 100, height: 100, gray: vec![0; 50] };
    assert_eq!(detect_regions_with(&c, &[], false), vec![]);
}

#[test]
fn outlines_are_kept_by_size_shape_and_flatness() {
    let mut c = picture(400, 300);
    outline(&mut c, 50, 50, 200, 200, 200);
    for y in 10..40 {
        for x in 300..330 {
            c.gray[y * 400 + x] = if (x + y) % 2 == 0 { 255 } else { 0 };
        }
    }
    let square = |x: i32, y: i32, n: i32| vec![(x, y), (x + n, y), (x + n, y + n), (x, y + n)];
    let small = square(5, 5, 10);
    let control = square(5, 5, 20);
    let busy = square(302, 12, 20);
    let panel = square(50, 50, 199);
    let triangle = vec![(50, 50), (249, 50), (50, 249)];
    let whole = square(0, 0, 299);
    let found = boxes_from_outlines(
        &c.gray,
        400,
        300,
        &vec![small, control, busy, panel, triangle, whole],
    );
    assert_eq!(found.iter().map(|b| (b.0, b.1)).collect::<Vec<_>>(), vec![(5, 5), (50, 50)]);
}

#[test]
fn near_duplicates_are_merged_into_the_larger_box() {
    let regions = merge_boxes(vec![(2, 2, 98, 98), (0, 0, 100, 100), (10, 10, 20, 20)]);
    assert_eq!(
        regions,
        vec![
            VisionRegion { x: 0, y: 0, w: 100 * PX, h: 100 * PX },
            VisionRegion { x: 10 * PX, y: 10 * PX, w: 20 * PX, h: 20 * PX },
        ]
    );
}

#[test]
fn a_buffer_holds_a_frame_up_to_the_last_color_byte() {
    // The last pixel starts at 12 + 4, and its third color byte is two further on.
    assert!(holds_frame(19, &info(FORMAT_XRGB8888)));
    assert!(!holds_frame(18, &info(FORMAT_XRGB8888)));
    let empty = BufferInfo { format: FORMAT_XRGB8888, width: 0, height: 2, stride: 12 };
    assert!(holds_frame(0, &empty));
}

#[test]
fn windows_past_the_last_coordinate_do_not_fit() {
    assert!(all_windows_fit(&[]));
    assert!(all_windows_fit(&[window(0, 0, 400, 300)]));
    let far = i32::MAX as i64 - 100;
    assert!(!all_windows_fit(&[window(0, 0, 400, 300), window(far, 0, 400, 300)]));
    assert!(!all_windows_fit(&[window(0, far, 400, 300)]));
    // Nothing is looked for in a window as small as this.
    assert!(all_windows_fit(&[window(far, 0, 400, 1)]));
}
