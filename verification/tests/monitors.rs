//! Monitors, windows, outputs and the pointer.

use omakeys::active_monitor::{
    focused_monitor_windows, focused_output_geometry, focused_output_name, Client, Monitor,
    MonitorError, Quotient, SCALE_UNIT,
};
use omakeys::outputs::{find_output, outputs_to_bind, Advertised};
use omakeys::pointer::{Request, VirtualPointer, BTN_LEFT, BTN_RIGHT};
use omakeys::units::{from_px, to_pixel, to_screen_pixel, SUBPIXELS};

fn monitor(id: i64, name: &str, focused: bool, x: i64) -> Monitor {
    Monitor {
        id,
        name: name.to_string(),
        focused,
        x: x * SUBPIXELS,
        y: 0,
        width: 3840,
        height: 2160,
        scale: 2 * SCALE_UNIT,
        active_workspace: 7,
    }
}

fn client(title: &str, monitor: i64, workspace: i64, mapped: bool) -> Client {
    Client {
        title: title.to_string(),
        monitor,
        workspace,
        mapped,
        at: (2000 * SUBPIXELS, 50 * SUBPIXELS),
        size: (640 * SUBPIXELS, 480 * SUBPIXELS),
    }
}

#[test]
fn the_first_focused_monitor_counts() {
    let monitors = vec![
        monitor(0, "eDP-1", false, 0),
        monitor(1, "DP-3", true, 1920),
        monitor(2, "DP-4", true, 3840),
    ];
    assert_eq!(focused_output_name(&monitors), Ok("DP-3".to_string()));
    let size = Quotient { num: 3840 * SCALE_UNIT, den: 2 * SCALE_UNIT };
    let (name, w, h) = focused_output_geometry(&monitors).unwrap();
    assert_eq!(name, "DP-3");
    assert_eq!(w, size);
    assert_eq!(h.num / h.den, 1080);
}

#[test]
fn without_a_focused_monitor_there_is_no_answer() {
    let monitors = vec![monitor(0, "eDP-1", false, 0)];
    assert_eq!(focused_output_name(&monitors), Err(MonitorError::NoneFocused));
    assert_eq!(focused_output_geometry(&monitors).unwrap_err(), MonitorError::NoneFocused);
    assert_eq!(
        focused_monitor_windows(&monitors, &vec![]).unwrap_err(),
        MonitorError::NoneFocused
    );
}

#[test]
fn windows_are_those_of_the_visible_workspace_and_local_to_the_monitor() {
    let monitors = vec![monitor(0, "eDP-1", false, 0), monitor(1, "DP-3", true, 1920)];
    let clients = vec![
        client("other monitor", 0, 7, true),
        client("other workspace", 1, 8, true),
        client("unmapped", 1, 7, false),
        client("editor", 1, 7, true),
        client("terminal", 1, 7, true),
    ];
    let windows = focused_monitor_windows(&monitors, &clients).unwrap();
    let titles: Vec<&str> = windows.iter().map(|w| w.title.as_str()).collect();
    assert_eq!(titles, vec!["editor", "terminal"]);
    assert_eq!(windows[0].x, 80 * SUBPIXELS);
    assert_eq!(windows[0].y, 50 * SUBPIXELS);
    assert_eq!(windows[0].w, 640 * SUBPIXELS);
    assert_eq!(windows[0].h, 480 * SUBPIXELS);
    let copy = windows[1].duplicate();
    assert_eq!((copy.title.as_str(), copy.x, copy.h), ("terminal", windows[1].x, windows[1].h));
}

fn advertised(name: u32, interface: &str, version: u32) -> Advertised {
    Advertised { name, interface: interface.to_string(), version }
}

#[test]
fn only_outputs_are_bound_and_at_most_at_version_four() {
    let globals = vec![
        advertised(1, "wl_seat", 8),
        advertised(2, "wl_output", 3),
        advertised(3, "wl_output", 5),
        advertised(4, "wl_outputs", 4),
    ];
    assert_eq!(outputs_to_bind(&globals), vec![(2, 3), (3, 4)]);
}

#[test]
fn of_two_outputs_with_a_name_the_later_one_is_meant() {
    let names = vec!["DP-3".to_string(), "eDP-1".to_string(), "DP-3".to_string()];
    assert_eq!(find_output(&names, &"DP-3".to_string()), Some(2));
    assert_eq!(find_output(&names, &"eDP-1".to_string()), Some(1));
    assert_eq!(find_output(&names, &"HDMI-A-1".to_string()), None);
}

#[test]
fn a_pointer_falls_back_to_the_whole_layout() {
    let names = vec!["eDP-1".to_string(), "DP-3".to_string()];
    let known = "DP-3".to_string();
    let unknown = "DP-9".to_string();
    assert_eq!(VirtualPointer::new(Some(&known), &names).output, Some(1));
    assert_eq!(VirtualPointer::new(Some(&unknown), &names).output, None);
    assert_eq!(VirtualPointer::new(None, &names).output, None);
}

#[test]
fn moves_are_in_whole_pixels_of_the_screen() {
    let p = VirtualPointer { output: None };
    let requests = p.move_to(
        10 * SUBPIXELS + 449,
        -5,
        1920 * SUBPIXELS,
        1080 * SUBPIXELS,
    );
    assert_eq!(
        requests,
        vec![
            Request::MotionAbsolute { x: 10, y: 0, x_extent: 1920, y_extent: 1080 },
            Request::Frame,
            Request::Flush,
        ]
    );
}

#[test]
fn a_click_is_a_press_and_a_release() {
    let p = VirtualPointer { output: Some(0) };
    let mut both = p.press(BTN_RIGHT);
    both.extend(p.release(BTN_RIGHT));
    assert_eq!(p.click(BTN_RIGHT), both);
    assert_eq!(
        p.press(BTN_LEFT),
        vec![
            Request::Button { button: 0x110, pressed: true },
            Request::Frame,
            Request::Flush,
        ]
    );
    assert_eq!(p.release(BTN_LEFT)[0], Request::Button { button: 0x110, pressed: false });
}

#[test]
fn pixels_and_subpixels_convert_both_ways() {
    for px in [-2147483648, -1920, -1, 0, 1, 1080, 2147483647] {
        assert_eq!(to_pixel(from_px(px)), px);
    }
    assert_eq!(from_px(2), 900);
    assert_eq!(to_pixel(899), 1);
    assert_eq!(to_pixel(-899), -1);
    assert_eq!(to_screen_pixel(-899), 0);
    assert_eq!(to_pixel(i64::MAX), i32::MAX);
    assert_eq!(to_pixel(i64::MIN), i32::MIN);
    assert_eq!(to_screen_pixel(i64::MAX), u32::MAX);
}
