//! The overlay: keys, drags, hints, the menu and what is drawn.

use omakeys::atspi_scan::{Category, Element, ROLE_ENTRY, ROLE_PUSH_BUTTON};
use omakeys::config::{Settings, NUDGE_STEP_MAX};
use omakeys::grid::{build_grid, coarse_region_center, find_cell, region_extent};
use omakeys::ipc::Command;
use omakeys::overlay::{
    screen_geometry, Effect, KeyPress, KeyboardMode, Mode, Overlay, Placement, PointerOp, Purpose,
    CLICK_PAUSE_MS, KEY_BACKSPACE, KEY_ESCAPE, KEY_H, KEY_J, KEY_KP_ADD, KEY_LEFT, KEY_MINUS,
    KEY_PLUS, KEY_RIGHT, KEY_SHIFT_L, KEY_SPACE, KEY_UP,
};
use omakeys::pointer::{VirtualPointer, BTN_LEFT, BTN_RIGHT};
use omakeys::units::SUBPIXELS;
use omakeys::vision::regions::VisionRegion;

const PX: i64 = SUBPIXELS;

const POINTER: Option<VirtualPointer> = Some(VirtualPointer { output: None });

fn typed(c: char) -> KeyPress {
    KeyPress { keyval: c as u32, ch: Some(c), shift: false }
}

fn special(keyval: u32) -> KeyPress {
    KeyPress { keyval, ch: None, shift: false }
}

fn space(shift: bool) -> KeyPress {
    KeyPress { keyval: KEY_SPACE, ch: Some(' '), shift }
}

fn warp(x: i64, y: i64) -> Effect {
    Effect::Pointer(PointerOp::MoveTo { x, y, screen_w: 1920 * PX, screen_h: 1080 * PX })
}

fn open_grid() -> Overlay {
    let mut o = Overlay::new(Settings::default());
    assert_eq!(o.toggle(), vec![Effect::Present(Purpose::Grid)]);
    assert_eq!(
        o.grid_opened(1920, 1080, POINTER),
        vec![Effect::SetKeyboard(KeyboardMode::OnDemand), Effect::Redraw, Effect::RedrawGrid]
    );
    o
}

fn at(o: &Overlay) -> (i64, i64, bool) {
    match o.state.mode {
        Mode::Selected { x, y, holding } => (x, y, holding),
        _ => panic!("no position is picked"),
    }
}

fn through(op: PointerOp) -> Vec<Effect> {
    vec![
        Effect::SetKeyboard(KeyboardMode::Off),
        Effect::SetVisible(false),
        Effect::Pause(CLICK_PAUSE_MS),
        Effect::Pointer(op),
        Effect::SetVisible(true),
        Effect::SetKeyboard(KeyboardMode::OnDemand),
    ]
}

fn closing() -> Vec<Effect> {
    vec![
        Effect::DropPointer,
        Effect::SetKeyboard(KeyboardMode::Off),
        Effect::SetVisible(false),
        Effect::HideGridWindows,
    ]
}

#[test]
fn two_keys_warp_to_the_middle_of_a_cell() {
    let mut o = open_grid();
    let ticket = o.state.ticket + 1;
    assert_eq!(
        o.handle_key(typed('a')),
        vec![Effect::ScanRegion { coarse: 'a', ticket }, Effect::Redraw, Effect::RedrawGrid]
    );
    assert!(matches!(o.state.mode, Mode::TypingFine('a')));
    let cells = build_grid(1920, 1080);
    let (x, y) = find_cell(&cells, 'a', 'p').unwrap().center();
    assert_eq!(
        o.handle_key(typed('p')),
        vec![warp(x, y), Effect::HideGridWindows, Effect::Redraw, Effect::RedrawGrid]
    );
    assert_eq!(at(&o), (x, y, false));
}

#[test]
fn other_keys_pick_nothing() {
    let mut o = open_grid();
    assert_eq!(o.handle_key(typed('p')), vec![Effect::Redraw, Effect::RedrawGrid]);
    assert!(matches!(o.state.mode, Mode::TypingCoarse));
    o.handle_key(typed('a'));
    assert_eq!(o.handle_key(typed('q')), vec![Effect::Redraw, Effect::RedrawGrid]);
    assert!(matches!(o.state.mode, Mode::TypingFine('a')));
}

#[test]
fn a_nudge_after_a_coarse_key_starts_in_the_middle_of_the_region() {
    let cells = build_grid(1920, 1080);
    let (cx, cy) = coarse_region_center(&cells, 's').unwrap();
    let mut o = open_grid();
    o.handle_key(typed('s'));
    o.handle_key(typed('h'));
    assert_eq!(at(&o), (cx - 20 * PX, cy, false));
    let mut o = open_grid();
    o.handle_key(typed('s'));
    o.handle_key(special(KEY_UP));
    assert_eq!(at(&o), (cx, cy - 20 * PX, false));
}

#[test]
fn nudges_end_at_the_edge_of_the_screen() {
    let mut o = open_grid();
    o.handle_key(typed('q'));
    o.handle_key(typed('y'));
    let (x, y, _) = at(&o);
    assert!(x > 0 && y > 0);
    for _ in 0..100 {
        o.handle_key(special(KEY_LEFT));
        o.handle_key(special(KEY_UP));
    }
    assert_eq!(at(&o), (0, 0, false));
    // Where nothing moves, the pointer stays alone.
    assert_eq!(o.handle_key(special(KEY_H)), vec![Effect::Redraw, Effect::RedrawGrid]);
    for _ in 0..200 {
        o.handle_key(special(KEY_RIGHT));
        o.handle_key(special(KEY_J));
    }
    assert_eq!(at(&o), (1920 * PX, 1080 * PX, false));
}

#[test]
fn space_clicks_and_leaves_the_overlay_open() {
    let mut o = open_grid();
    o.handle_key(typed('a'));
    o.handle_key(typed('p'));
    let place = at(&o);
    let mut left = through(PointerOp::Click(BTN_LEFT));
    left.extend([Effect::Redraw, Effect::RedrawGrid]);
    assert_eq!(o.handle_key(space(false)), left);
    let mut right = through(PointerOp::Click(BTN_RIGHT));
    right.extend([Effect::Redraw, Effect::RedrawGrid]);
    assert_eq!(o.handle_key(space(true)), right);
    assert_eq!(at(&o), place);
}

#[test]
fn shift_holds_the_button_until_it_is_let_go() {
    let mut o = open_grid();
    o.handle_key(typed('a'));
    o.handle_key(typed('p'));
    let (x, y, _) = at(&o);
    let mut down = through(PointerOp::Press(BTN_LEFT));
    down.extend([Effect::Redraw, Effect::RedrawGrid]);
    assert_eq!(o.handle_key(special(KEY_SHIFT_L)), down);
    assert_eq!(at(&o), (x, y, true));
    // A second press of the key, or a letter by mistake, does nothing.
    assert_eq!(o.handle_key(special(KEY_SHIFT_L)), vec![Effect::Redraw, Effect::RedrawGrid]);
    assert_eq!(o.handle_key(typed('x')), vec![Effect::Redraw, Effect::RedrawGrid]);
    o.handle_key(special(KEY_LEFT));
    assert_eq!(at(&o), (x - 20 * PX, y, true));
    let mut up = through(PointerOp::Release(BTN_LEFT));
    up.push(Effect::Redraw);
    assert_eq!(o.handle_key_released(KEY_SHIFT_L), up);
    assert_eq!(at(&o), (x - 20 * PX, y, false));
    assert_eq!(o.handle_key_released(KEY_SHIFT_L), vec![]);
}

#[test]
fn closing_releases_a_held_button() {
    let mut o = open_grid();
    o.handle_key(typed('a'));
    o.handle_key(typed('p'));
    o.handle_key(special(KEY_SHIFT_L));
    let mut expected = vec![Effect::Pointer(PointerOp::Release(BTN_LEFT))];
    expected.extend(closing());
    assert_eq!(o.handle_key(special(KEY_ESCAPE)), expected);
    assert!(matches!(o.state.mode, Mode::Hidden));
    assert_eq!(o.state.pointer, None);

    let mut o = open_grid();
    o.handle_key(typed('a'));
    o.handle_key(typed('p'));
    o.handle_key(special(KEY_SHIFT_L));
    assert_eq!(o.command(Command::ToggleMenu), expected);
    assert!(matches!(o.state.mode, Mode::Hidden));
}

#[test]
fn a_letter_clicks_closes_and_is_passed_on() {
    let mut o = open_grid();
    o.handle_key(typed('a'));
    o.handle_key(typed('p'));
    assert_eq!(
        o.handle_key(typed('x')),
        vec![
            Effect::SetKeyboard(KeyboardMode::Off),
            Effect::SetVisible(false),
            Effect::Pause(CLICK_PAUSE_MS),
            Effect::Pointer(PointerOp::Click(BTN_LEFT)),
            Effect::DropPointer,
            Effect::ForwardChar('x'),
            Effect::Redraw,
        ]
    );
    assert!(matches!(o.state.mode, Mode::Hidden));
}

#[test]
fn without_a_pointer_nothing_is_pointed_at() {
    let mut o = Overlay::new(Settings::default());
    o.toggle();
    o.grid_opened(1920, 1080, None);
    o.handle_key(typed('a'));
    assert_eq!(
        o.handle_key(typed('p')),
        vec![Effect::HideGridWindows, Effect::Redraw, Effect::RedrawGrid]
    );
    let effects = o.handle_key(space(false));
    assert!(!effects.iter().any(|e| matches!(e, Effect::Pointer(_) | Effect::Pause(_))));
}

fn button(x: i64, y: i64) -> Element {
    Element {
        role: ROLE_PUSH_BUTTON,
        category: Category::Button,
        name: "b".to_string(),
        x: x * PX,
        y: y * PX,
        w: 10 * PX,
        h: 10 * PX,
    }
}

fn open_hints(elements: Vec<Element>, regions: Vec<VisionRegion>) -> Overlay {
    let mut o = Overlay::new(Settings::default());
    assert_eq!(o.toggle_hints(), vec![Effect::Present(Purpose::Hints)]);
    assert_eq!(
        o.hints_opened(1920, 1080, POINTER),
        vec![Effect::SetKeyboard(KeyboardMode::OnDemand), Effect::ScanHints { ticket: 1 }]
    );
    assert!(matches!(o.state.mode, Mode::Hidden));
    assert_eq!(o.hints_found(1, elements, regions), vec![Effect::Redraw]);
    o
}

fn label(o: &Overlay, i: usize) -> String {
    match &o.state.mode {
        Mode::Hints { targets, .. } => targets[i].label.clone(),
        _ => panic!("no hints are shown"),
    }
}

fn typed_so_far(o: &Overlay) -> String {
    match &o.state.mode {
        Mode::Hints { typed, .. } => typed.clone(),
        _ => panic!("no hints are shown"),
    }
}

#[test]
fn a_label_of_one_key_clicks_its_target() {
    let mut o = open_hints(vec![button(100, 100), button(300, 200)], vec![]);
    let key = label(&o, 1).chars().next().unwrap();
    assert_eq!(
        o.handle_key(typed(key)),
        vec![
            warp(305 * PX, 205 * PX),
            Effect::SetKeyboard(KeyboardMode::Off),
            Effect::SetVisible(false),
            Effect::Pause(CLICK_PAUSE_MS),
            Effect::Pointer(PointerOp::Click(BTN_LEFT)),
            Effect::DropPointer,
            Effect::Redraw,
        ]
    );
    assert!(matches!(o.state.mode, Mode::Hidden));
}

#[test]
fn labels_of_two_keys_are_narrowed_down_and_taken_back() {
    let elements: Vec<Element> = (0..40).map(|i| button(20 * i, 100)).collect();
    let mut o = open_hints(elements, vec![]);
    let keys: Vec<char> = label(&o, 35).chars().collect();
    assert_eq!(o.handle_key(typed(keys[0])), vec![Effect::Redraw]);
    assert_eq!(typed_so_far(&o), keys[0].to_string());
    // Only two of the keys begin a label, and the second of these leads on to ten of them.
    let dead_end = label(&o, 29).chars().nth(1).unwrap();
    assert_eq!(o.handle_key(typed(dead_end)), vec![Effect::Redraw]);
    assert_eq!(typed_so_far(&o), keys[0].to_string());
    o.handle_key(special(KEY_BACKSPACE));
    assert_eq!(typed_so_far(&o), "");
    o.handle_key(special(KEY_BACKSPACE));
    assert_eq!(typed_so_far(&o), "");
    o.handle_key(typed(keys[0]));
    let effects = o.handle_key(typed(keys[1]));
    assert_eq!(effects[0], warp((20 * 35 + 5) * PX, 105 * PX));
    assert!(matches!(o.state.mode, Mode::Hidden));
}

#[test]
fn characters_outside_of_labels_are_ignored() {
    let mut o = open_hints(vec![button(100, 100)], vec![]);
    assert_eq!(o.handle_key(typed('7')), vec![Effect::Redraw]);
    assert_eq!(o.handle_key(special(KEY_RIGHT)), vec![Effect::Redraw]);
    assert_eq!(typed_so_far(&o), "");
    assert_eq!(o.handle_key(special(KEY_ESCAPE)), closing());
}

#[test]
fn toggles_close_what_is_open() {
    let mut o = open_hints(vec![button(100, 100)], vec![]);
    assert_eq!(o.toggle(), closing());
    assert_eq!(o.toggle_hints(), vec![Effect::Present(Purpose::Hints)]);
    let mut o = open_grid();
    assert_eq!(o.toggle_hints(), closing());
    assert_eq!(o.toggle_menu(), vec![Effect::Present(Purpose::Menu)]);
    assert_eq!(o.command(Command::ToggleGrid), vec![Effect::Present(Purpose::Grid)]);
    assert_eq!(o.command(Command::ToggleHints), vec![Effect::Present(Purpose::Hints)]);
    assert_eq!(o.command(Command::Quit), vec![Effect::Quit]);
}

#[test]
fn the_menu_changes_and_saves_the_distance_of_a_nudge() {
    let mut o = Overlay::new(Settings { nudge_step: 190 * PX });
    o.toggle_menu();
    assert_eq!(
        o.menu_opened(),
        vec![Effect::SetKeyboard(KeyboardMode::OnDemand), Effect::Redraw]
    );
    let saved = |step: i64| {
        vec![
            Effect::SaveSettings(Settings { nudge_step: step }),
            Effect::Redraw,
            Effect::RedrawGrid,
        ]
    };
    assert_eq!(o.handle_key(special(KEY_PLUS)), saved(195 * PX));
    assert_eq!(o.handle_key(special(KEY_KP_ADD)), saved(200 * PX));
    assert_eq!(o.handle_key(typed('=')), saved(NUDGE_STEP_MAX));
    assert_eq!(o.handle_key(special(KEY_MINUS)), saved(195 * PX));
    assert_eq!(o.handle_key(typed('x')), vec![Effect::Redraw, Effect::RedrawGrid]);
    assert_eq!(o.state.settings.nudge_step, 195 * PX);
}

#[test]
fn a_single_button_of_a_region_is_clicked_right_away() {
    let mut o = open_grid();
    o.handle_key(typed('q'));
    let ticket = o.state.ticket;
    let mut field = button(30, 30);
    field.role = ROLE_ENTRY;
    field.category = Category::TextField;
    let effects = o.region_scanned(ticket, vec![field, button(10, 20), button(1800, 20)]);
    assert_eq!(
        effects,
        vec![
            warp(15 * PX, 25 * PX),
            Effect::HideGridWindows,
            Effect::SetKeyboard(KeyboardMode::Off),
            Effect::SetVisible(false),
            Effect::Pause(CLICK_PAUSE_MS),
            Effect::Pointer(PointerOp::Click(BTN_LEFT)),
            Effect::DropPointer,
            Effect::Redraw,
        ]
    );
    assert!(matches!(o.state.mode, Mode::Hidden));
}

#[test]
fn several_buttons_of_a_region_become_hints() {
    let mut o = open_grid();
    o.handle_key(typed('q'));
    let ticket = o.state.ticket;
    let effects = o.region_scanned(ticket, vec![button(10, 20), button(40, 20), button(1800, 20)]);
    assert_eq!(effects, vec![Effect::HideGridWindows, Effect::Redraw]);
    match &o.state.mode {
        Mode::Hints { targets, .. } => assert_eq!(targets.len(), 2),
        _ => panic!("no hints are shown"),
    }
}

#[test]
fn a_region_without_buttons_leaves_the_grid_as_it_is() {
    let mut o = open_grid();
    o.handle_key(typed('q'));
    let ticket = o.state.ticket;
    assert_eq!(o.region_scanned(ticket, vec![button(1800, 20)]), vec![]);
    assert!(matches!(o.state.mode, Mode::TypingFine('q')));
}

#[test]
fn a_scan_that_a_key_has_overtaken_is_ignored() {
    let mut o = open_grid();
    o.handle_key(typed('q'));
    let ticket = o.state.ticket;
    o.handle_key(typed('y'));
    let place = at(&o);
    assert_eq!(o.region_scanned(ticket, vec![button(10, 20)]), vec![]);
    assert_eq!(at(&o), place);
}

#[test]
fn dashes_move_while_something_is_shown() {
    let mut o = Overlay::new(Settings::default());
    assert_eq!(o.tick(), vec![]);
    assert_eq!(o.state.dash_phase, 0);
    let mut o = open_grid();
    for _ in 0..11 {
        assert_eq!(o.tick(), vec![Effect::Redraw, Effect::RedrawGrid]);
    }
    assert_eq!(o.state.dash_phase, 66);
    o.tick();
    assert_eq!(o.state.dash_phase, 2);
}

#[test]
fn the_keyboard_is_taken_back_while_something_is_shown() {
    let o = Overlay::new(Settings::default());
    assert_eq!(o.focus_changed(false), vec![]);
    let o = open_grid();
    assert_eq!(o.focus_changed(true), vec![]);
    assert_eq!(o.focus_changed(false), vec![Effect::SetKeyboard(KeyboardMode::OnDemand)]);
}

#[test]
fn the_windows_of_the_grid_tile_the_screen() {
    let windows = Overlay::grid_windows();
    assert_eq!(windows.len(), 15);
    assert_eq!(windows[0].coarse, 'q');
    assert_eq!((windows[5].coarse, windows[5].row, windows[5].col), ('a', 1, 0));
    assert_eq!(
        windows[14].place(1920, 1080),
        Placement { left: 4 * 384, top: 2 * 360, width: 384, height: 360 }
    );
    // Edges are rounded to the nearest pixel.
    assert_eq!(windows[0].place(1366, 768).width, 273);
    assert_eq!(windows[0].place(1368, 770).width, 274);
    assert_eq!(windows[0].place(1368, 770).height, 257);
    for (w, h) in [(1366, 768), (1368, 770), (1, 1), (0, 0), (2_147_483_647, 2_147_483_647)] {
        let mut end = 0;
        for g in &windows[5..10] {
            let p = g.place(w, h);
            assert_eq!(p.left, end);
            end = p.left + p.width;
        }
        assert_eq!(end, w);
        let mut end = 0;
        for g in [&windows[2], &windows[7], &windows[12]] {
            let p = g.place(w, h);
            assert_eq!(p.top, end);
            end = p.top + p.height;
        }
        assert_eq!(end, h);
    }
}

#[test]
fn the_screen_is_that_of_the_monitor_or_of_the_window() {
    assert_eq!(screen_geometry(Some((5, 6, 1920, 1080)), (1, 1)), (5, 6, 1920, 1080));
    assert_eq!(screen_geometry(None, (800, 0)), (0, 0, 800, 1));
}

#[test]
fn a_region_reaches_as_far_as_its_cells() {
    let cells = build_grid(1920, 1080);
    assert_eq!(
        region_extent(&cells, 'q'),
        Some((0, 0, 384 * PX, 360 * PX))
    );
    assert_eq!(coarse_region_center(&cells, 'q'), Some((192 * PX, 180 * PX)));
    assert_eq!(region_extent(&cells, 'p'), None);
    assert_eq!(coarse_region_center(&cells, '7'), None);
}

fn waiting() -> Overlay {
    let mut o = Overlay::new(Settings::default());
    o.toggle_hints();
    o.hints_opened(1920, 1080, POINTER);
    o
}

#[test]
fn a_second_toggle_calls_awaited_hints_off() {
    let mut o = waiting();
    assert_eq!(o.toggle_hints(), closing());
    assert_eq!(o.state.pointer, None);
    assert_eq!(o.hints_found(1, vec![button(100, 100)], vec![]), vec![]);
    assert!(matches!(o.state.mode, Mode::Hidden));
    assert_eq!(o.toggle_hints(), vec![Effect::Present(Purpose::Hints)]);
}

#[test]
fn escape_calls_awaited_hints_off() {
    let mut o = waiting();
    assert_eq!(o.handle_key(special(KEY_ESCAPE)), closing());
    assert_eq!(o.hints_found(1, vec![button(100, 100)], vec![]), vec![]);
    assert!(matches!(o.state.mode, Mode::Hidden));
}

#[test]
fn other_keys_leave_awaited_hints_alone() {
    let mut o = waiting();
    assert_eq!(o.handle_key(typed('a')), vec![Effect::Redraw, Effect::RedrawGrid]);
    assert_eq!(o.hints_found(1, vec![button(100, 100)], vec![]), vec![Effect::Redraw]);
    assert_eq!(label(&o, 0).chars().count(), 1);
}

#[test]
fn an_earlier_scan_does_not_stand_in_for_a_later_one() {
    let mut o = waiting();
    o.toggle_hints();
    o.toggle_hints();
    assert_eq!(
        o.hints_opened(1920, 1080, POINTER),
        vec![Effect::SetKeyboard(KeyboardMode::OnDemand), Effect::ScanHints { ticket: 2 }]
    );
    assert_eq!(o.hints_found(1, vec![button(100, 100)], vec![]), vec![]);
    assert!(matches!(o.state.mode, Mode::Hidden));
    assert_eq!(o.hints_found(2, vec![button(100, 100)], vec![]), vec![Effect::Redraw]);
    // Neither does it take the place of what was opened since.
    let mut o = waiting();
    o.toggle_hints();
    o.toggle();
    o.grid_opened(1920, 1080, POINTER);
    assert_eq!(o.hints_found(1, vec![button(100, 100)], vec![]), vec![]);
    assert!(matches!(o.state.mode, Mode::TypingCoarse));
}

#[test]
fn other_toggles_open_something_else_while_hints_are_awaited() {
    let mut o = waiting();
    assert_eq!(o.toggle(), vec![Effect::Present(Purpose::Grid)]);
    o.grid_opened(1920, 1080, POINTER);
    assert_eq!(o.hints_found(1, vec![button(100, 100)], vec![]), vec![]);
    assert!(matches!(o.state.mode, Mode::TypingCoarse));
    let mut o = waiting();
    assert_eq!(o.toggle_menu(), vec![Effect::Present(Purpose::Menu)]);
    o.menu_opened();
    assert_eq!(o.hints_found(1, vec![button(100, 100)], vec![]), vec![]);
    assert!(matches!(o.state.mode, Mode::Menu));
}

#[test]
fn only_printable_characters_end_a_positioning() {
    let mut o = open_grid();
    o.handle_key(typed('a'));
    o.handle_key(typed('p'));
    let place = at(&o);
    for c in ['\t', '\r', '\u{8}', '\u{7f}', '\u{9f}'] {
        let key = KeyPress { keyval: 0xff0d, ch: Some(c), shift: false };
        assert_eq!(o.handle_key(key), vec![Effect::Redraw, Effect::RedrawGrid]);
        assert_eq!(at(&o), place);
    }
    assert!(o.handle_key(typed('\u{e9}')).contains(&Effect::ForwardChar('\u{e9}')));
    assert!(matches!(o.state.mode, Mode::Hidden));
}
