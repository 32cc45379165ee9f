//! Settings, the menu on the terminal, and commands to the daemon.

use omakeys::cheat_sheet::{CHEAT_LINES, CHEAT_SHEET};
use omakeys::config::{
    load, Settings, Stored, DEFAULT_NUDGE_STEP, NUDGE_STEP_INCREMENT, NUDGE_STEP_MAX,
    NUDGE_STEP_MIN,
};
use omakeys::ipc::{listen, socket_path, Command, Connection, ListenerAction};
use omakeys::settings_tui::{handle_key, menu_screen, MenuAction, MenuKey};
use omakeys::text::{of_char, to_decimal};
use omakeys::units::SUBPIXELS;

#[test]
fn a_broken_settings_file_stops_nothing() {
    let default = Settings { nudge_step: 20 * SUBPIXELS };
    assert_eq!(Settings::default(), default);
    assert_eq!(DEFAULT_NUDGE_STEP, 20 * SUBPIXELS);
    for stored in [Stored::NoPlace, Stored::Missing, Stored::Unreadable, Stored::Malformed] {
        assert_eq!(load(stored), default);
    }
    let own = Settings { nudge_step: 7 * SUBPIXELS };
    assert_eq!(load(Stored::Parsed(own)), own);
}

#[test]
fn adjusting_stops_at_the_bounds() {
    assert_eq!(NUDGE_STEP_MIN, 5 * SUBPIXELS);
    assert_eq!(NUDGE_STEP_MAX, 200 * SUBPIXELS);
    assert_eq!(NUDGE_STEP_INCREMENT, 5 * SUBPIXELS);
    let mut s = Settings { nudge_step: 197 * SUBPIXELS };
    s.adjust(NUDGE_STEP_INCREMENT);
    assert_eq!(s.nudge_step, NUDGE_STEP_MAX);
    let mut s = Settings { nudge_step: 12 * SUBPIXELS };
    s.adjust(-NUDGE_STEP_INCREMENT);
    assert_eq!(s.nudge_step, 7 * SUBPIXELS);
    s.adjust(-NUDGE_STEP_INCREMENT);
    assert_eq!(s.nudge_step, NUDGE_STEP_MIN);
    let mut s = Settings { nudge_step: i64::MAX };
    s.adjust(i64::MAX);
    assert_eq!(s.nudge_step, NUDGE_STEP_MAX);
}

#[test]
fn distances_are_shown_in_whole_pixels_and_ties_go_to_the_even_one() {
    let shown = |subpixels: i64| Settings { nudge_step: subpixels }.nudge_pixels();
    assert_eq!(shown(20 * SUBPIXELS), "20");
    assert_eq!(shown(20 * SUBPIXELS + 225), format!("{:.0}", 20.5));
    assert_eq!(shown(21 * SUBPIXELS + 225), format!("{:.0}", 21.5));
    assert_eq!(shown(21 * SUBPIXELS + 226), "22");
    assert_eq!(shown(-3 * SUBPIXELS), "-3");
    assert_eq!(shown(0), "0");
}

#[test]
fn decimals_and_letters_become_text() {
    assert_eq!(to_decimal(0), "0");
    assert_eq!(to_decimal(90210), "90210");
    assert_eq!(to_decimal(u64::MAX), "18446744073709551615");
    assert_eq!(of_char(';'), ";");
    assert_eq!(of_char('\u{e9}'), "\u{e9}");
}

#[test]
fn the_terminal_menu_saves_what_it_changes() {
    let mut s = Settings::default();
    let more = Settings { nudge_step: 25 * SUBPIXELS };
    assert_eq!(handle_key(&mut s, MenuKey::Char('+'), true), MenuAction::Save(more));
    assert_eq!(s, more);
    let most = Settings { nudge_step: 30 * SUBPIXELS };
    assert_eq!(handle_key(&mut s, MenuKey::Char('='), true), MenuAction::Save(most));
    assert_eq!(handle_key(&mut s, MenuKey::Char('-'), true), MenuAction::Save(more));
    assert_eq!(handle_key(&mut s, MenuKey::Char('+'), false), MenuAction::Nothing);
    assert_eq!(handle_key(&mut s, MenuKey::Char('x'), true), MenuAction::Nothing);
    assert_eq!(handle_key(&mut s, MenuKey::Other, true), MenuAction::Nothing);
    assert_eq!(handle_key(&mut s, MenuKey::Esc, true), MenuAction::Quit);
    assert_eq!(handle_key(&mut s, MenuKey::Char('q'), true), MenuAction::Quit);
    assert_eq!(handle_key(&mut s, MenuKey::Esc, false), MenuAction::Nothing);
    assert_eq!(s, more);
}

#[test]
fn the_terminal_menu_shows_every_key() {
    let screen = menu_screen(&Settings { nudge_step: 35 * SUBPIXELS });
    assert_eq!(screen.lines.len(), CHEAT_LINES);
    assert_eq!(CHEAT_SHEET.len(), CHEAT_LINES);
    for (line, (key, action)) in screen.lines.iter().zip(CHEAT_SHEET.iter()) {
        assert_eq!(line.0.trim(), *key);
        assert!(line.1.contains(action));
    }
    assert!(screen.nudge_line.contains("Nudge speed: 35px per press"));
}

#[test]
fn the_socket_lies_in_the_runtime_directory() {
    assert_eq!(socket_path(Some("/run/user/1000".to_string())), "/run/user/1000/omakeys.sock");
    assert_eq!(socket_path(None), "/tmp/omakeys.sock");
}

#[test]
fn the_listener_forwards_commands_and_outlives_bad_connections() {
    assert_eq!(listen(Connection::Refused), ListenerAction::Next);
    assert_eq!(listen(Connection::Unreadable), ListenerAction::Next);
    assert_eq!(listen(Connection::Malformed), ListenerAction::Warn);
    assert_eq!(
        listen(Connection::Received(Command::Quit)),
        ListenerAction::Forward(Command::Quit)
    );
    assert_eq!(
        listen(Connection::Received(Command::ToggleMenu)),
        ListenerAction::Forward(Command::ToggleMenu)
    );
}
