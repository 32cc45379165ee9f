//! What the overlay draws.

use omakeys::atspi_scan::{Category, Element, ROLE_PUSH_BUTTON};
use omakeys::cheat_sheet::CHEAT_SHEET;
use omakeys::config::Settings;
use omakeys::drawing::{
    draw, draw_grid_region, place_bubble, rounded_rect, Color, Corner, Extents, Measures, Op,
    Text, BUBBLE_H,
};
use omakeys::overlay::{KeyPress, Overlay};
use omakeys::units::SUBPIXELS;
use omakeys::vision::regions::VisionRegion;

const PX: i64 = SUBPIXELS;

const W: i64 = 1920 * PX;

const H: i64 = 1080 * PX;

fn typed(c: char) -> KeyPress {
    KeyPress { keyval: c as u32, ch: Some(c), shift: false }
}

fn measures() -> Measures {
    Measures { message: Some((700 * PX, 12 * PX)), keys: vec![90 * PX, 150 * PX, 20 * PX] }
}

fn open_grid() -> Overlay {
    let mut o = Overlay::new(Settings::default());
    o.grid_opened(1920, 1080, None);
    o
}

fn source(r: u8, g: u8, b: u8, a: u8) -> Op {
    Op::Source(Color { r, g, b, a })
}

fn button(x: i64, y: i64) -> Element {
    Element {
        role: ROLE_PUSH_BUTTON,
        category: Category::Button,
        name: "b".to_string(),
        x: x * PX,
        y: y * PX,
        w: 40 * PX,
        h: 20 * PX,
    }
}

fn hints(elements: Vec<Element>, regions: Vec<VisionRegion>) -> Overlay {
    let mut o = Overlay::new(Settings::default());
    o.hints_opened(1920, 1080, None);
    let ticket = o.state.ticket;
    o.hints_found(ticket, elements, regions);
    o
}

#[test]
fn nothing_is_drawn_on_the_main_window_for_the_grid() {
    let mut o = open_grid();
    assert_eq!(draw(W, H, &o.state, &measures()), vec![]);
    o.handle_key(typed('a'));
    assert_eq!(draw(W, H, &o.state, &measures()), vec![]);
    o.handle_key(typed('p'));
    assert_eq!(draw(W, H, &o.state, &measures()), vec![]);
    assert_eq!(draw_grid_region(384 * PX, 360 * PX, &o.state, 'a', 1, 0), vec![]);
}

#[test]
fn a_region_shows_its_key_in_a_moving_outline() {
    let mut o = open_grid();
    o.tick();
    assert_eq!(
        draw_grid_region(384 * PX, 360 * PX, &o.state, 'a', 1, 0),
        vec![
            source(0, 0, 0, 12),
            Op::Paint,
            source(100, 100, 100, 90),
            Op::Font { bold: true },
            Op::FontSize(28),
            Op::Centered { text: Text::Letter('a'), x: 192 * PX, y: 180 * PX },
            Op::Rectangle { x: 0, y: 0, w: 384 * PX, h: 360 * PX },
            source(15, 95, 100, 85),
            Op::LineWidth(15),
            Op::Dashes(6),
            Op::Stroke,
            Op::Solid,
        ]
    );
}

#[test]
fn the_chosen_region_shows_its_cells_without_the_nudge_keys() {
    let mut o = open_grid();
    o.handle_key(typed('s'));
    let ops = draw_grid_region(384 * PX, 360 * PX, &o.state, 's', 1, 1);
    let letters: Vec<char> = ops
        .iter()
        .filter_map(|op| match op {
            Op::Centered { text: Text::Letter(c), .. } => Some(*c),
            _ => None,
        })
        .collect();
    assert_eq!(letters.iter().collect::<String>(), "yuiop;nm,./");
    let boxes: Vec<(i64, i64)> = ops
        .iter()
        .filter_map(|op| match op {
            Op::Rectangle { x, y, .. } => Some((*x, *y)),
            _ => None,
        })
        .collect();
    assert_eq!(boxes.len(), 15);
    // Cells are local to the window of their region.
    assert_eq!(boxes[0], (0, 0));
    assert_eq!(boxes[14], (4 * 384 * PX / 5, 2 * 120 * PX));
    assert_eq!(
        draw_grid_region(384 * PX, 360 * PX, &o.state, 'd', 1, 2),
        vec![source(0, 0, 0, 12), Op::Paint]
    );
}

#[test]
fn an_empty_scan_says_so() {
    let o = hints(vec![], vec![]);
    let ops = draw(W, H, &o.state, &measures());
    assert_eq!(
        ops,
        vec![
            Op::Font { bold: true },
            Op::FontSize(15),
            source(5, 5, 5, 90),
            Op::Rectangle { x: 600 * PX, y: 24 * PX, w: 720 * PX, h: 32 * PX },
            Op::Fill,
            source(100, 100, 100, 95),
            Op::Centered { text: Text::NoHints, x: 960 * PX, y: 40 * PX },
        ]
    );
    assert!(Text::NoHints.content().starts_with("omg-keys: no hintable elements found here"));
    let unmeasured = Measures { message: None, keys: vec![] };
    assert_eq!(draw(W, H, &o.state, &unmeasured).len(), 2);
}

#[test]
fn a_target_has_an_outline_an_arrow_and_a_label() {
    let o = hints(vec![button(100, 200)], vec![]);
    let ops = draw(W, H, &o.state, &measures());
    let green = |a: u8| source(20, 90, 30, a);
    let (y, cx) = (164 * PX, 120 * PX);
    let x = cx - 21 * PX / 2;
    assert_eq!(
        ops,
        vec![
            Op::Font { bold: true },
            Op::FontSize(13),
            green(95),
            Op::LineWidth(20),
            Op::Solid,
            Op::Rectangle { x: 100 * PX, y: 200 * PX, w: 40 * PX, h: 20 * PX },
            Op::Stroke,
            Op::Solid,
            green(90),
            Op::LineWidth(15),
            Op::MoveTo { x: cx, y: y + BUBBLE_H },
            Op::LineTo { x: cx, y: 200 * PX },
            Op::Stroke,
            green(90),
            Op::MoveTo { x: cx, y: 200 * PX },
            Op::LineTo { x: cx - 4 * PX, y: 196 * PX },
            Op::LineTo { x: cx + 4 * PX, y: 196 * PX },
            Op::ClosePath,
            Op::Fill,
            Op::RoundedRect { x, y, w: 21 * PX, h: 20 * PX, r: 5 * PX },
            source(5, 5, 5, 92),
            Op::FillPreserve,
            green(90),
            Op::LineWidth(10),
            Op::Stroke,
            source(100, 100, 100, 100),
            Op::MoveTo { x: x + 6 * PX, y: y + 14 * PX },
            Op::Show(Text::Letter('q')),
        ]
    );
}

#[test]
fn targets_that_no_longer_match_are_faint_and_lose_their_label() {
    let elements: Vec<Element> = (0..31).map(|i| button(50 * i, 500)).collect();
    let mut o = hints(elements, vec![]);
    o.handle_key(typed('q'));
    let ops = draw(W, H, &o.state, &measures());
    let bright = ops.iter().filter(|op| **op == source(20, 90, 30, 95)).count();
    let faint = ops.iter().filter(|op| **op == source(20, 90, 30, 15)).count();
    assert_eq!((bright, faint), (30, 1));
    let labels = ops.iter().filter(|op| matches!(op, Op::RoundedRect { .. })).count();
    assert_eq!(labels, 30);
    // What has been typed stands out.
    let typed_letters = ops.iter().filter(|op| **op == source(100, 85, 20, 100)).count();
    assert_eq!(typed_letters, 30);
}

#[test]
fn regions_of_a_screenshot_have_moving_dashes() {
    let region = VisionRegion { x: 10 * PX, y: 500 * PX, w: 90 * PX, h: 90 * PX };
    let mut o = hints(vec![], vec![region]);
    o.tick();
    let ops = draw(W, H, &o.state, &measures());
    assert_eq!(ops[2], source(100, 15, 75, 95));
    assert_eq!(ops[4], Op::Dashes(6));
    assert_eq!(ops[7], Op::Solid);
}

#[test]
fn labels_stay_on_the_screen_beside_tall_targets() {
    let b = place_bubble(2, (0, 24 * PX, 400 * PX, 1056 * PX), W, H);
    assert!(!b.above);
    assert_eq!(b.y, (1080 - 22) * PX);
    assert_eq!((b.arrow_to_x, b.arrow_to_y), (200 * PX, 1080 * PX));
    let b = place_bubble(2, (1910 * PX, 500 * PX, 10 * PX, 10 * PX), W, H);
    assert!(b.above);
    assert_eq!(b.x + b.w, 1918 * PX);
    assert_eq!(b.y, 464 * PX);
    let b = place_bubble(1, (0, 30 * PX, 10 * PX, 10 * PX), W, H);
    assert!(!b.above);
    assert_eq!((b.x, b.y), (2 * PX, 56 * PX));
    // As near as a label comes to the top of the screen.
    assert!(place_bubble(1, (0, 40 * PX, 10 * PX, 10 * PX), W, H).above);
}

#[test]
fn the_menu_lists_the_keys_and_the_setting() {
    let mut o = Overlay::new(Settings { nudge_step: 45 * PX });
    o.menu_opened();
    let ops = draw(W, H, &o.state, &measures());
    assert_eq!(ops[..2], [source(0, 0, 0, 75), Op::Paint]);
    let (x, y) = (650 * PX, 321 * PX);
    assert_eq!(ops[4], Op::RoundedRect { x, y, w: 620 * PX, h: 438 * PX, r: 10 * PX });
    let texts: Vec<String> = ops
        .iter()
        .filter_map(|op| match op {
            Op::Show(t) => Some(t.content()),
            Op::Centered { text, .. } => Some(text.content()),
            _ => None,
        })
        .collect();
    let mut expected = vec!["omg-keys".to_string()];
    for (key, action) in CHEAT_SHEET {
        expected.push(key.to_string());
        expected.push(action.to_string());
    }
    expected.push("+ / -".to_string());
    expected.push("Nudge speed: 45px per press".to_string());
    expected.push("Esc to close".to_string());
    assert_eq!(texts, expected);
    // The second column begins beside the widest key.
    assert!(ops.contains(&Op::MoveTo { x: x + (48 + 150) * PX, y: y + 64 * PX }));
    assert!(ops.contains(&Op::MoveTo { x: x + 24 * PX, y: y + (64 + 26) * PX }));
    assert!(ops.contains(&Op::MoveTo { x: x + 24 * PX, y: y + (64 + 26 * 11 - 8) * PX }));
    assert!(ops.contains(&Op::LineTo { x: x + 596 * PX, y: y + (64 + 26 * 11 - 8) * PX }));
    assert_eq!(
        ops[ops.len() - 1],
        Op::Centered { text: Text::CloseHint, x: 960 * PX, y: y + 423 * PX }
    );
}

#[test]
fn the_menu_shrinks_with_the_screen() {
    let mut o = Overlay::new(Settings::default());
    o.menu_opened();
    let ops = draw(400 * PX, 300 * PX, &o.state, &measures());
    assert_eq!(
        ops[4],
        Op::RoundedRect { x: 40 * PX, y: 20 * PX, w: 320 * PX, h: 438 * PX, r: 10 * PX }
    );
}

#[test]
fn texts_are_centered_by_their_extents() {
    let e = Extents { width: 100, height: 40, x_bearing: 3, y_bearing: -30 };
    assert_eq!(e.centered(1000, 500), (947, 510));
}

#[test]
fn a_rounded_rectangle_has_four_corners() {
    assert_eq!(
        rounded_rect(10, 20, 100, 50, 5),
        vec![
            Corner { x: 105, y: 25, r: 5, from: -1 },
            Corner { x: 105, y: 65, r: 5, from: 0 },
            Corner { x: 15, y: 65, r: 5, from: 1 },
            Corner { x: 15, y: 25, r: 5, from: 2 },
        ]
    );
}

#[test]
fn cells_are_drawn_from_the_corner_of_their_window() {
    let mut o = Overlay::new(Settings::default());
    o.grid_opened(1366, 768, None);
    o.handle_key(typed('d'));
    let ops = draw_grid_region(274 * PX, 256 * PX, &o.state, 'd', 1, 2);
    // Two fifths of 1366 pixels are 546.4, and the window starts at 546.
    assert_eq!(
        ops.iter().find(|op| matches!(op, Op::Rectangle { .. })),
        Some(&Op::Rectangle { x: 180, y: 0, w: 18 * 1366, h: 50 * 768 })
    );
}
