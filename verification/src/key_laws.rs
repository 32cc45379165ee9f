//! What each key does, told by positions and buttons.

use vstd::prelude::*;

use crate::atspi_scan::{Category, Element};
use crate::grid;
use crate::hints::{HintTarget, Source};
use crate::overlay::{
    self, Effect, KeyPress, KeyboardMode, ModeView, PointerOp, StateView, KEY_DOWN, KEY_EQUAL,
    KEY_ESCAPE, KEY_H, KEY_J, KEY_K, KEY_KP_ADD, KEY_KP_SUBTRACT, KEY_L, KEY_LEFT, KEY_MINUS,
    KEY_PLUS, KEY_RIGHT, KEY_SHIFT_L, KEY_SPACE, KEY_UP,
};
use crate::overlay_laws;
use crate::pointer::{BTN_LEFT, BTN_RIGHT};

verus! {

/// Where a key moves a position of a screen by a step: `h` and the left arrow to the left, `l` and the
/// right arrow to the right, `k` and the up arrow up, `j` and the down arrow down. It stops at the
/// edges. No other key moves it.
pub open spec fn moved_by(
    keyval: u32,
    x: int,
    y: int,
    step: int,
    width: int,
    height: int,
) -> Option<(int, int)> {
    if keyval == KEY_H || keyval == KEY_LEFT {
        Some((
            if x < step {
                0
            } else {
                x - step
            },
            y,
        ))
    } else if keyval == KEY_L || keyval == KEY_RIGHT {
        Some((
            if x + step > width {
                width
            } else {
                x + step
            },
            y,
        ))
    } else if keyval == KEY_K || keyval == KEY_UP {
        Some((
            x,
            if y < step {
                0
            } else {
                y - step
            },
        ))
    } else if keyval == KEY_J || keyval == KEY_DOWN {
        Some((
            x,
            if y + step > height {
                height
            } else {
                y + step
            },
        ))
    } else {
        None
    }
}

/// The move of the cursor to a position of a screen of the given size in pixels.
pub open spec fn move_to(s: StateView, x: int, y: int) -> Effect {
    Effect::Pointer(
        PointerOp::MoveTo {
            x: x as i64,
            y: y as i64,
            screen_w: (450 * s.screen_w) as i64,
            screen_h: (450 * s.screen_h) as i64,
        },
    )
}

/// Whether something is done to a button.
pub open spec fn touches_a_button(e: Effect) -> bool {
    e matches Effect::Pointer(op) && !(op is MoveTo)
}

/// Once a position is picked, the keys that nudge move it by the distance of a nudge, up to the edge
/// of the screen, and the cursor with it. No button is touched, and a drag goes on.
pub proof fn nudges_move_the_cursor(s: StateView, x: i64, y: i64, holding: bool, key: KeyPress)
    requires
        s.mode == (ModeView::Selected { x, y, holding }),
        0 <= s.screen_w,
        0 <= s.screen_h,
        0 <= x <= 450 * s.screen_w,
        0 <= y <= 450 * s.screen_h,
        0 <= s.settings.nudge_step,
        moved_by(
            key.keyval,
            x as int,
            y as int,
            s.settings.nudge_step as int,
            450 * s.screen_w,
            450 * s.screen_h,
        ) is Some,
    ensures
        ({
            let (nx, ny) = moved_by(
                key.keyval,
                x as int,
                y as int,
                s.settings.nudge_step as int,
                450 * s.screen_w,
                450 * s.screen_h,
            )->0;
            let (end, effects) = s.after_key(key);
            &&& end.mode == (ModeView::Selected { x: nx as i64, y: ny as i64, holding })
            &&& s.pointer is Some && (nx, ny) != (x as int, y as int) ==> effects.contains(
                move_to(s, nx, ny),
            )
            &&& forall|i: int|
                0 <= i < effects.len() ==> !touches_a_button(#[trigger] effects[i])
        }),
{
    let (nx, ny) = moved_by(
        key.keyval,
        x as int,
        y as int,
        s.settings.nudge_step as int,
        450 * s.screen_w,
        450 * s.screen_h,
    )->0;
    let effects = s.after_key(key).1;
    if s.pointer is Some && (nx, ny) != (x as int, y as int) {
        assert(effects[0] == move_to(s, nx, ny));
    }
}

/// Away from the edges, `k` and the up arrow take the cursor up by the distance of a nudge, `j` and
/// the down arrow down, `h` and the left arrow to the left, and `l` and the right arrow to the right.
pub proof fn each_nudge_key_has_its_direction(s: StateView, x: i64, y: i64, holding: bool, key: KeyPress)
    requires
        s.mode == (ModeView::Selected { x, y, holding }),
        0 <= s.screen_w,
        0 <= s.screen_h,
        0 <= s.settings.nudge_step,
        s.settings.nudge_step <= x <= 450 * s.screen_w - s.settings.nudge_step,
        s.settings.nudge_step <= y <= 450 * s.screen_h - s.settings.nudge_step,
    ensures
        ({
            let step = s.settings.nudge_step;
            let mode = s.after_key(key).0.mode;
            &&& key.keyval == KEY_K || key.keyval == KEY_UP ==> mode == (ModeView::Selected {
                x,
                y: (y - step) as i64,
                holding,
            })
            &&& key.keyval == KEY_J || key.keyval == KEY_DOWN ==> mode == (ModeView::Selected {
                x,
                y: (y + step) as i64,
                holding,
            })
            &&& key.keyval == KEY_H || key.keyval == KEY_LEFT ==> mode == (ModeView::Selected {
                x: (x - step) as i64,
                y,
                holding,
            })
            &&& key.keyval == KEY_L || key.keyval == KEY_RIGHT ==> mode == (ModeView::Selected {
                x: (x + step) as i64,
                y,
                holding,
            })
        }),
{
    if moved_by(
        key.keyval,
        x as int,
        y as int,
        s.settings.nudge_step as int,
        450 * s.screen_w,
        450 * s.screen_h,
    ) is Some {
        nudges_move_the_cursor(s, x, y, holding, key);
    }
}

/// Right after a coarse key, the keys that nudge move the cursor from the middle of its region: to the
/// middle of a fifth of the screen's width and a third of its height, and from there by a step.
pub proof fn nudges_start_in_the_middle_of_a_region(
    s: StateView,
    row: int,
    col: int,
    key: KeyPress,
)
    requires
        s.mode == ModeView::TypingFine(grid::key_at(grid::COARSE_KEYS, row, col)),
        0 <= row < 3,
        0 <= col < 5,
        0 < s.screen_w,
        0 < s.screen_h,
        s.cells == grid::grid_cells(s.screen_w, s.screen_h),
        0 <= s.settings.nudge_step,
        moved_by(
            key.keyval,
            (2 * col + 1) * (45 * s.screen_w),
            (2 * row + 1) * (75 * s.screen_h),
            s.settings.nudge_step as int,
            450 * s.screen_w,
            450 * s.screen_h,
        ) is Some,
    ensures
        ({
            let (nx, ny) = moved_by(
                key.keyval,
                (2 * col + 1) * (45 * s.screen_w),
                (2 * row + 1) * (75 * s.screen_h),
                s.settings.nudge_step as int,
                450 * s.screen_w,
                450 * s.screen_h,
            )->0;
            let (end, effects) = s.after_key(key);
            &&& end.mode == (ModeView::Selected { x: nx as i64, y: ny as i64, holding: false })
            &&& s.pointer is Some ==> effects.contains(move_to(s, nx, ny))
            &&& effects.contains(Effect::HideGridWindows)
            &&& forall|i: int|
                0 <= i < effects.len() ==> !touches_a_button(#[trigger] effects[i])
        }),
{
    grid::region_centers_are_in_the_middle(s.screen_w, s.screen_h, row, col);
    let (cx, cy) = ((2 * col + 1) * (45 * s.screen_w), (2 * row + 1) * (75 * s.screen_h));
    assert(0 <= cx <= 450 * s.screen_w) by (nonlinear_arith)
        requires
            0 <= col < 5,
            0 < s.screen_w,
            cx == (2 * col + 1) * (45 * s.screen_w),
    ;
    assert(0 <= cy <= 450 * s.screen_h) by (nonlinear_arith)
        requires
            0 <= row < 3,
            0 < s.screen_h,
            cy == (2 * row + 1) * (75 * s.screen_h),
    ;
    let (nx, ny) = moved_by(
        key.keyval,
        cx,
        cy,
        s.settings.nudge_step as int,
        450 * s.screen_w,
        450 * s.screen_h,
    )->0;
    let effects = s.after_key(key).1;
    if s.pointer is Some {
        assert(effects[0] == move_to(s, nx, ny));
        assert(effects[1] == Effect::HideGridWindows);
    } else {
        assert(effects[0] == Effect::HideGridWindows);
    }
}

/// Whether `op` is the only thing that is done to a button, and the overlay is out of the way then.
pub open spec fn only_touch(effects: Seq<Effect>, op: PointerOp) -> bool {
    &&& overlay_laws::happens_before(effects, Effect::SetVisible(false), Effect::Pointer(op))
    &&& forall|i: int|
        0 <= i < effects.len() && touches_a_button(#[trigger] effects[i]) ==> effects[i]
            == Effect::Pointer(op)
    &&& forall|i: int, j: int|
        0 <= i < j < effects.len() && touches_a_button(#[trigger] effects[i]) ==> (
        #[trigger] effects[j]) != effects[i]
}

/// Once a position is picked, the space key clicks there, with the left button or, with shift, with
/// the right one, and the position stays picked. The overlay is there again afterwards.
pub proof fn space_clicks_in_place(s: StateView, x: i64, y: i64, holding: bool, key: KeyPress)
    requires
        s.mode == (ModeView::Selected { x, y, holding }),
        s.pointer is Some,
        key.keyval == KEY_SPACE,
    ensures
        ({
            let (end, effects) = s.after_key(key);
            let click = PointerOp::Click(
                if key.shift {
                    0x111
                } else {
                    0x110
                },
            );
            &&& end.mode == s.mode
            &&& end.pointer == s.pointer
            &&& only_touch(effects, click)
            &&& overlay_laws::happens_before(
                effects,
                Effect::Pointer(click),
                Effect::SetVisible(true),
            )
            &&& overlay_laws::happens_before(
                effects,
                Effect::Pointer(click),
                Effect::SetKeyboard(KeyboardMode::OnDemand),
            )
        }),
{
    let effects = s.after_key(key).1;
    let click = PointerOp::Click(
        if key.shift {
            0x111
        } else {
            0x110
        },
    );
    assert(effects[1] == Effect::SetVisible(false));
    assert(effects[3] == Effect::Pointer(click));
    assert(effects[4] == Effect::SetVisible(true));
    assert(effects[5] == Effect::SetKeyboard(KeyboardMode::OnDemand));
    assert(effects.len() == 8);
}

/// Once a position is picked, any other printable character clicks there with the left button, closes
/// the overlay, and is then typed into what has been clicked. During a drag it does nothing.
pub proof fn typing_commits(s: StateView, x: i64, y: i64, holding: bool, key: KeyPress, c: char)
    requires
        s.mode == (ModeView::Selected { x, y, holding }),
        s.pointer is Some,
        key.ch == Some(c),
        0x20 <= (c as u32) <= 0x7e || 0xa0 <= (c as u32),
        key.keyval != KEY_ESCAPE,
        key.keyval != KEY_SPACE,
        key.keyval != KEY_SHIFT_L,
        moved_by(key.keyval, 0, 0, 0, 0, 0) is None,
    ensures
        ({
            let (end, effects) = s.after_key(key);
            if holding {
                &&& end.mode == s.mode
                &&& forall|i: int|
                    0 <= i < effects.len() ==> !touches_a_button(#[trigger] effects[i])
                        && !(effects[i] is ForwardChar)
            } else {
                &&& end.mode is Hidden
                &&& end.pointer is None
                &&& only_touch(effects, PointerOp::Click(0x110))
                &&& overlay_laws::happens_before(
                    effects,
                    Effect::Pointer(PointerOp::Click(0x110)),
                    Effect::ForwardChar(c),
                )
            }
        }),
{
    let effects = s.after_key(key).1;
    if !holding {
        assert(effects[1] == Effect::SetVisible(false));
        assert(effects[3] == Effect::Pointer(PointerOp::Click(0x110)));
        assert(effects[5] == Effect::ForwardChar(c));
        assert(effects.len() == 7);
    }
}

/// A control character, or a key that types nothing and is none of the others, does nothing once a
/// position is picked.
pub proof fn other_keys_do_nothing(s: StateView, x: i64, y: i64, holding: bool, key: KeyPress)
    requires
        s.mode == (ModeView::Selected { x, y, holding }),
        key.ch matches Some(c) ==> (c as u32) < 0x20 || 0x7f <= (c as u32) <= 0x9f,
        key.keyval != KEY_ESCAPE,
        key.keyval != KEY_SPACE,
        key.keyval != KEY_SHIFT_L,
        moved_by(key.keyval, 0, 0, 0, 0, 0) is None,
    ensures
        s.after_key(key).0.mode == s.mode,
        s.after_key(key).1 == seq![Effect::Redraw, Effect::RedrawGrid],
{
}

/// In the grid, a key of the left hand picks its region, which is searched for elements, and any other
/// key does nothing.
pub proof fn coarse_keys_pick_regions(s: StateView, key: KeyPress)
    requires
        s.mode is TypingCoarse,
        key.keyval != KEY_ESCAPE,
    ensures
        ({
            let (end, effects) = s.after_key(key);
            &&& forall|row: int, col: int|
                0 <= row < 3 && 0 <= col < 5 && key.ch == Some(
                    #[trigger] grid::key_at(grid::COARSE_KEYS, row, col),
                ) ==> end.mode == ModeView::TypingFine(key.ch->0) && effects.contains(
                    Effect::ScanRegion { coarse: key.ch->0, ticket: end.ticket },
                )
            &&& (key.ch is None || forall|row: int, col: int|
                0 <= row < 3 && 0 <= col < 5 ==> key.ch->0 != #[trigger] grid::key_at(
                    grid::COARSE_KEYS,
                    row,
                    col,
                )) ==> end.mode is TypingCoarse && effects == seq![
                Effect::Redraw,
                Effect::RedrawGrid,
            ]
            &&& end.settings == s.settings
            &&& end.pointer == s.pointer
        }),
{
    let (end, effects) = s.after_key(key);
    assert forall|row: int, col: int|
        0 <= row < 3 && 0 <= col < 5 && key.ch == Some(
            #[trigger] grid::key_at(grid::COARSE_KEYS, row, col),
        ) implies end.mode == ModeView::TypingFine(key.ch->0) && effects.contains(
        Effect::ScanRegion { coarse: key.ch->0, ticket: end.ticket },
    ) by {
        assert(grid::lies_at(grid::COARSE_KEYS, key.ch->0, row, col));
        assert(effects[0] == Effect::ScanRegion { coarse: key.ch->0, ticket: end.ticket });
    }
    if key.ch is None || forall|row: int, col: int|
        0 <= row < 3 && 0 <= col < 5 ==> key.ch->0 != #[trigger] grid::key_at(
            grid::COARSE_KEYS,
            row,
            col,
        ) {
        assert(effects =~= seq![Effect::Redraw, Effect::RedrawGrid]);
    }
}

/// In the grid, after the key of the left hand in one row and column and the key of the right hand in
/// another, the cursor is in the middle of the cell that lies there: the screen is 25 cells wide and
/// nine cells high.
pub proof fn two_keys_point_into_their_cell(
    s: StateView,
    first: KeyPress,
    second: KeyPress,
    cr: int,
    cc: int,
    fr: int,
    fc: int,
)
    requires
        overlay_laws::settled(s),
        s.mode is TypingCoarse,
        s.pointer is Some,
        0 <= cr < 3,
        0 <= cc < 5,
        0 <= fr < 3,
        0 <= fc < 5,
        first.keyval != KEY_ESCAPE,
        second.keyval != KEY_ESCAPE,
        first.ch == Some(grid::key_at(grid::COARSE_KEYS, cr, cc)),
        second.ch == Some(grid::key_at(grid::FINE_KEYS, fr, fc)),
        moved_by(second.keyval, 0, 0, 0, 0, 0) is None,
    ensures
        ({
            let x = (2 * (5 * cc + fc) + 1) * (9 * s.screen_w);
            let y = (2 * (3 * cr + fr) + 1) * (25 * s.screen_h);
            let (end, effects) = s.after_key(first).0.after_key(second);
            &&& end.mode == (ModeView::Selected { x: x as i64, y: y as i64, holding: false })
            &&& effects.contains(move_to(s, x, y))
            &&& effects.contains(Effect::HideGridWindows)
        }),
{
    overlay_laws::two_keys_pick_a_cell(s, first, second, cr, cc, fr, fc);
    let cell = grid::cell_at(s.screen_w, s.screen_h, cr, cc, fr, fc);
    let (w, h) = (s.screen_w as int, s.screen_h as int);
    let (x, y) = ((2 * (5 * cc + fc) + 1) * (9 * w), (2 * (3 * cr + fr) + 1) * (25 * h));
    grid::every_code_has_its_cell(s.screen_w, s.screen_h, cr, cc, fr, fc);
    grid::centers_lie_in_their_cells(s.screen_w, s.screen_h, grid::code_index(cr, cc, fr, fc));
    assert((5 * cc + fc) * (18 * w) + 9 * w == x) by (nonlinear_arith)
        requires
            x == (2 * (5 * cc + fc) + 1) * (9 * w),
    ;
    assert((3 * cr + fr) * (50 * h) + 25 * h == y) by (nonlinear_arith)
        requires
            y == (2 * (3 * cr + fr) + 1) * (25 * h),
    ;
    assert(0 <= (5 * cc + fc) * (18 * w) <= 24 * (18 * w)) by (nonlinear_arith)
        requires
            0 <= 5 * cc + fc <= 24,
            0 < w,
    ;
    assert(0 <= (3 * cr + fr) * (50 * h) <= 8 * (50 * h)) by (nonlinear_arith)
        requires
            0 <= 3 * cr + fr <= 8,
            0 < h,
    ;
    let mid = s.after_key(first).0;
    let effects = mid.after_key(second).1;
    assert(grid::lies_at(grid::COARSE_KEYS, first.ch->0, cr, cc));
    assert(grid::lies_at(grid::FINE_KEYS, second.ch->0, fr, fc));
    assert(mid.mode == ModeView::TypingFine(first.ch->0));
    assert(grid::first_labeled(
        mid.cells,
        first.ch->0,
        second.ch->0,
        grid::code_index(cr, cc, fr, fc),
    ));
    assert(effects[1] == Effect::HideGridWindows);
}

/// After a coarse key, a key that neither nudges nor is one of the right hand does nothing.
pub proof fn keys_without_a_cell_do_nothing(s: StateView, coarse: char, key: KeyPress)
    requires
        s.mode == ModeView::TypingFine(coarse),
        key.keyval != KEY_ESCAPE,
        moved_by(key.keyval, 0, 0, 0, 0, 0) is None,
        key.ch is None || forall|row: int, col: int|
            0 <= row < 3 && 0 <= col < 5 ==> key.ch->0 != #[trigger] grid::key_at(
                grid::FINE_KEYS,
                row,
                col,
            ),
    ensures
        s.after_key(key).0.mode == s.mode,
        s.after_key(key).1 == seq![Effect::Redraw, Effect::RedrawGrid],
{
    assert(s.after_key(key).1 =~= seq![Effect::Redraw, Effect::RedrawGrid]);
}

/// In the menu, plus takes the distance of a nudge up by five pixels and minus down by five, from five
/// to two hundred pixels, and the new distance is stored. Other keys change nothing.
pub proof fn menu_keys_change_the_nudge(s: StateView, key: KeyPress)
    requires
        s.mode is Menu,
        key.keyval != KEY_ESCAPE,
        5 * 450 <= s.settings.nudge_step <= 200 * 450,
    ensures
        ({
            let (end, effects) = s.after_key(key);
            let step = s.settings.nudge_step;
            let next = if key.keyval == KEY_PLUS || key.keyval == KEY_EQUAL || key.keyval
                == KEY_KP_ADD {
                if step + 5 * 450 > 200 * 450 {
                    200int * 450
                } else {
                    step + 5 * 450
                }
            } else if key.keyval == KEY_MINUS || key.keyval == KEY_KP_SUBTRACT {
                if step - 5 * 450 < 5 * 450 {
                    5int * 450
                } else {
                    step - 5 * 450
                }
            } else {
                step as int
            };
            &&& end.mode is Menu
            &&& end.settings.nudge_step == next
            &&& next != step ==> effects.contains(Effect::SaveSettings(end.settings))
        }),
{
    let (end, effects) = s.after_key(key);
    if end.settings.nudge_step != s.settings.nudge_step {
        assert(effects[0] == Effect::SaveSettings(end.settings));
    }
}

/// With targets on the screen, the key that completes a label takes the cursor to the middle of the
/// first target with it, hides the overlay, and then clicks there with the left button.
pub proof fn completing_a_label_clicks_its_target(
    s: StateView,
    targets: Seq<HintTarget>,
    typed: Seq<char>,
    key: KeyPress,
    i: int,
)
    requires
        s.mode == (ModeView::Hints { targets, typed }),
        s.pointer is Some,
        key.keyval != KEY_ESCAPE,
        key.keyval != overlay::KEY_BACKSPACE,
        key.ch matches Some(c) && grid::alphabet().contains(c) && 0 <= i < targets.len()
            && targets[i].label@ == typed.push(c) && forall|j: int|
            0 <= j < i ==> (#[trigger] targets[j]).label@ != typed.push(c),
        ({
            let (x, y, w, h) = match targets[i].source {
                Source::Atspi(e) => (e.x, e.y, e.w, e.h),
                Source::Vision(v) => (v.x, v.y, v.w, v.h),
            };
            0 <= w && 0 <= h && x + w <= i64::MAX && y + h <= i64::MAX
        }),
    ensures
        ({
            let (x, y, w, h) = match targets[i].source {
                Source::Atspi(e) => (e.x, e.y, e.w, e.h),
                Source::Vision(v) => (v.x, v.y, v.w, v.h),
            };
            let (end, effects) = s.after_key(key);
            &&& end.mode is Hidden
            &&& end.pointer is None
            &&& only_touch(effects, PointerOp::Click(0x110))
            &&& overlay_laws::happens_before(
                effects,
                move_to(s, x + w as int / 2, y + h as int / 2),
                Effect::Pointer(PointerOp::Click(0x110)),
            )
        }),
{
    let label = typed.push(key.ch->0);
    assert(overlay::first_with_label(targets, label, i));
    assert(label.take(label.len() as int) =~= label);
    assert(crate::hints::begins(label, targets[i].label@));
    let j = choose|j: int| overlay::first_with_label(targets, label, j);
    assert(overlay::first_with_label(targets, label, j));
    assert(j == i);
    let (x, y, w, h) = match targets[i].source {
        Source::Atspi(e) => (e.x, e.y, e.w, e.h),
        Source::Vision(v) => (v.x, v.y, v.w, v.h),
    };
    let effects = s.after_key(key).1;
    assert(effects[0] == move_to(s, x + w as int / 2, y + h as int / 2));
    assert(effects[2] == Effect::SetVisible(false));
    assert(effects[4] == Effect::Pointer(PointerOp::Click(0x110)));
    assert(effects.len() == 7);
}

/// After a coarse key, the buttons that matter are those of the found elements whose middle lies in the
/// fifth of the screen's width and the third of its height that the key stands for, in the order in
/// which they were found; none, if another key has come in since.
pub proof fn the_buttons_of_a_region_matter(
    s: StateView,
    row: int,
    col: int,
    ticket: u64,
    elements: Seq<Element>,
)
    requires
        s.mode == ModeView::TypingFine(grid::key_at(grid::COARSE_KEYS, row, col)),
        0 <= row < 3,
        0 <= col < 5,
        0 < s.screen_w,
        0 < s.screen_h,
        s.cells == grid::grid_cells(s.screen_w, s.screen_h),
        forall|i: int|
            0 <= i < elements.len() ==> {
                let e = #[trigger] elements[i];
                &&& 0 <= e.w
                &&& 0 <= e.h
                &&& e.x + e.w <= i64::MAX
                &&& e.y + e.h <= i64::MAX
            },
    ensures
        ticket != s.ticket ==> s.awaited_buttons(ticket, elements).len() == 0,
        ticket == s.ticket ==> s.awaited_buttons(ticket, elements) == elements.filter(
            |e: Element|
                {
                    let (cx, cy) = (e.x + e.w as int / 2, e.y + e.h as int / 2);
                    &&& e.category == Category::Button
                    &&& col * (90 * s.screen_w) <= cx < (col + 1) * (90 * s.screen_w)
                    &&& row * (150 * s.screen_h) <= cy < (row + 1) * (150 * s.screen_h)
                },
        ),
{
    let coarse = grid::key_at(grid::COARSE_KEYS, row, col);
    let keep = |e: Element|
        {
            let (cx, cy) = (e.x + e.w as int / 2, e.y + e.h as int / 2);
            &&& e.category == Category::Button
            &&& col * (90 * s.screen_w) <= cx < (col + 1) * (90 * s.screen_w)
            &&& row * (150 * s.screen_h) <= cy < (row + 1) * (150 * s.screen_h)
        };
    grid::regions_are_a_fifth_by_a_third(s.screen_w, s.screen_h, row, col);
    let extent = grid::extent(grid::region_cells(s.cells, coarse));
    assert forall|i: int| 0 <= i < elements.len() implies keep(#[trigger] elements[i]) == (
    elements[i].category == Category::Button && overlay::centered_within(
        elements[i],
        extent,
    )) by {}
    lemma_buttons(elements, s.cells, coarse, keep);
}

proof fn lemma_buttons(
    elements: Seq<Element>,
    cells: Seq<grid::Cell>,
    coarse: char,
    keep: spec_fn(Element) -> bool,
)
    requires
        grid::region_cells(cells, coarse).len() > 0,
        forall|i: int|
            0 <= i < elements.len() ==> keep(#[trigger] elements[i]) == (elements[i].category
                == Category::Button && overlay::centered_within(
                elements[i],
                grid::extent(grid::region_cells(cells, coarse)),
            )),
    ensures
        overlay::buttons_in(elements, cells, coarse) == elements.filter(keep),
    decreases elements.len(),
{
    reveal(Seq::filter);
    if elements.len() > 0 {
        let rest = elements.drop_first();
        assert forall|i: int| 0 <= i < rest.len() implies keep(#[trigger] rest[i]) == (
        rest[i].category == Category::Button && overlay::centered_within(
            rest[i],
            grid::extent(grid::region_cells(cells, coarse)),
        )) by {
            assert(rest[i] == elements[i + 1]);
        }
        lemma_buttons(rest, cells, coarse, keep);
        let first = seq![elements[0]];
        assert(elements =~= first + rest);
        Seq::filter_distributes_over_add(first, rest, keep);
        assert(keep(elements[0]) == (elements[0].category == Category::Button
            && overlay::centered_within(
            elements[0],
            grid::extent(grid::region_cells(cells, coarse)),
        )));
        assert(first.drop_last() =~= Seq::empty());
        assert(first.drop_last().filter(keep) =~= Seq::empty());
        if keep(elements[0]) {
            assert(first.filter(keep) =~= first);
        } else {
            assert(first.filter(keep) =~= Seq::empty());
            assert(Seq::<Element>::empty() + rest.filter(keep) =~= rest.filter(keep));
        }
    } else {
        assert(overlay::buttons_in(elements, cells, coarse) =~= elements.filter(keep));
    }
}

/// The dashes of the overlay move on by six tenths of a pixel with every tick and come back after
/// seven pixels, while anything is shown.
pub proof fn dashes_move_on(s: StateView)
    requires
        s.dash_phase < 70,
    ensures
        s.mode is Hidden ==> s.after_tick() == (s, Seq::<Effect>::empty()),
        !(s.mode is Hidden) ==> s.after_tick().0 == (StateView {
            dash_phase: if s.dash_phase < 64 {
                (s.dash_phase + 6) as u32
            } else {
                (s.dash_phase - 64) as u32
            },
            ..s
        }) && s.after_tick().1 == seq![Effect::Redraw, Effect::RedrawGrid],
{
}

/// A key that some label goes on with is added to what has been typed, as long as no label is complete
/// with it. A key that no label goes on with is ignored, and so is one that no label is made of.
pub proof fn labels_are_typed_key_by_key(
    s: StateView,
    targets: Seq<HintTarget>,
    typed: Seq<char>,
    key: KeyPress,
    c: char,
)
    requires
        s.mode == (ModeView::Hints { targets, typed }),
        key.keyval != KEY_ESCAPE,
        key.keyval != overlay::KEY_BACKSPACE,
        key.ch == Some(c),
        forall|i: int| 0 <= i < targets.len() ==> (#[trigger] targets[i]).label@ != typed.push(c),
    ensures
        ({
            let goes_on = exists|i: int|
                0 <= i < targets.len() && (#[trigger] targets[i]).label@.len() > typed.len()
                    && targets[i].label@.take((typed.len() + 1) as int) == typed.push(c);
            let (end, effects) = s.after_key(key);
            &&& goes_on && grid::alphabet().contains(c) ==> end.mode == (ModeView::Hints {
                targets,
                typed: typed.push(c),
            })
            &&& !goes_on || !grid::alphabet().contains(c) ==> end.mode == s.mode
            &&& forall|i: int|
                0 <= i < effects.len() ==> !((#[trigger] effects[i]) is Pointer)
            &&& end.pointer == s.pointer
        }),
{
    let goes_on = exists|i: int|
        0 <= i < targets.len() && (#[trigger] targets[i]).label@.len() > typed.len()
            && targets[i].label@.take((typed.len() + 1) as int) == typed.push(c);
    let label = typed.push(c);
    assert(!overlay::is_label(targets, label));
    if goes_on {
        let i = choose|i: int|
            0 <= i < targets.len() && (#[trigger] targets[i]).label@.len() > typed.len()
                && targets[i].label@.take((typed.len() + 1) as int) == typed.push(c);
        assert(crate::hints::begins(label, targets[i].label@));
    } else if overlay::leads_on(targets, label) {
        let i = choose|i: int|
            0 <= i < targets.len() && crate::hints::begins(label, (#[trigger] targets[i]).label@);
        assert(targets[i].label@.len() > typed.len());
    }
}

/// Backspace takes the last character back, if there is one, and does nothing else.
pub proof fn backspace_takes_the_last_back(
    s: StateView,
    targets: Seq<HintTarget>,
    typed: Seq<char>,
    key: KeyPress,
)
    requires
        s.mode == (ModeView::Hints { targets, typed }),
        key.keyval == overlay::KEY_BACKSPACE,
    ensures
        s.after_key(key).0.mode == (ModeView::Hints {
            targets,
            typed: if typed.len() == 0 {
                typed
            } else {
                typed.take(typed.len() - 1)
            },
        }),
        s.after_key(key).1 == seq![Effect::Redraw],
{
    assert(s.after_key(key).1 =~= seq![Effect::Redraw]);
    if typed.len() > 0 {
        assert(typed.drop_last() =~= typed.take(typed.len() - 1));
    }
}

/// The windows of the grid come row by row, each with the key of its place.
pub proof fn grid_windows_have_the_key_of_their_place(row: int, col: int)
    requires
        0 <= row < 3,
        0 <= col < 5,
    ensures
        overlay::grid_window(5 * row + col).coarse == grid::key_at(grid::COARSE_KEYS, row, col),
        overlay::grid_window(5 * row + col).row == row,
        overlay::grid_window(5 * row + col).col == col,
{
}

/// Hints that are opened are asked for with a new ticket, which is awaited, and the overlay takes the
/// keyboard. The command to quit stops the program and changes nothing.
pub proof fn hints_are_asked_for(
    s: StateView,
    screen_w: i32,
    screen_h: i32,
    pointer: Option<crate::pointer::VirtualPointer>,
)
    ensures
        ({
            let (end, effects) = s.after_hints_opened(screen_w, screen_h, pointer);
            &&& end.ticket != s.ticket
            &&& end.awaited == Some(end.ticket)
            &&& end.mode == s.mode
            &&& end.screen_w == screen_w
            &&& end.screen_h == screen_h
            &&& end.pointer == pointer
            &&& effects.contains(Effect::ScanHints { ticket: end.ticket })
            &&& effects.contains(Effect::SetKeyboard(KeyboardMode::OnDemand))
        }),
        s.after_command(crate::ipc::Command::Quit) == (s, seq![Effect::Quit]),
{
    let (end, effects) = s.after_hints_opened(screen_w, screen_h, pointer);
    assert(effects[0] == Effect::SetKeyboard(KeyboardMode::OnDemand));
    assert(effects[1] == Effect::ScanHints { ticket: end.ticket });
}

/// The left shift key presses the left button where the cursor is, with the overlay out of the way, and
/// its release releases it; the position stays picked. During a drag, or without one, it does nothing.
pub proof fn shift_holds_the_button(s: StateView, x: i64, y: i64, key: KeyPress)
    requires
        s.mode == (ModeView::Selected { x, y, holding: false }),
        s.pointer is Some,
        key.keyval == KEY_SHIFT_L,
    ensures
        ({
            let (down, pressed) = s.after_key(key);
            let (up, released) = down.after_release(KEY_SHIFT_L);
            &&& down.mode == (ModeView::Selected { x, y, holding: true })
            &&& only_touch(pressed, PointerOp::Press(0x110))
            &&& up.mode == s.mode
            &&& only_touch(released, PointerOp::Release(0x110))
            &&& s.after_release(KEY_SHIFT_L) == (s, Seq::<Effect>::empty())
            &&& down.after_key(key).0.mode == down.mode || key.ch is Some
        }),
{
    let (down, pressed) = s.after_key(key);
    let (up, released) = down.after_release(KEY_SHIFT_L);
    assert(pressed[1] == Effect::SetVisible(false));
    assert(pressed[3] == Effect::Pointer(PointerOp::Press(0x110)));
    assert(pressed.len() == 8);
    assert(released[1] == Effect::SetVisible(false));
    assert(released[3] == Effect::Pointer(PointerOp::Release(0x110)));
    assert(released.len() == 7);
}

/// Every key but Escape has the window drawn again, and the windows of the grid with it, unless there
/// are hints or the key was typed on a place and closed everything.
pub proof fn every_key_redraws(s: StateView, key: KeyPress)
    requires
        key.keyval != 0xff1b,
    ensures
        ({
            let (t, effects) = s.after_key(key);
            let n = effects.len() as int;
            if s.mode is Hints || s.mode is Selected && t.mode is Hidden {
                n >= 1 && effects[n - 1] == Effect::Redraw
            } else {
                n >= 2 && effects[n - 2] == Effect::Redraw && effects[n - 1] == Effect::RedrawGrid
            }
        }),
{
    let u = StateView { ticket: overlay::next_ticket(s.ticket), ..s };
    let redraws = seq![Effect::Redraw, Effect::RedrawGrid];
    match s.mode {
        ModeView::Hidden => lemma_ends_with(Seq::empty(), redraws),
        ModeView::TypingCoarse => lemma_ends_with(u.coarse_key(key).1, redraws),
        ModeView::TypingFine(coarse) => lemma_ends_with(u.fine_key(coarse, key).1, redraws),
        ModeView::Selected { x, y, holding } => {
            let (nx, ny) = u.nudged(x, y, overlay::direction_of(key.keyval)->0);
            lemma_ends_with(u.pointed(u.warp(nx, ny)), redraws);
            lemma_ends_with(Seq::empty(), redraws);
            lemma_ends_with(u.click_through(PointerOp::Click(BTN_LEFT)), redraws);
            lemma_ends_with(u.click_through(PointerOp::Click(BTN_RIGHT)), redraws);
            lemma_ends_with(u.click_through(PointerOp::Press(BTN_LEFT)), redraws);
            if let Some(c) = key.ch {
                lemma_typed_through(u.click_and_close(), c);
            }
        },
        ModeView::Hints { targets, typed } => lemma_closes_with(
            u.hint_key(targets, typed, key).1,
            Effect::Redraw,
        ),
        ModeView::Menu => lemma_ends_with(u.menu_key(key).1, redraws),
    }
}

proof fn lemma_typed_through(before: Seq<Effect>, c: char)
    ensures
        ({
            let all = before + seq![Effect::ForwardChar(c), Effect::Redraw];
            all.len() == before.len() + 2 && all[before.len() + 1int] == Effect::Redraw
        }),
{
}

proof fn lemma_closes_with(before: Seq<Effect>, last: Effect)
    ensures
        (before + seq![last]).len() == before.len() + 1,
        (before + seq![last])[before.len() as int] == last,
{
}

proof fn lemma_ends_with(before: Seq<Effect>, behind: Seq<Effect>)
    requires
        behind.len() == 2,
    ensures
        (before + behind).len() == before.len() + 2,
        (before + behind)[before.len() as int] == behind[0],
        (before + behind)[before.len() + 1int] == behind[1],
{
}

/// Letting a key go changes nothing unless it is the left Shift key, which lets the button go that it
/// holds.
pub proof fn other_releases_do_nothing(s: StateView, keyval: u32)
    ensures
        keyval != 0xffe1 || !s.holding() ==> s.after_release(keyval) == (s, Seq::<Effect>::empty()),
        s.mode !is Selected ==> s.after_release(keyval) == (s, Seq::<Effect>::empty()),
{
}

/// A key nudges by what is printed on it: the letters h, j, k and l, as the editor vi has them, and the
/// four arrows, by their numbers on the keyboard.
pub proof fn nudge_keys_are_letters_and_arrows(keyval: u32)
    ensures
        overlay::direction_of(keyval) == Some(overlay::Direction::Left) <==> keyval == 'h' as u32
            || keyval == 0xff51,
        overlay::direction_of(keyval) == Some(overlay::Direction::Down) <==> keyval == 'j' as u32
            || keyval == 0xff54,
        overlay::direction_of(keyval) == Some(overlay::Direction::Up) <==> keyval == 'k' as u32
            || keyval == 0xff52,
        overlay::direction_of(keyval) == Some(overlay::Direction::Right) <==> keyval == 'l' as u32
            || keyval == 0xff53,
{
}

/// In the menu the keys with a plus or an equals sign and the one with a minus sign change the
/// settings, on the number pad as well. No other key does, and none does elsewhere.
pub proof fn only_signs_change_the_settings(s: StateView, key: KeyPress)
    requires
        4500 <= s.settings.nudge_step <= 87750,
    ensures
        ({
            let more = key.keyval == '+' as u32 || key.keyval == '=' as u32 || key.keyval == 0xffab;
            let less = key.keyval == '-' as u32 || key.keyval == 0xffad;
            let t = s.after_key(key).0;
            t.settings.nudge_step - s.settings.nudge_step == if s.mode is Menu && more {
                2250int
            } else if s.mode is Menu && less {
                -2250int
            } else {
                0int
            }
        }),
{
    let u = StateView { ticket: overlay::next_ticket(s.ticket), ..s };
    if key.keyval != KEY_ESCAPE {
        match s.mode {
            ModeView::TypingCoarse => {
                assert(u.coarse_key(key).0.settings == s.settings);
            },
            ModeView::TypingFine(coarse) => {
                assert(u.fine_key(coarse, key).0.settings == s.settings);
            },
            ModeView::Selected { x, y, holding } => {
                assert(u.selected_key(x, y, holding, key).0.settings == s.settings);
            },
            ModeView::Hints { targets, typed } => {
                assert(u.hint_key(targets, typed, key).0.settings == s.settings);
            },
            _ => {},
        }
    }
}

/// The backspace key takes a letter back, and leaves the targets as they are.
pub proof fn backspace_has_its_number(s: StateView, targets: Seq<HintTarget>, typed: Seq<char>, key: KeyPress)
    requires
        s.mode == (ModeView::Hints { targets, typed }),
        typed.len() > 0,
        key.keyval == 0xff08,
    ensures
        s.after_key(key).0.mode == (ModeView::Hints { targets, typed: typed.drop_last() }),
{
}

/// A click waits twenty milliseconds after the window is hidden, so that it reaches what lies below.
pub proof fn clicks_wait_until_the_window_is_gone(s: StateView, op: PointerOp)
    requires
        s.pointer is Some,
    ensures
        s.click_through(op) == seq![
            Effect::SetKeyboard(KeyboardMode::Off),
            Effect::SetVisible(false),
            Effect::Pause(20),
            Effect::Pointer(op),
            Effect::SetVisible(true),
            Effect::SetKeyboard(KeyboardMode::OnDemand),
        ],
        s.click_and_close() == seq![
            Effect::SetKeyboard(KeyboardMode::Off),
            Effect::SetVisible(false),
            Effect::Pause(20),
            Effect::Pointer(PointerOp::Click(0x110)),
            Effect::DropPointer,
        ],
{
    let through = seq![
        Effect::SetKeyboard(KeyboardMode::Off),
        Effect::SetVisible(false),
        Effect::Pause(20),
        Effect::Pointer(op),
        Effect::SetVisible(true),
        Effect::SetKeyboard(KeyboardMode::OnDemand),
    ];
    assert(s.click_through(op) =~= through);
}

} // verus!
