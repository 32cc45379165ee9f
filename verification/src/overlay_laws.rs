//! What holds of the overlay across its keys and events.

use vstd::prelude::*;

use crate::config::{self, NUDGE_STEP_MAX, NUDGE_STEP_MIN};
use crate::grid;
use crate::hints::{self, HintTarget, Source};
use crate::ipc::Command;
use crate::overlay::{
    self, Effect, GridRegionWindow, KeyPress, KeyboardMode, ModeView, PointerOp, Purpose, StateView,
    KEY_BACKSPACE, KEY_ESCAPE, KEY_SHIFT_L,
};
use crate::pointer::{VirtualPointer, BTN_LEFT};
use crate::units;

verus! {

/// Whether `a` happens, and `b` after it.
pub open spec fn happens_before(effects: Seq<Effect>, a: Effect, b: Effect) -> bool {
    exists|i: int, j: int|
        0 <= i < j < effects.len() && #[trigger] effects[i] == a && #[trigger] effects[j] == b
}

/// Escape closes the overlay from every mode and gives up the pointer. A button that is held is
/// released before that.
pub proof fn escape_closes(s: StateView, key: KeyPress)
    requires
        key.keyval == KEY_ESCAPE,
    ensures
        s.after_key(key).0.at_rest(),
        s.after_key(key).0.pointer is None,
        s.after_key(key).1.contains(Effect::SetKeyboard(KeyboardMode::Off)),
        s.after_key(key).1.contains(Effect::SetVisible(false)),
        s.after_key(key).1.contains(Effect::HideGridWindows),
        s.holding() && s.pointer is Some ==> happens_before(
            s.after_key(key).1,
            Effect::Pointer(PointerOp::Release(BTN_LEFT)),
            Effect::DropPointer,
        ),
{
    let effects = s.after_key(key).1;
    let t = StateView { ticket: overlay::next_ticket(s.ticket), ..s };
    assert(effects == t.closing());
    let n = effects.len();
    assert(effects[n - 1] == Effect::HideGridWindows);
    assert(effects[n - 2] == Effect::SetVisible(false));
    assert(effects[n - 3] == Effect::SetKeyboard(KeyboardMode::Off));
    assert(effects[n - 4] == Effect::DropPointer);
    if s.holding() && s.pointer is Some {
        assert(effects[0] == Effect::Pointer(PointerOp::Release(BTN_LEFT)));
        assert(0 < n - 4);
    }
}

/// Every command that toggles something closes the overlay if it shows anything, whatever that is,
/// and asks for it to be shown otherwise, unless it calls off hints that are awaited.
pub proof fn toggles_close_what_is_open(s: StateView, purpose: Purpose)
    ensures
        s.at_rest() ==> s.after_toggle(purpose) == (s, seq![Effect::Present(purpose)]),
        s.mode is Hidden && purpose != Purpose::Hints ==> s.after_toggle(purpose) == (
            s,
            seq![Effect::Present(purpose)],
        ),
        !(s.mode is Hidden) ==> s.after_toggle(purpose).0.at_rest() && s.after_toggle(
            purpose,
        ).0.pointer is None,
        s.after_command(Command::ToggleGrid) == s.after_toggle(Purpose::Grid),
        s.after_command(Command::ToggleHints) == s.after_toggle(Purpose::Hints),
        s.after_command(Command::ToggleMenu) == s.after_toggle(Purpose::Menu),
{
}

/// No key, no release of a key and no toggle ends a drag without the button being released: a held
/// button never stays down for good.
pub proof fn held_buttons_are_released(s: StateView, key: KeyPress, keyval: u32, purpose: Purpose)
    requires
        s.holding(),
        s.pointer is Some,
    ensures
        !s.after_key(key).0.holding() ==> s.after_key(key).1.contains(
            Effect::Pointer(PointerOp::Release(BTN_LEFT)),
        ),
        !s.after_release(keyval).0.holding() ==> s.after_release(keyval).1.contains(
            Effect::Pointer(PointerOp::Release(BTN_LEFT)),
        ),
        !s.after_toggle(purpose).0.holding() ==> s.after_toggle(purpose).1.contains(
            Effect::Pointer(PointerOp::Release(BTN_LEFT)),
        ),
{
    let up = Effect::Pointer(PointerOp::Release(BTN_LEFT));
    let t = StateView { ticket: overlay::next_ticket(s.ticket), ..s };
    assert(t.closing()[0] == up);
    assert(s.closing()[0] == up);
    if keyval == KEY_SHIFT_L {
        assert(s.after_release(keyval).1[3] == up);
    }
}

/// The left shift key starts a drag where the cursor is, and its release ends it there.
pub proof fn shift_drags(s: StateView, key: KeyPress)
    requires
        key.keyval == KEY_SHIFT_L,
        s.mode matches ModeView::Selected { holding: false, .. },
        s.pointer is Some,
    ensures
        ({
            let (down, pressed) = s.after_key(key);
            let (up, released) = down.after_release(KEY_SHIFT_L);
            &&& down.holding()
            &&& pressed.contains(Effect::Pointer(PointerOp::Press(BTN_LEFT)))
            &&& released.contains(Effect::Pointer(PointerOp::Release(BTN_LEFT)))
            &&& up.mode == s.mode
        }),
{
    let (down, pressed) = s.after_key(key);
    let (up, released) = down.after_release(KEY_SHIFT_L);
    assert(pressed[3] == Effect::Pointer(PointerOp::Press(BTN_LEFT)));
    assert(released[3] == Effect::Pointer(PointerOp::Release(BTN_LEFT)));
}

/// The grid belongs to the screen, nudges do not go backwards, and a picked position lies on the
/// screen.
pub open spec fn settled(s: StateView) -> bool {
    &&& s.screen_w > 0
    &&& s.screen_h > 0
    &&& s.cells == grid::grid_cells(s.screen_w, s.screen_h)
    &&& s.settings.nudge_step >= 0
    &&& s.mode matches ModeView::Selected { x, y, .. } ==> on_screen(s, x, y)
}

/// Whether a position lies on the screen, its edges included.
pub open spec fn on_screen(s: StateView, x: i64, y: i64) -> bool {
    0 <= x <= s.width() && 0 <= y <= s.height()
}

/// Keys never take the cursor off the screen.
pub proof fn keys_stay_on_the_screen(s: StateView, key: KeyPress)
    requires
        settled(s),
    ensures
        settled(s.after_key(key).0),
{
    let t = StateView { ticket: overlay::next_ticket(s.ticket), ..s };
    match t.mode {
        ModeView::TypingFine(coarse) => {
            if overlay::direction_of(key.keyval) is None && key.ch is Some {
                let c = key.ch->0;
                if exists|i: int| grid::first_labeled(t.cells, coarse, c, i) {
                    let i = choose|i: int| grid::first_labeled(t.cells, coarse, c, i);
                    grid::centers_lie_in_their_cells(s.screen_w, s.screen_h, i);
                }
            }
        },
        ModeView::Menu => {
            config::adjusting_stays_within_bounds(
                t.settings,
                config::NUDGE_STEP_INCREMENT,
            );
            config::adjusting_stays_within_bounds(
                t.settings,
                (-config::NUDGE_STEP_INCREMENT) as i64,
            );
        },
        _ => {},
    }
}

/// After a coarse key, the keys that nudge only nudge: what character they type makes no difference,
/// so that they never pick a cell.
pub proof fn nudge_keys_never_pick_a_cell(
    s: StateView,
    coarse: char,
    key: KeyPress,
    other: Option<char>,
)
    requires
        overlay::direction_of(key.keyval) is Some,
    ensures
        s.fine_key(coarse, key) == s.fine_key(coarse, KeyPress { ch: other, ..key }),
{
}

/// A coarse key and a fine key other than those that nudge take the cursor to the middle of the cell
/// with that code.
pub proof fn two_keys_pick_a_cell(
    s: StateView,
    first: KeyPress,
    second: KeyPress,
    cr: int,
    cc: int,
    fr: int,
    fc: int,
)
    requires
        settled(s),
        s.mode is TypingCoarse,
        s.pointer is Some,
        0 <= cr < grid::ROWS,
        0 <= cc < grid::COLS,
        0 <= fr < grid::ROWS,
        0 <= fc < grid::COLS,
        first.keyval != KEY_ESCAPE,
        second.keyval != KEY_ESCAPE,
        first.ch == Some(grid::key_at(grid::COARSE_KEYS, cr, cc)),
        second.ch == Some(grid::key_at(grid::FINE_KEYS, fr, fc)),
        overlay::direction_of(second.keyval) is None,
    ensures
        ({
            let cell = grid::cell_at(s.screen_w, s.screen_h, cr, cc, fr, fc);
            let (x, y) = (
                units::sat(cell.x + cell.w as int / 2),
                units::sat(cell.y + cell.h as int / 2),
            );
            let (end, effects) = s.after_key(first).0.after_key(second);
            &&& end.mode == ModeView::Selected { x, y, holding: false }
            &&& effects.contains(Effect::Pointer(s.warp(x, y)))
        }),
{
    let coarse = grid::key_at(grid::COARSE_KEYS, cr, cc);
    let fine = grid::key_at(grid::FINE_KEYS, fr, fc);
    let mid = s.after_key(first).0;
    let t = StateView { ticket: overlay::next_ticket(mid.ticket), ..mid };
    assert(grid::lies_at(grid::COARSE_KEYS, coarse, cr, cc));
    assert(grid::lies_at(grid::FINE_KEYS, fine, fr, fc));
    assert(mid.mode == ModeView::TypingFine(coarse));
    grid::every_code_has_its_cell(s.screen_w, s.screen_h, cr, cc, fr, fc);
    let k = grid::code_index(cr, cc, fr, fc);
    assert(grid::first_labeled(t.cells, coarse, fine, k));
    let i = choose|i: int| grid::first_labeled(t.cells, coarse, fine, i);
    assert(grid::first_labeled(t.cells, coarse, fine, i));
    assert(i == k);
    let effects = mid.after_key(second).1;
    let cell = grid::cell_at(s.screen_w, s.screen_h, cr, cc, fr, fc);
    assert(effects[0] == Effect::Pointer(
        s.warp(units::sat(cell.x + cell.w as int / 2), units::sat(cell.y + cell.h as int / 2)),
    ));
}

/// The state without its ticket.
pub open spec fn unticketed(s: StateView) -> StateView {
    StateView { ticket: 0, ..s }
}

/// Backspace takes back the last character of a label, if it was not the last one missing.
pub proof fn backspace_undoes(
    s: StateView,
    targets: Seq<HintTarget>,
    typed: Seq<char>,
    key: KeyPress,
    back: KeyPress,
)
    requires
        s.mode == (ModeView::Hints { targets, typed }),
        key.keyval != KEY_ESCAPE,
        key.keyval != KEY_BACKSPACE,
        back.keyval == KEY_BACKSPACE,
        key.ch matches Some(c) && grid::alphabet().contains(c) && overlay::leads_on(
            targets,
            typed.push(c),
        ) && !overlay::is_label(targets, typed.push(c)),
    ensures
        s.after_key(key).0.mode == (ModeView::Hints { targets, typed: typed.push(key.ch->0) }),
        unticketed(s.after_key(key).0.after_key(back).0) == unticketed(s),
{
    assert(typed.push(key.ch->0).drop_last() =~= typed);
}

/// A key that no label goes on with changes nothing but the ticket.
pub proof fn dead_ends_are_ignored(
    s: StateView,
    targets: Seq<HintTarget>,
    typed: Seq<char>,
    key: KeyPress,
)
    requires
        s.mode == (ModeView::Hints { targets, typed }),
        key.keyval != KEY_ESCAPE,
        key.keyval != KEY_BACKSPACE,
        key.ch matches Some(c) ==> !grid::alphabet().contains(c) || !overlay::leads_on(
            targets,
            typed.push(c),
        ),
    ensures
        unticketed(s.after_key(key).0) == unticketed(s),
        s.after_key(key).1 == seq![Effect::Redraw],
{
    assert(s.after_key(key).1 =~= seq![Effect::Redraw]);
}

/// What the completion of a label leads to: the cursor goes to the middle of the target, the
/// overlay hides, and the left button clicks.
pub open spec fn picks(s: StateView, source: Source, end: StateView, effects: Seq<Effect>) -> bool {
    let (x, y) = hints::center_of(source);
    &&& end.mode is Hidden
    &&& end.pointer is None
    &&& effects == s.pointed(s.warp(x, y)) + s.click_and_close() + seq![Effect::Redraw]
}

proof fn lemma_label_found(
    targets: Seq<HintTarget>,
    from: Seq<Source>,
    i: int,
)
    requires
        hints::are_labeled(targets, from),
        from.len() <= hints::MAX_DOUBLE,
        0 <= i < targets.len(),
    ensures
        overlay::first_with_label(targets, hints::label_of(i, from.len()), i),
        overlay::is_label(targets, hints::label_of(i, from.len())),
        overlay::leads_on(targets, hints::label_of(i, from.len())),
        (choose|j: int|
            overlay::first_with_label(targets, hints::label_of(i, from.len()), j)) == i,
{
    let label = hints::label_of(i, from.len());
    assert(targets[i].label@ == label);
    assert forall|j: int| 0 <= j < i implies (#[trigger] targets[j]).label@ != label by {
        hints::labels_are_unambiguous(i, j, from.len());
    }
    assert(overlay::first_with_label(targets, label, i));
    assert(label.take(label.len() as int) =~= label);
    assert(hints::begins(label, targets[i].label@));
    let j = choose|j: int| overlay::first_with_label(targets, label, j);
    assert(overlay::first_with_label(targets, label, j));
    if j != i {
        hints::labels_are_unambiguous(i, j, from.len());
    }
}

/// With few targets, a single key picks the target that it labels.
pub proof fn one_key_picks_a_target(
    s: StateView,
    targets: Seq<HintTarget>,
    from: Seq<Source>,
    i: int,
    key: KeyPress,
)
    requires
        s.mode == (ModeView::Hints { targets, typed: Seq::empty() }),
        hints::are_labeled(targets, from),
        0 <= i < from.len() <= hints::MAX_SINGLE,
        key.keyval != KEY_ESCAPE,
        key.keyval != KEY_BACKSPACE,
        key.ch == Some(grid::letter(i)),
    ensures
        picks(s, from[i], s.after_key(key).0, s.after_key(key).1),
{
    let label = hints::label_of(i, from.len());
    lemma_label_found(targets, from, i);
    assert(Seq::<char>::empty().push(grid::letter(i)) =~= label);
    assert(grid::alphabet()[i] == grid::letter(i));
    let t = StateView { ticket: overlay::next_ticket(s.ticket), ..s };
    let (x, y) = hints::center_of(from[i]);
    assert(t.pointed(t.warp(x, y)) == s.pointed(s.warp(x, y)));
    assert(t.click_and_close() == s.click_and_close());
    assert(t.hint_key(targets, Seq::empty(), key) == (
        t.closed(),
        t.pointed(t.warp(x, y)) + t.click_and_close(),
    ));
}

/// With many targets, two keys pick the target that they label.
pub proof fn two_keys_pick_a_target(
    s: StateView,
    targets: Seq<HintTarget>,
    from: Seq<Source>,
    i: int,
    first: KeyPress,
    second: KeyPress,
)
    requires
        s.mode == (ModeView::Hints { targets, typed: Seq::empty() }),
        hints::are_labeled(targets, from),
        hints::MAX_SINGLE < from.len() <= hints::MAX_DOUBLE,
        0 <= i < from.len(),
        first.keyval != KEY_ESCAPE,
        first.keyval != KEY_BACKSPACE,
        second.keyval != KEY_ESCAPE,
        second.keyval != KEY_BACKSPACE,
        first.ch == Some(grid::letter(i / 30)),
        second.ch == Some(grid::letter(i % 30)),
    ensures
        picks(
            s,
            from[i],
            s.after_key(first).0.after_key(second).0,
            s.after_key(first).0.after_key(second).1,
        ),
{
    let label = hints::label_of(i, from.len());
    let part = Seq::<char>::empty().push(grid::letter(i / 30));
    lemma_label_found(targets, from, i);
    assert(grid::alphabet()[i / 30] == grid::letter(i / 30));
    assert(grid::alphabet()[i % 30] == grid::letter(i % 30));
    assert(part.push(grid::letter(i % 30)) =~= label);
    assert(label.take(1) =~= part);
    assert(hints::begins(part, targets[i].label@));
    assert(!overlay::is_label(targets, part)) by {
        if overlay::is_label(targets, part) {
            let j = choose|j: int| overlay::first_with_label(targets, part, j);
            assert(targets[j].label@ == hints::label_of(j, from.len()));
            assert(targets[j].label@.len() == 2);
        }
    }
    let mid = s.after_key(first).0;
    assert(mid.mode == (ModeView::Hints { targets, typed: part }));
    let t = StateView { ticket: overlay::next_ticket(mid.ticket), ..mid };
    let (x, y) = hints::center_of(from[i]);
    assert(t.pointed(t.warp(x, y)) == s.pointed(s.warp(x, y)));
    assert(t.click_and_close() == s.click_and_close());
    assert(t.hint_key(targets, part, second) == (
        t.closed(),
        t.pointed(t.warp(x, y)) + t.click_and_close(),
    ));
}

/// In the menu, whatever key is pressed, the distance of a nudge stays within its bounds once it is
/// there.
pub proof fn menu_keys_stay_within_bounds(s: StateView, key: KeyPress)
    requires
        s.mode is Menu,
        NUDGE_STEP_MIN <= s.settings.nudge_step <= NUDGE_STEP_MAX,
    ensures
        NUDGE_STEP_MIN <= s.after_key(key).0.settings.nudge_step <= NUDGE_STEP_MAX,
{
}

/// A key that comes in before the elements of a region were found makes them irrelevant.
pub proof fn a_key_outdates_a_scan(s: StateView, key: KeyPress)
    ensures
        s.after_key(key).0.ticket != s.ticket,
{
}

/// The overlay hides before it clicks, in whichever way it closes with a click: nothing of it is in
/// the way.
pub proof fn clicks_come_after_hiding(s: StateView)
    requires
        s.pointer is Some,
    ensures
        happens_before(
            s.click_and_close(),
            Effect::SetVisible(false),
            Effect::Pointer(PointerOp::Click(BTN_LEFT)),
        ),
        happens_before(
            s.click_and_close(),
            Effect::Pointer(PointerOp::Click(BTN_LEFT)),
            Effect::DropPointer,
        ),
{
    let e = s.click_and_close();
    assert(e[1] == Effect::SetVisible(false));
    assert(e[3] == Effect::Pointer(PointerOp::Click(BTN_LEFT)));
    assert(e[4] == Effect::DropPointer);
}

/// Hints are awaited only while nothing is shown, and without anything shown or awaited there is no
/// pointer.
pub open spec fn orderly(s: StateView) -> bool {
    &&& s.awaited is Some ==> s.mode is Hidden
    &&& s.at_rest() ==> s.pointer is None
}

/// No key, release of a key, command, opening for hints or passing of time upsets that order. In
/// particular, whatever hides the overlay gives the pointer up.
pub proof fn hiding_gives_the_pointer_up(
    s: StateView,
    key: KeyPress,
    keyval: u32,
    purpose: Purpose,
    command: Command,
    pointer: Option<VirtualPointer>,
)
    requires
        orderly(s),
    ensures
        orderly(s.after_key(key).0),
        orderly(s.after_release(keyval).0),
        orderly(s.after_toggle(purpose).0),
        orderly(s.after_command(command).0),
        orderly(s.after_tick().0),
        s.mode is Hidden ==> orderly(
            s.after_hints_opened(s.screen_w, s.screen_h, pointer).0,
        ),
{
}

/// While hints are awaited, a second toggle and the escape key call them off: what the scan finds is
/// not awaited any more. Neither is what an earlier scan finds once a new one has begun; and during a
/// drag nothing is.
pub proof fn awaited_hints_can_be_called_off(
    s: StateView,
    ticket: u64,
    key: KeyPress,
    pointer: Option<VirtualPointer>,
)
    requires
        s.awaited == Some(ticket),
        key.keyval == KEY_ESCAPE,
    ensures
        s.after_toggle(Purpose::Hints).0.at_rest(),
        s.after_toggle(Purpose::Hints).1.contains(Effect::SetVisible(false)),
        s.after_key(key).0.at_rest(),
        s.after_key(key).1.contains(Effect::SetVisible(false)),
        s.ticket == ticket ==> s.after_hints_opened(
            s.screen_w,
            s.screen_h,
            pointer,
        ).0.awaited != Some(ticket),
        orderly(s) ==> !s.holding(),
{
    let t = StateView { ticket: overlay::next_ticket(s.ticket), ..s };
    let n = s.closing().len();
    assert(s.closing()[n - 2] == Effect::SetVisible(false));
    assert(t.closing()[n - 2] == Effect::SetVisible(false));
}

/// The windows of the grid tile the screen: the first begins at its edge, each ends where the next
/// begins, and the last ends at the opposite edge. No edge is further than half a pixel from where it
/// would be without rounding.
pub proof fn windows_tile_the_screen(w: GridRegionWindow, screen_w: i32, screen_h: i32)
    requires
        0 <= screen_w,
        0 <= screen_h,
        w.col < grid::COLS,
        w.row < grid::ROWS,
    ensures
        ({
            let p = overlay::placed_at(w, screen_w, screen_h);
            &&& w.col == 0 ==> p.left == 0
            &&& w.col + 1 < grid::COLS ==> p.left + p.width == overlay::placed_at(
                GridRegionWindow { col: (w.col + 1) as usize, ..w },
                screen_w,
                screen_h,
            ).left
            &&& w.col + 1 == grid::COLS ==> p.left + p.width == screen_w
            &&& w.row == 0 ==> p.top == 0
            &&& w.row + 1 < grid::ROWS ==> p.top + p.height == overlay::placed_at(
                GridRegionWindow { row: (w.row + 1) as usize, ..w },
                screen_w,
                screen_h,
            ).top
            &&& w.row + 1 == grid::ROWS ==> p.top + p.height == screen_h
            &&& 0 <= p.width
            &&& 0 <= p.height
            &&& -5 < 2 * (5 * p.left - w.col * screen_w) <= 5
            &&& -3 < 2 * (3 * p.top - w.row * screen_h) <= 3
        }),
{
    overlay::lemma_edges(screen_w as int, w.col as int);
    overlay::lemma_edges(screen_h as int, w.row as int);
    overlay::lemma_edges(screen_w as int, w.col + 1);
    overlay::lemma_edges(screen_h as int, w.row + 1);
    let (col, row) = (w.col as int, w.row as int);
    let (width, height) = (screen_w as int, screen_h as int);
    assert((col + 1) * width == col * width + width) by (nonlinear_arith);
    assert((row + 1) * height == row * height + height) by (nonlinear_arith);
    assert(0 <= col * width && (col == 0 ==> col * width == 0) && (col == 4 ==> col * width == 4
        * width)) by (nonlinear_arith)
        requires
            0 <= col,
            0 <= width,
    ;
    assert(0 <= row * height && (row == 0 ==> row * height == 0) && (row == 2 ==> row * height == 2
        * height)) by (nonlinear_arith)
        requires
            0 <= row,
            0 <= height,
    ;
}

} // verus!
