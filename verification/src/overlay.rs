//! The overlay: what each key and each event does to it.
//!
//! The overlay does nothing by itself. It says what is to be done, in order, and is told what came of
//! it.

use vstd::prelude::*;

use crate::atspi_scan::{Category, Element};
use crate::config::{Settings, NUDGE_STEP_INCREMENT};
use crate::grid::{self, Cell};
use crate::hints::{self, HintTarget};
use crate::ipc::Command;
use crate::pointer::{VirtualPointer, BTN_LEFT, BTN_RIGHT};
use crate::units;
use crate::vision::regions::VisionRegion;

verus! {

/// Symbols of the keys that have a meaning of their own.
pub const KEY_BACKSPACE: u32 = 0xff08;

pub const KEY_ESCAPE: u32 = 0xff1b;

pub const KEY_LEFT: u32 = 0xff51;

pub const KEY_UP: u32 = 0xff52;

pub const KEY_RIGHT: u32 = 0xff53;

pub const KEY_DOWN: u32 = 0xff54;

pub const KEY_KP_ADD: u32 = 0xffab;

pub const KEY_KP_SUBTRACT: u32 = 0xffad;

pub const KEY_SHIFT_L: u32 = 0xffe1;

pub const KEY_SPACE: u32 = 0x20;

pub const KEY_PLUS: u32 = 0x2b;

pub const KEY_MINUS: u32 = 0x2d;

pub const KEY_EQUAL: u32 = 0x3d;

pub const KEY_H: u32 = 0x68;

pub const KEY_J: u32 = 0x6a;

pub const KEY_K: u32 = 0x6b;

pub const KEY_L: u32 = 0x6c;

/// How long the overlay stays away before a button is pressed, in milliseconds: as long as it is on
/// top, it swallows the press.
pub const CLICK_PAUSE_MS: u64 = 20;

/// Length of a dash and of the gap behind it, and by how much the dashes move at a time, all in
/// tenths of a pixel.
pub const DASH_TENTHS: u32 = 40;

pub const DASH_GAP_TENTHS: u32 = 30;

pub const DASH_STEP_TENTHS: u32 = 6;

/// What the overlay shows and waits for.
#[derive(Debug)]
pub enum Mode {
    Hidden,
    /// The grid, before a coarse key.
    TypingCoarse,
    /// The grid, after a coarse key.
    TypingFine(char),
    /// Nothing but the cursor, which can be nudged and clicked. `holding` is a drag: the left button
    /// is down.
    Selected { x: i64, y: i64, holding: bool },
    /// Labeled targets, and what has been typed of a label.
    Hints { targets: Vec<HintTarget>, typed: String },
    /// The settings.
    Menu,
}

/// What a mode amounts to.
pub enum ModeView {
    Hidden,
    TypingCoarse,
    TypingFine(char),
    Selected { x: i64, y: i64, holding: bool },
    Hints { targets: Seq<HintTarget>, typed: Seq<char> },
    Menu,
}

impl View for Mode {
    type V = ModeView;

    open spec fn view(&self) -> ModeView {
        match self {
            Mode::Hidden => ModeView::Hidden,
            Mode::TypingCoarse => ModeView::TypingCoarse,
            Mode::TypingFine(c) => ModeView::TypingFine(*c),
            Mode::Selected { x, y, holding } => ModeView::Selected {
                x: *x,
                y: *y,
                holding: *holding,
            },
            Mode::Hints { targets, typed } => ModeView::Hints { targets: targets@, typed: typed@ },
            Mode::Menu => ModeView::Menu,
        }
    }
}

/// The state of the overlay.
#[derive(Debug)]
pub struct State {
    pub mode: Mode,
    pub cells: Vec<Cell>,
    /// Size of the screen in pixels.
    pub screen_w: i32,
    pub screen_h: i32,
    /// There while the overlay is open.
    pub pointer: Option<VirtualPointer>,
    pub settings: Settings,
    /// How far the dashes have moved, in tenths of a pixel.
    pub dash_phase: u32,
    /// Changes with every key and with every scan for hints, so that what was asked for before can be
    /// told apart.
    pub ticket: u64,
    /// The ticket of the scan for hints that is awaited, if one is.
    pub awaited: Option<u64>,
}

/// What a state amounts to.
pub struct StateView {
    pub mode: ModeView,
    pub cells: Seq<Cell>,
    pub screen_w: i32,
    pub screen_h: i32,
    pub pointer: Option<VirtualPointer>,
    pub settings: Settings,
    pub dash_phase: u32,
    pub ticket: u64,
    pub awaited: Option<u64>,
}

impl View for State {
    type V = StateView;

    open spec fn view(&self) -> StateView {
        StateView {
            mode: self.mode@,
            cells: self.cells@,
            screen_w: self.screen_w,
            screen_h: self.screen_h,
            pointer: self.pointer,
            settings: self.settings,
            dash_phase: self.dash_phase,
            ticket: self.ticket,
            awaited: self.awaited,
        }
    }
}

/// A key that was pressed.
#[derive(Debug, Clone, Copy, PartialEq, Eq, Structural)]
pub struct KeyPress {
    /// Its symbol.
    pub keyval: u32,
    /// The character that it types, if any.
    pub ch: Option<char>,
    /// Whether shift is held.
    pub shift: bool,
}

/// Whether keys go to the overlay.
#[derive(Debug, Clone, Copy, PartialEq, Eq, Structural)]
pub enum KeyboardMode {
    Off,
    OnDemand,
}

/// Something for the pointer to do. Positions and sizes are in subpixels.
#[derive(Debug, Clone, Copy, PartialEq, Eq, Structural)]
pub enum PointerOp {
    MoveTo { x: i64, y: i64, screen_w: i64, screen_h: i64 },
    Click(u32),
    Press(u32),
    Release(u32),
}

/// What the overlay is opened for.
#[derive(Debug, Clone, Copy, PartialEq, Eq, Structural)]
pub enum Purpose {
    Grid,
    Hints,
    Menu,
}

/// Something to be done.
#[derive(Debug, Clone, Copy, PartialEq, Eq, Structural)]
pub enum Effect {
    /// Show the overlay on the focused monitor, and tell when it is there.
    Present(Purpose),
    SetKeyboard(KeyboardMode),
    SetVisible(bool),
    /// Hide the windows that the grid is drawn on.
    HideGridWindows,
    /// Wait this many milliseconds.
    Pause(u64),
    Pointer(PointerOp),
    /// Give up the pointer.
    DropPointer,
    /// Look for targets on the whole screen, and tell what was found.
    ScanHints { ticket: u64 },
    /// Look for elements in the background after a coarse key, and tell what was found.
    ScanRegion { coarse: char, ticket: u64 },
    /// Store the settings.
    SaveSettings(Settings),
    /// Type this character into whatever has the keyboard now.
    ForwardChar(char),
    /// Draw the overlay anew.
    Redraw,
    /// Draw the windows of the grid anew.
    RedrawGrid,
    /// Stop the program.
    Quit,
}

/// Where a nudge goes.
#[derive(Debug, Clone, Copy, PartialEq, Eq, Structural)]
pub enum Direction {
    Left,
    Right,
    Up,
    Down,
}

/// Where a key nudges to, if it does.
pub open spec fn direction_of(keyval: u32) -> Option<Direction> {
    if keyval == KEY_H || keyval == KEY_LEFT {
        Some(Direction::Left)
    } else if keyval == KEY_L || keyval == KEY_RIGHT {
        Some(Direction::Right)
    } else if keyval == KEY_K || keyval == KEY_UP {
        Some(Direction::Up)
    } else if keyval == KEY_J || keyval == KEY_DOWN {
        Some(Direction::Down)
    } else {
        None
    }
}

fn nudge_direction(keyval: u32) -> (d: Option<Direction>)
    ensures
        d == direction_of(keyval),
{
    if keyval == KEY_H || keyval == KEY_LEFT {
        Some(Direction::Left)
    } else if keyval == KEY_L || keyval == KEY_RIGHT {
        Some(Direction::Right)
    } else if keyval == KEY_K || keyval == KEY_UP {
        Some(Direction::Up)
    } else if keyval == KEY_J || keyval == KEY_DOWN {
        Some(Direction::Down)
    } else {
        None
    }
}

/// Whether a character is printable: anything but a control character.
pub open spec fn printable(c: char) -> bool {
    0x20 <= c as u32 && !(0x7f <= c as u32 <= 0x9f)
}

fn is_printable(c: char) -> (r: bool)
    ensures
        r == printable(c),
{
    let code: u32 = c as u32;
    0x20 <= code && !(0x7f <= code && code <= 0x9f)
}

/// The number that follows a ticket.
pub open spec fn next_ticket(ticket: u64) -> u64 {
    if ticket == u64::MAX {
        0
    } else {
        (ticket + 1) as u64
    }
}

/// The greater one of two coordinates.
pub open spec fn at_least(v: i64, bound: i64) -> i64 {
    if v < bound {
        bound
    } else {
        v
    }
}

/// The lesser one of two coordinates.
pub open spec fn at_most(v: i64, bound: i64) -> i64 {
    if v > bound {
        bound
    } else {
        v
    }
}

impl StateView {
    /// The width of the screen in subpixels.
    pub open spec fn width(self) -> i64 {
        (self.screen_w * units::SUBPIXELS) as i64
    }

    /// The height of the screen in subpixels.
    pub open spec fn height(self) -> i64 {
        (self.screen_h * units::SUBPIXELS) as i64
    }

    /// What the pointer does, if there is one.
    pub open spec fn pointed(self, op: PointerOp) -> Seq<Effect> {
        if self.pointer is Some {
            seq![Effect::Pointer(op)]
        } else {
            Seq::empty()
        }
    }

    /// The move of the cursor to a position.
    pub open spec fn warp(self, x: i64, y: i64) -> PointerOp {
        PointerOp::MoveTo { x, y, screen_w: self.width(), screen_h: self.height() }
    }

    /// What the pointer does after a pause, if there is one.
    pub open spec fn pointed_later(self, op: PointerOp) -> Seq<Effect> {
        if self.pointer is Some {
            seq![Effect::Pause(CLICK_PAUSE_MS), Effect::Pointer(op)]
        } else {
            Seq::empty()
        }
    }

    /// A change of a button while the overlay steps aside, so that the change reaches what is below.
    /// Once a button is down, motion and its release follow to the same place by themselves.
    pub open spec fn click_through(self, op: PointerOp) -> Seq<Effect> {
        seq![Effect::SetKeyboard(KeyboardMode::Off), Effect::SetVisible(false)]
            + self.pointed_later(op) + seq![
            Effect::SetVisible(true),
            Effect::SetKeyboard(KeyboardMode::OnDemand),
        ]
    }

    /// A last click with which the overlay closes. It hides first: the click would not get through.
    pub open spec fn click_and_close(self) -> Seq<Effect> {
        seq![Effect::SetKeyboard(KeyboardMode::Off), Effect::SetVisible(false)]
            + self.pointed_later(PointerOp::Click(BTN_LEFT)) + seq![Effect::DropPointer]
    }

    /// The state after the overlay was closed.
    pub open spec fn closed(self) -> StateView {
        StateView { mode: ModeView::Hidden, pointer: None, awaited: None, ..self }
    }

    /// Whether nothing is shown and nothing is awaited that would be shown.
    pub open spec fn at_rest(self) -> bool {
        self.mode is Hidden && self.awaited is None
    }

    /// Whether a drag is going on.
    pub open spec fn holding(self) -> bool {
        self.mode matches ModeView::Selected { holding: true, .. }
    }

    /// What is done to close the overlay. A button that is held is released before the pointer is
    /// given up; nothing else would ever release it.
    pub open spec fn closing(self) -> Seq<Effect> {
        (if self.holding() {
            self.pointed(PointerOp::Release(BTN_LEFT))
        } else {
            Seq::empty()
        }) + seq![
            Effect::DropPointer,
            Effect::SetKeyboard(KeyboardMode::Off),
            Effect::SetVisible(false),
            Effect::HideGridWindows,
        ]
    }

    /// The position after a nudge from the middle of a region, on the screen.
    pub open spec fn nudged_from(self, cx: i64, cy: i64, d: Direction) -> (i64, i64) {
        let step = self.settings.nudge_step;
        let (x, y) = match d {
            Direction::Left => (units::sat(cx - step), cy),
            Direction::Right => (units::sat(cx + step), cy),
            Direction::Up => (cx, units::sat(cy - step)),
            Direction::Down => (cx, units::sat(cy + step)),
        };
        (at_most(at_least(x, 0), self.width()), at_most(at_least(y, 0), self.height()))
    }

    /// The position after a nudge, which ends at the edge of the screen.
    pub open spec fn nudged(self, x: i64, y: i64, d: Direction) -> (i64, i64) {
        let step = self.settings.nudge_step;
        match d {
            Direction::Left => (at_least(units::sat(x - step), 0), y),
            Direction::Right => (at_most(units::sat(x + step), self.width()), y),
            Direction::Up => (x, at_least(units::sat(y - step), 0)),
            Direction::Down => (x, at_most(units::sat(y + step), self.height())),
        }
    }

    /// The cursor at a position that has just been picked.
    pub open spec fn selected(self, x: i64, y: i64) -> (StateView, Seq<Effect>) {
        (
            StateView { mode: ModeView::Selected { x, y, holding: false }, ..self },
            self.pointed(self.warp(x, y)) + seq![Effect::HideGridWindows],
        )
    }

    /// What a key does before a coarse key: a coarse key picks a region, and the elements of it are
    /// looked for in the background.
    pub open spec fn coarse_key(self, key: KeyPress) -> (StateView, Seq<Effect>) {
        match key.ch {
            Some(c) if grid::has_key(grid::COARSE_KEYS, c) => (
                StateView { mode: ModeView::TypingFine(c), ..self },
                seq![Effect::ScanRegion { coarse: c, ticket: self.ticket }],
            ),
            _ => (self, Seq::empty()),
        }
    }

    /// What a key does after a coarse key: a nudge starts from the middle of the region, and a fine
    /// key picks a cell. The keys that nudge never pick a cell.
    pub open spec fn fine_key(self, coarse: char, key: KeyPress) -> (StateView, Seq<Effect>) {
        match direction_of(key.keyval) {
            Some(d) => match grid::region_center(self.cells, coarse) {
                Some((cx, cy)) => {
                    let (x, y) = self.nudged_from(cx, cy, d);
                    self.selected(x, y)
                },
                None => (self, Seq::empty()),
            },
            None => match key.ch {
                Some(c) if grid::has_key(grid::FINE_KEYS, c) && exists|i: int|
                    grid::first_labeled(self.cells, coarse, c, i) => {
                    let i = choose|i: int| grid::first_labeled(self.cells, coarse, c, i);
                    let cell = self.cells[i];
                    self.selected(
                        units::sat(cell.x + cell.w as int / 2),
                        units::sat(cell.y + cell.h as int / 2),
                    )
                },
                _ => (self, Seq::empty()),
            },
        }
    }

    /// The state with a position and a drag.
    pub open spec fn at(self, x: i64, y: i64, holding: bool) -> StateView {
        StateView { mode: ModeView::Selected { x, y, holding }, ..self }
    }

    /// What a key does once a position is picked, and whether the windows of the grid are drawn
    /// anew. Nudges move the cursor, space clicks, the left shift key starts a drag. Any other
    /// printable character ends the positioning: a click gives the place below the keyboard, and the
    /// character is typed there. During a drag it is more likely a slip.
    pub open spec fn selected_key(
        self,
        x: i64,
        y: i64,
        holding: bool,
        key: KeyPress,
    ) -> (StateView, Seq<Effect>) {
        let redraws = seq![Effect::Redraw, Effect::RedrawGrid];
        match direction_of(key.keyval) {
            Some(d) => {
                let (nx, ny) = self.nudged(x, y, d);
                (
                    self.at(nx, ny, holding),
                    (if (nx, ny) != (x, y) {
                        self.pointed(self.warp(nx, ny))
                    } else {
                        Seq::empty()
                    }) + redraws,
                )
            },
            None => if key.keyval == KEY_SPACE {
                (
                    self.at(x, y, holding),
                    self.click_through(
                        PointerOp::Click(
                            if key.shift {
                                BTN_RIGHT
                            } else {
                                BTN_LEFT
                            },
                        ),
                    ) + redraws,
                )
            } else if key.keyval == KEY_SHIFT_L && !holding {
                (
                    self.at(x, y, true),
                    self.click_through(PointerOp::Press(BTN_LEFT)) + redraws,
                )
            } else if !holding && key.ch is Some && printable(key.ch->0) {
                (
                    self.closed(),
                    self.click_and_close() + seq![Effect::ForwardChar(key.ch->0), Effect::Redraw],
                )
            } else {
                (self, redraws)
            },
        }
    }

    /// What a key does in the menu: it changes the distance of a nudge.
    pub open spec fn menu_key(self, key: KeyPress) -> (StateView, Seq<Effect>) {
        let delta: i64 = if key.keyval == KEY_PLUS || key.keyval == KEY_EQUAL || key.keyval
            == KEY_KP_ADD {
            NUDGE_STEP_INCREMENT
        } else if key.keyval == KEY_MINUS || key.keyval == KEY_KP_SUBTRACT {
            (-NUDGE_STEP_INCREMENT) as i64
        } else {
            0
        };
        if delta != 0 {
            let settings = self.settings.adjusted(delta);
            (StateView { settings, ..self }, seq![Effect::SaveSettings(settings)])
        } else {
            (self, Seq::empty())
        }
    }
}

/// Whether some label goes on from what has been typed.
pub open spec fn leads_on(targets: Seq<HintTarget>, typed: Seq<char>) -> bool {
    exists|i: int|
        0 <= i < targets.len() && hints::begins(typed, (#[trigger] targets[i]).label@)
}

/// Whether `i` is the first target with that label.
pub open spec fn first_with_label(targets: Seq<HintTarget>, label: Seq<char>, i: int) -> bool {
    &&& 0 <= i < targets.len()
    &&& targets[i].label@ == label
    &&& forall|j: int| 0 <= j < i ==> (#[trigger] targets[j]).label@ != label
}

/// Whether some target has that label.
pub open spec fn is_label(targets: Seq<HintTarget>, label: Seq<char>) -> bool {
    exists|i: int| first_with_label(targets, label, i)
}

impl StateView {
    /// The state with something typed.
    pub open spec fn having_typed(
        self,
        targets: Seq<HintTarget>,
        typed: Seq<char>,
    ) -> StateView {
        StateView { mode: ModeView::Hints { targets, typed }, ..self }
    }

    /// What a key does with targets on the screen: backspace takes the last character back; a
    /// character that some label goes on with is added, and any other one is ignored; a complete
    /// label moves the cursor to its target, clicks and closes the overlay.
    pub open spec fn hint_key(
        self,
        targets: Seq<HintTarget>,
        typed: Seq<char>,
        key: KeyPress,
    ) -> (StateView, Seq<Effect>) {
        if key.keyval == KEY_BACKSPACE {
            (
                self.having_typed(
                    targets,
                    if typed.len() == 0 {
                        typed
                    } else {
                        typed.drop_last()
                    },
                ),
                Seq::empty(),
            )
        } else {
            match key.ch {
                Some(c) if grid::alphabet().contains(c) && leads_on(targets, typed.push(c)) => {
                    let label = typed.push(c);
                    if is_label(targets, label) {
                        let i = choose|i: int| first_with_label(targets, label, i);
                        let (cx, cy) = hints::center_of(targets[i].source);
                        (self.closed(), self.pointed(self.warp(cx, cy)) + self.click_and_close())
                    } else {
                        (self.having_typed(targets, label), Seq::empty())
                    }
                },
                _ => (self, Seq::empty()),
            }
        }
    }

    /// What a key does.
    pub open spec fn after_key(self, key: KeyPress) -> (StateView, Seq<Effect>) {
        let s = StateView { ticket: next_ticket(self.ticket), ..self };
        if key.keyval == KEY_ESCAPE {
            (s.closed(), s.closing())
        } else {
            let redraws = seq![Effect::Redraw, Effect::RedrawGrid];
            match s.mode {
                ModeView::Hidden => (s, redraws),
                ModeView::TypingCoarse => (s.coarse_key(key).0, s.coarse_key(key).1 + redraws),
                ModeView::TypingFine(coarse) => (
                    s.fine_key(coarse, key).0,
                    s.fine_key(coarse, key).1 + redraws,
                ),
                ModeView::Selected { x, y, holding } => s.selected_key(x, y, holding, key),
                ModeView::Hints { targets, typed } => (
                    s.hint_key(targets, typed, key).0,
                    s.hint_key(targets, typed, key).1 + seq![Effect::Redraw],
                ),
                ModeView::Menu => (s.menu_key(key).0, s.menu_key(key).1 + redraws),
            }
        }
    }

    /// What the release of a key does: the left shift key ends a drag.
    pub open spec fn after_release(self, keyval: u32) -> (StateView, Seq<Effect>) {
        match self.mode {
            ModeView::Selected { x, y, holding } if keyval == KEY_SHIFT_L && holding => (
                self.at(x, y, false),
                self.click_through(PointerOp::Release(BTN_LEFT)) + seq![Effect::Redraw],
            ),
            _ => (self, Seq::empty()),
        }
    }
}

/// Whether `label` goes on from `typed`.
pub(crate) fn goes_on(label: &String, typed: &String) -> (r: bool)
    ensures
        r == hints::begins(typed@, label@),
{
    let n: usize = typed.as_str().unicode_len();
    if label.as_str().unicode_len() < n {
        return false;
    }
    let mut i: usize = 0;
    while i < n
        invariant
            n == typed@.len(),
            n <= label@.len(),
            i <= n,
            forall|k: int| 0 <= k < i ==> #[trigger] typed@[k] == label@[k],
        decreases n - i,
    {
        if typed.as_str().get_char(i) != label.as_str().get_char(i) {
            assert(label@.take(n as int)[i as int] != typed@[i as int]);
            return false;
        }
        i = i + 1;
    }
    assert(label@.take(n as int) =~= typed@);
    true
}

fn any_goes_on(targets: &Vec<HintTarget>, typed: &String) -> (r: bool)
    ensures
        r == leads_on(targets@, typed@),
{
    let mut i: usize = 0;
    while i < targets.len()
        invariant
            i <= targets@.len(),
            forall|k: int|
                0 <= k < i ==> !hints::begins(typed@, (#[trigger] targets@[k]).label@),
        decreases targets.len() - i,
    {
        if goes_on(&targets[i].label, typed) {
            assert(hints::begins(typed@, targets@[i as int].label@));
            return true;
        }
        i = i + 1;
    }
    false
}

fn find_label(targets: &Vec<HintTarget>, label: &String) -> (r: Option<usize>)
    ensures
        match r {
            Some(i) => first_with_label(targets@, label@, i as int),
            None => !is_label(targets@, label@),
        },
{
    let mut i: usize = 0;
    while i < targets.len()
        invariant
            i <= targets@.len(),
            forall|j: int| 0 <= j < i ==> (#[trigger] targets@[j]).label@ != label@,
        decreases targets.len() - i,
    {
        if targets[i].label == *label {
            assert(first_with_label(targets@, label@, i as int));
            return Some(i);
        }
        i = i + 1;
    }
    None
}

fn greater(v: i64, bound: i64) -> (r: i64)
    ensures
        r == at_least(v, bound),
{
    if v < bound {
        bound
    } else {
        v
    }
}

fn lesser(v: i64, bound: i64) -> (r: i64)
    ensures
        r == at_most(v, bound),
{
    if v > bound {
        bound
    } else {
        v
    }
}

/// A mode without what it holds.
#[derive(Debug, Clone, Copy)]
enum ModeKind {
    Hidden,
    TypingCoarse,
    TypingFine(char),
    Selected(i64, i64, bool),
    Hints,
    Menu,
}

impl State {
    fn kind(&self) -> (k: ModeKind)
        ensures
            match self.mode@ {
                ModeView::Hidden => k == ModeKind::Hidden,
                ModeView::TypingCoarse => k == ModeKind::TypingCoarse,
                ModeView::TypingFine(c) => k == ModeKind::TypingFine(c),
                ModeView::Selected { x, y, holding } => k == ModeKind::Selected(x, y, holding),
                ModeView::Hints { .. } => k == ModeKind::Hints,
                ModeView::Menu => k == ModeKind::Menu,
            },
    {
        match &self.mode {
            Mode::Hidden => ModeKind::Hidden,
            Mode::TypingCoarse => ModeKind::TypingCoarse,
            Mode::TypingFine(c) => ModeKind::TypingFine(*c),
            Mode::Selected { x, y, holding } => ModeKind::Selected(*x, *y, *holding),
            Mode::Hints { .. } => ModeKind::Hints,
            Mode::Menu => ModeKind::Menu,
        }
    }

    fn width(&self) -> (w: i64)
        ensures
            w == self@.width(),
    {
        units::from_px(self.screen_w)
    }

    fn height(&self) -> (h: i64)
        ensures
            h == self@.height(),
    {
        units::from_px(self.screen_h)
    }

    fn warp(&self, x: i64, y: i64) -> (op: PointerOp)
        ensures
            op == self@.warp(x, y),
    {
        PointerOp::MoveTo { x, y, screen_w: self.width(), screen_h: self.height() }
    }

    fn point(&self, op: PointerOp, effects: &mut Vec<Effect>)
        ensures
            final(effects)@ == old(effects)@ + self@.pointed(op),
    {
        let ghost before = effects@;
        if self.pointer.is_some() {
            effects.push(Effect::Pointer(op));
        }
        assert(effects@ =~= before + self@.pointed(op));
    }

    fn point_later(&self, op: PointerOp, effects: &mut Vec<Effect>)
        ensures
            final(effects)@ == old(effects)@ + self@.pointed_later(op),
    {
        let ghost before = effects@;
        if self.pointer.is_some() {
            effects.push(Effect::Pause(CLICK_PAUSE_MS));
            effects.push(Effect::Pointer(op));
        }
        assert(effects@ =~= before + self@.pointed_later(op));
    }

    fn click_through(&self, op: PointerOp, effects: &mut Vec<Effect>)
        ensures
            final(effects)@ == old(effects)@ + self@.click_through(op),
    {
        let ghost before = effects@;
        effects.push(Effect::SetKeyboard(KeyboardMode::Off));
        effects.push(Effect::SetVisible(false));
        self.point_later(op, effects);
        effects.push(Effect::SetVisible(true));
        effects.push(Effect::SetKeyboard(KeyboardMode::OnDemand));
        assert(effects@ =~= before + self@.click_through(op));
    }

    fn click_and_close(&mut self, effects: &mut Vec<Effect>)
        ensures
            final(self)@ == old(self)@.closed(),
            final(effects)@ == old(effects)@ + old(self)@.click_and_close(),
    {
        let ghost before = effects@;
        self.mode = Mode::Hidden;
        effects.push(Effect::SetKeyboard(KeyboardMode::Off));
        effects.push(Effect::SetVisible(false));
        self.point_later(PointerOp::Click(BTN_LEFT), effects);
        self.pointer = None;
        self.awaited = None;
        effects.push(Effect::DropPointer);
        assert(effects@ =~= before + old(self)@.click_and_close());
    }

    fn close(&mut self, effects: &mut Vec<Effect>)
        ensures
            final(self)@ == old(self)@.closed(),
            final(effects)@ == old(effects)@ + old(self)@.closing(),
    {
        let ghost before = effects@;
        if let ModeKind::Selected(_, _, true) = self.kind() {
            self.point(PointerOp::Release(BTN_LEFT), effects);
        }
        self.mode = Mode::Hidden;
        self.pointer = None;
        self.awaited = None;
        effects.push(Effect::DropPointer);
        effects.push(Effect::SetKeyboard(KeyboardMode::Off));
        effects.push(Effect::SetVisible(false));
        effects.push(Effect::HideGridWindows);
        assert(effects@ =~= before + old(self)@.closing());
    }

    fn select(&mut self, x: i64, y: i64, effects: &mut Vec<Effect>)
        ensures
            final(self)@ == old(self)@.selected(x, y).0,
            final(effects)@ == old(effects)@ + old(self)@.selected(x, y).1,
    {
        let ghost before = effects@;
        self.point(self.warp(x, y), effects);
        self.mode = Mode::Selected { x, y, holding: false };
        effects.push(Effect::HideGridWindows);
        assert(effects@ =~= before + old(self)@.selected(x, y).1);
    }

    fn coarse_key(&mut self, key: KeyPress, effects: &mut Vec<Effect>)
        ensures
            final(self)@ == old(self)@.coarse_key(key).0,
            final(effects)@ == old(effects)@ + old(self)@.coarse_key(key).1,
    {
        let ghost before = effects@;
        if let Some(c) = key.ch {
            if grid::is_coarse_key(c) {
                self.mode = Mode::TypingFine(c);
                effects.push(Effect::ScanRegion { coarse: c, ticket: self.ticket });
            }
        }
        assert(effects@ =~= before + old(self)@.coarse_key(key).1);
    }

    fn fine_key(&mut self, coarse: char, key: KeyPress, effects: &mut Vec<Effect>)
        ensures
            final(self)@ == old(self)@.fine_key(coarse, key).0,
            final(effects)@ == old(effects)@ + old(self)@.fine_key(coarse, key).1,
    {
        let ghost before = effects@;
        assert(before + Seq::<Effect>::empty() =~= before);
        let step: i64 = self.settings.nudge_step;
        match nudge_direction(key.keyval) {
            Some(d) => {
                if let Some((cx, cy)) = grid::coarse_region_center(&self.cells, coarse) {
                    let (x, y): (i64, i64) = match d {
                        Direction::Left => (units::minus(cx, step), cy),
                        Direction::Right => (units::plus(cx, step), cy),
                        Direction::Up => (cx, units::minus(cy, step)),
                        Direction::Down => (cx, units::plus(cy, step)),
                    };
                    let x: i64 = lesser(greater(x, 0), self.width());
                    let y: i64 = lesser(greater(y, 0), self.height());
                    self.select(x, y, effects);
                }
            },
            None => {
                if let Some(c) = key.ch {
                    if grid::is_fine_key(c) {
                        let picked: Option<(i64, i64)> = match grid::find_cell(
                            &self.cells,
                            coarse,
                            c,
                        ) {
                            Some(cell) => Some(cell.center()),
                            None => None,
                        };
                        if let Some((x, y)) = picked {
                            self.select(x, y, effects);
                        }
                    }
                }
            },
        }
    }

    fn selected_key(
        &mut self,
        x: i64,
        y: i64,
        holding: bool,
        key: KeyPress,
        effects: &mut Vec<Effect>,
    )
        ensures
            final(self)@ == old(self)@.selected_key(x, y, holding, key).0,
            final(effects)@ == old(effects)@ + old(self)@.selected_key(x, y, holding, key).1,
    {
        let ghost before = effects@;
        let ghost s = self@;
        let step: i64 = self.settings.nudge_step;
        let (w, h): (i64, i64) = (self.width(), self.height());
        match nudge_direction(key.keyval) {
            Some(d) => {
                let (nx, ny): (i64, i64) = match d {
                    Direction::Left => (greater(units::minus(x, step), 0), y),
                    Direction::Right => (lesser(units::plus(x, step), w), y),
                    Direction::Up => (x, greater(units::minus(y, step), 0)),
                    Direction::Down => (x, lesser(units::plus(y, step), h)),
                };
                if nx != x || ny != y {
                    self.point(self.warp(nx, ny), effects);
                }
                self.mode = Mode::Selected { x: nx, y: ny, holding };
            },
            None => {
                if key.keyval == KEY_SPACE {
                    let button: u32 = if key.shift {
                        BTN_RIGHT
                    } else {
                        BTN_LEFT
                    };
                    self.click_through(PointerOp::Click(button), effects);
                    self.mode = Mode::Selected { x, y, holding };
                } else if key.keyval == KEY_SHIFT_L && !holding {
                    self.click_through(PointerOp::Press(BTN_LEFT), effects);
                    self.mode = Mode::Selected { x, y, holding: true };
                } else if !holding {
                    let typed: Option<char> = match key.ch {
                        Some(c) if is_printable(c) => Some(c),
                        _ => None,
                    };
                    if let Some(c) = typed {
                        self.click_and_close(effects);
                        effects.push(Effect::ForwardChar(c));
                        effects.push(Effect::Redraw);
                        proof {
                            lemma_two_more(
                                before,
                                s.click_and_close(),
                                Effect::ForwardChar(c),
                                Effect::Redraw,
                            );
                        }
                        return;
                    }
                }
            },
        }
        effects.push(Effect::Redraw);
        effects.push(Effect::RedrawGrid);
        assert(effects@ =~= before + s.selected_key(x, y, holding, key).1);
    }

    fn menu_key(&mut self, key: KeyPress, effects: &mut Vec<Effect>)
        ensures
            final(self)@ == old(self)@.menu_key(key).0,
            final(effects)@ == old(effects)@ + old(self)@.menu_key(key).1,
    {
        let ghost before = effects@;
        let delta: i64 = if key.keyval == KEY_PLUS || key.keyval == KEY_EQUAL || key.keyval
            == KEY_KP_ADD {
            NUDGE_STEP_INCREMENT
        } else if key.keyval == KEY_MINUS || key.keyval == KEY_KP_SUBTRACT {
            -NUDGE_STEP_INCREMENT
        } else {
            0
        };
        if delta != 0 {
            self.settings.adjust(delta);
            effects.push(Effect::SaveSettings(self.settings));
        }
        assert(effects@ =~= before + old(self)@.menu_key(key).1);
    }

    /// Takes in a key while targets are on the screen.
    fn hint_key(
        &mut self,
        targets: Vec<HintTarget>,
        typed: String,
        key: KeyPress,
        effects: &mut Vec<Effect>,
    )
        ensures
            ({
                let s = old(self)@.having_typed(targets@, typed@);
                &&& final(self)@ == s.hint_key(targets@, typed@, key).0
                &&& final(effects)@ == old(effects)@ + s.hint_key(targets@, typed@, key).1
            }),
    {
        let ghost before = effects@;
        let ghost s = self@.having_typed(targets@, typed@);
        let ghost was = typed@;
        assert(before + Seq::<Effect>::empty() =~= before);
        let mut typed: String = typed;
        if key.keyval == KEY_BACKSPACE {
            typed.pop();
            self.mode = Mode::Hints { targets, typed };
            return;
        }
        if let Some(c) = key.ch {
            if grid::is_hint_key(c) {
                let mut candidate: String = typed.clone();
                candidate.push(c);
                if any_goes_on(&targets, &candidate) {
                    match find_label(&targets, &candidate) {
                        Some(i) => {
                            let (cx, cy): (i64, i64) = targets[i].center();
                            proof {
                                let j = choose|j: int|
                                    first_with_label(targets@, was.push(c), j);
                                assert(first_with_label(targets@, was.push(c), i as int));
                                lemma_first_label(targets@, was.push(c), i as int, j);
                            }
                            self.point(self.warp(cx, cy), effects);
                            self.click_and_close(effects);
                            assert(effects@ =~= before + s.hint_key(targets@, was, key).1);
                            return;
                        },
                        None => {
                            typed = candidate;
                        },
                    }
                }
            }
        }
        self.mode = Mode::Hints { targets, typed };
    }

    fn take_ticket(&mut self)
        ensures
            final(self)@ == (StateView { ticket: next_ticket(old(self).ticket), ..old(self)@ }),
    {
        self.ticket = if self.ticket == u64::MAX {
            0
        } else {
            self.ticket + 1
        };
    }

    /// Takes in a key.
    fn key(&mut self, key: KeyPress, effects: &mut Vec<Effect>)
        ensures
            final(self)@ == old(self)@.after_key(key).0,
            final(effects)@ == old(effects)@ + old(self)@.after_key(key).1,
    {
        let ghost before = effects@;
        self.take_ticket();
        let ghost s = self@;
        assert(s == StateView { ticket: next_ticket(old(self).ticket), ..old(self)@ });
        if key.keyval == KEY_ESCAPE {
            self.close(effects);
            return;
        }
        match self.kind() {
            ModeKind::Hidden => {},
            ModeKind::TypingCoarse => {
                self.coarse_key(key, effects);
            },
            ModeKind::TypingFine(coarse) => {
                self.fine_key(coarse, key, effects);
            },
            ModeKind::Selected(x, y, holding) => {
                self.selected_key(x, y, holding, key, effects);
                return;
            },
            ModeKind::Hints => {
                let mut mode: Mode = Mode::Hidden;
                std::mem::swap(&mut mode, &mut self.mode);
                if let Mode::Hints { targets, typed } = mode {
                    self.hint_key(targets, typed, key, effects);
                }
                effects.push(Effect::Redraw);
                assert(effects@ =~= before + old(self)@.after_key(key).1);
                return;
            },
            ModeKind::Menu => {
                self.menu_key(key, effects);
            },
        }
        effects.push(Effect::Redraw);
        effects.push(Effect::RedrawGrid);
        assert(effects@ =~= before + old(self)@.after_key(key).1);
    }
}

proof fn lemma_two_more(before: Seq<Effect>, s: Seq<Effect>, a: Effect, b: Effect)
    ensures
        (before + s).push(a).push(b) == before + (s + seq![a, b]),
{
    assert((before + s).push(a).push(b) =~= before + (s + seq![a, b]));
}

proof fn lemma_first_label(targets: Seq<HintTarget>, label: Seq<char>, i: int, j: int)
    requires
        first_with_label(targets, label, i),
        first_with_label(targets, label, j),
    ensures
        i == j,
{
}

/// One of the windows that the grid is drawn on, one for each region.
#[derive(Debug, Clone, Copy)]
pub struct GridRegionWindow {
    /// The key of its region.
    pub coarse: char,
    /// Where its region lies in the grid.
    pub row: usize,
    pub col: usize,
}

/// Where a window of the grid lies on the screen, in pixels.
#[derive(Debug, Clone, Copy, PartialEq, Eq, Structural)]
pub struct Placement {
    pub left: i32,
    pub top: i32,
    pub width: i32,
    pub height: i32,
}

/// The pixel nearest to the left edge of the column `col` of the grid.
pub open spec fn column_edge(screen_w: int, col: int) -> int {
    (2 * (col * screen_w) + grid::COLS) / (2 * grid::COLS)
}

/// The pixel nearest to the upper edge of the row `row` of the grid.
pub open spec fn row_edge(screen_h: int, row: int) -> int {
    (2 * (row * screen_h) + grid::ROWS) / (2 * grid::ROWS)
}

/// The window for the `i`th region, in reading order.
pub open spec fn grid_window(i: int) -> GridRegionWindow {
    GridRegionWindow {
        coarse: grid::key_at(grid::COARSE_KEYS, i / 5, i % 5),
        row: (i / 5) as usize,
        col: (i % 5) as usize,
    }
}

/// Where a window of the grid lies on a screen of the given size: from the edge of its column or row
/// to the next one.
pub open spec fn placed_at(w: GridRegionWindow, screen_w: i32, screen_h: i32) -> Placement {
    let left = column_edge(screen_w as int, w.col as int);
    let top = row_edge(screen_h as int, w.row as int);
    Placement {
        left: left as i32,
        top: top as i32,
        width: (column_edge(screen_w as int, w.col + 1) - left) as i32,
        height: (row_edge(screen_h as int, w.row + 1) - top) as i32,
    }
}

fn floor_div(m: i128, d: i128) -> (r: i128)
    requires
        -0x1000_0000_0000_0000_0000_0000_0000 <= m <= 0x1000_0000_0000_0000_0000_0000_0000,
        0 < d <= 100,
    ensures
        r == m as int / d as int,
{
    if m >= 0 {
        m / d
    } else {
        let q: i128 = (-m + (d - 1)) / d;
        proof {
            let (n, e) = (m as int, d as int);
            assert(-((-n + (e - 1)) / e) == n / e) by (nonlinear_arith)
                requires
                    n < 0,
                    0 < e,
            ;
        }
        -q
    }
}

fn edge_product(i: usize, size: i32) -> (r: i128)
    ensures
        r == i * size,
        -0x8000_0000_0000_0000_0000_0000 <= r <= 0x8000_0000_0000_0000_0000_0000,
{
    assert(-0x8000_0000_0000_0000_0000_0000 <= i * size <= 0x8000_0000_0000_0000_0000_0000)
        by (nonlinear_arith)
        requires
            0 <= i <= 0xffff_ffff_ffff_ffff,
            -0x8000_0000 <= size <= 0x7fff_ffff,
    ;
    i as i128 * size as i128
}

/// Computes [`column_edge`].
pub(crate) fn edge_of_column(screen_w: i32, col: usize) -> (r: i128)
    ensures
        r == column_edge(screen_w as int, col as int),
        -0x1_0000_0000_0000_0000_0000_0000 <= r <= 0x1_0000_0000_0000_0000_0000_0000,
{
    floor_div(2 * edge_product(col, screen_w) + 5, 10)
}

/// Computes [`row_edge`].
pub(crate) fn edge_of_row(screen_h: i32, row: usize) -> (r: i128)
    ensures
        r == row_edge(screen_h as int, row as int),
        -0x1_0000_0000_0000_0000_0000_0000 <= r <= 0x1_0000_0000_0000_0000_0000_0000,
{
    floor_div(2 * edge_product(row, screen_h) + 3, 6)
}

pub(crate) proof fn lemma_edges(size: int, i: int)
    requires
        -0x8000_0000 <= size <= 0x7fff_ffff,
    ensures
        0 <= i <= 5 ==> -0x8000_0000 <= column_edge(size, i) <= 0x7fff_ffff,
        0 <= i < 5 ==> -0x8000_0000 <= column_edge(size, i + 1) - column_edge(size, i)
            <= 0x7fff_ffff,
        0 <= i <= 3 ==> -0x8000_0000 <= row_edge(size, i) <= 0x7fff_ffff,
        0 <= i < 3 ==> -0x8000_0000 <= row_edge(size, i + 1) - row_edge(size, i) <= 0x7fff_ffff,
{
    assert(i == 0 ==> i * size == 0);
    assert(i == 1 ==> i * size == size && (i + 1) * size == 2 * size);
    assert((i + 1) * size == i * size + size) by (nonlinear_arith);
    assert(i == 2 ==> i * size == 2 * size);
    assert(i == 3 ==> i * size == 3 * size);
    assert(i == 4 ==> i * size == 4 * size);
    assert(i == 5 ==> i * size == 5 * size);
}

impl GridRegionWindow {
    /// Where the window lies on a screen of the given size in pixels.
    pub fn place(&self, screen_w: i32, screen_h: i32) -> (p: Placement)
        requires
            self.row < grid::ROWS,
            self.col < grid::COLS,
        ensures
            p == placed_at(*self, screen_w, screen_h),
    {
        let (left, right): (i128, i128) = (
            edge_of_column(screen_w, self.col),
            edge_of_column(screen_w, self.col + 1),
        );
        let (top, bottom): (i128, i128) = (
            edge_of_row(screen_h, self.row),
            edge_of_row(screen_h, self.row + 1),
        );
        proof {
            lemma_edges(screen_w as int, self.col as int);
            lemma_edges(screen_h as int, self.row as int);
        }
        Placement {
            left: left as i32,
            top: top as i32,
            width: (right - left) as i32,
            height: (bottom - top) as i32,
        }
    }
}

/// Position and size of the screen that the overlay is on, in pixels: those of the monitor, if it is
/// known; otherwise the size of the window, and at least a pixel.
pub fn screen_geometry(
    monitor: Option<(i32, i32, i32, i32)>,
    window: (i32, i32),
) -> (g: (i32, i32, i32, i32))
    ensures
        g == match monitor {
            Some(m) => m,
            None => (
                0i32,
                0i32,
                if window.0 < 1 {
                    1i32
                } else {
                    window.0
                },
                if window.1 < 1 {
                    1i32
                } else {
                    window.1
                },
            ),
        },
{
    match monitor {
        Some(m) => m,
        None => {
            let w: i32 = if window.0 < 1 {
                1
            } else {
                window.0
            };
            let h: i32 = if window.1 < 1 {
                1
            } else {
                window.1
            };
            (0, 0, w, h)
        },
    }
}

/// Whether the middle of an element lies within a box.
pub open spec fn centered_within(e: Element, extent: (i64, i64, i64, i64)) -> bool {
    let (cx, cy) = (units::sat(e.x + e.w as int / 2), units::sat(e.y + e.h as int / 2));
    extent.0 <= cx < extent.2 && extent.1 <= cy < extent.3
}

/// The buttons among the elements whose middle lies in a region.
pub open spec fn buttons_in(
    elements: Seq<Element>,
    cells: Seq<Cell>,
    coarse: char,
) -> Seq<Element>
    decreases elements.len(),
{
    if elements.len() == 0 {
        Seq::empty()
    } else {
        let region = grid::region_cells(cells, coarse);
        let rest = buttons_in(elements.drop_first(), cells, coarse);
        if elements[0].category == Category::Button && region.len() > 0 && centered_within(
            elements[0],
            grid::extent(region),
        ) {
            seq![elements[0]] + rest
        } else {
            rest
        }
    }
}

/// The overlay.
#[derive(Debug)]
pub struct Overlay {
    pub state: State,
}

impl Overlay {
    /// A hidden overlay with the given settings.
    pub fn new(settings: Settings) -> (o: Overlay)
        ensures
            o.state@ == (StateView {
                mode: ModeView::Hidden,
                cells: Seq::empty(),
                screen_w: 0,
                screen_h: 0,
                pointer: None,
                settings,
                dash_phase: 0,
                ticket: 0,
                awaited: None,
            }),
    {
        let o: Overlay = Overlay {
            state: State {
                mode: Mode::Hidden,
                cells: Vec::new(),
                screen_w: 0,
                screen_h: 0,
                pointer: None,
                settings,
                dash_phase: 0,
                ticket: 0,
                awaited: None,
            },
        };
        assert(o.state@.cells =~= Seq::<Cell>::empty());
        o
    }

    /// The windows that the grid is drawn on.
    pub fn grid_windows() -> (windows: Vec<GridRegionWindow>)
        ensures
            windows@.len() == grid::REGION_CELLS,
            forall|i: int| 0 <= i < windows@.len() ==> #[trigger] windows@[i] == grid_window(i),
    {
        let mut windows: Vec<GridRegionWindow> = Vec::new();
        let mut i: usize = 0;
        while i < grid::REGION_CELLS
            invariant
                i <= grid::REGION_CELLS,
                windows@.len() == i,
                forall|k: int| 0 <= k < i ==> #[trigger] windows@[k] == grid_window(k),
            decreases grid::REGION_CELLS - i,
        {
            let (row, col): (usize, usize) = (i / 5, i % 5);
            windows.push(GridRegionWindow { coarse: grid::COARSE_KEYS[row][col], row, col });
            i = i + 1;
        }
        windows
    }

    /// Takes in a key that was pressed, and says what is to be done.
    pub fn handle_key(&mut self, key: KeyPress) -> (effects: Vec<Effect>)
        ensures
            final(self).state@ == old(self).state@.after_key(key).0,
            effects@ == old(self).state@.after_key(key).1,
    {
        let mut effects: Vec<Effect> = Vec::new();
        self.state.key(key, &mut effects);
        assert(Seq::<Effect>::empty() + old(self).state@.after_key(key).1 =~= old(
            self,
        ).state@.after_key(key).1);
        effects
    }

    /// Takes in a key that was released, and says what is to be done.
    pub fn handle_key_released(&mut self, keyval: u32) -> (effects: Vec<Effect>)
        ensures
            final(self).state@ == old(self).state@.after_release(keyval).0,
            effects@ == old(self).state@.after_release(keyval).1,
    {
        let mut effects: Vec<Effect> = Vec::new();
        if keyval == KEY_SHIFT_L {
            if let ModeKind::Selected(x, y, true) = self.state.kind() {
                self.state.click_through(PointerOp::Release(BTN_LEFT), &mut effects);
                self.state.mode = Mode::Selected { x, y, holding: false };
                effects.push(Effect::Redraw);
            }
        }
        assert(effects@ =~= old(self).state@.after_release(keyval).1);
        effects
    }

    /// Closes the overlay if it shows anything, or awaits hints that are toggled again, and asks for
    /// it to be shown otherwise.
    fn toggle_for(&mut self, purpose: Purpose) -> (effects: Vec<Effect>)
        ensures
            final(self).state@ == old(self).state@.after_toggle(purpose).0,
            effects@ == old(self).state@.after_toggle(purpose).1,
    {
        let mut effects: Vec<Effect> = Vec::new();
        let hidden: bool = if let ModeKind::Hidden = self.state.kind() {
            true
        } else {
            false
        };
        if hidden && !(purpose == Purpose::Hints && self.state.awaited.is_some()) {
            effects.push(Effect::Present(purpose));
        } else {
            self.state.close(&mut effects);
        }
        assert(effects@ =~= old(self).state@.after_toggle(purpose).1);
        effects
    }

    /// Opens the grid, or closes what is open.
    pub fn toggle(&mut self) -> (effects: Vec<Effect>)
        ensures
            final(self).state@ == old(self).state@.after_toggle(Purpose::Grid).0,
            effects@ == old(self).state@.after_toggle(Purpose::Grid).1,
    {
        self.toggle_for(Purpose::Grid)
    }

    /// Shows hints, or closes what is open.
    pub fn toggle_hints(&mut self) -> (effects: Vec<Effect>)
        ensures
            final(self).state@ == old(self).state@.after_toggle(Purpose::Hints).0,
            effects@ == old(self).state@.after_toggle(Purpose::Hints).1,
    {
        self.toggle_for(Purpose::Hints)
    }

    /// Opens the menu, or closes what is open.
    pub fn toggle_menu(&mut self) -> (effects: Vec<Effect>)
        ensures
            final(self).state@ == old(self).state@.after_toggle(Purpose::Menu).0,
            effects@ == old(self).state@.after_toggle(Purpose::Menu).1,
    {
        self.toggle_for(Purpose::Menu)
    }

    /// Carries out a command to the daemon.
    pub fn command(&mut self, command: Command) -> (effects: Vec<Effect>)
        ensures
            final(self).state@ == old(self).state@.after_command(command).0,
            effects@ == old(self).state@.after_command(command).1,
    {
        match command {
            Command::ToggleGrid => self.toggle(),
            Command::ToggleHints => self.toggle_hints(),
            Command::ToggleMenu => self.toggle_menu(),
            Command::Quit => {
                let mut effects: Vec<Effect> = Vec::new();
                effects.push(Effect::Quit);
                assert(effects@ =~= seq![Effect::Quit]);
                effects
            },
        }
    }

    /// Is told that the overlay is there for the grid, on a screen of the given size in pixels.
    pub fn grid_opened(
        &mut self,
        screen_w: i32,
        screen_h: i32,
        pointer: Option<VirtualPointer>,
    ) -> (effects: Vec<Effect>)
        ensures
            final(self).state@ == (StateView {
                mode: ModeView::TypingCoarse,
                cells: grid::grid_cells(screen_w, screen_h),
                screen_w,
                screen_h,
                pointer,
                awaited: None,
                ..old(self).state@
            }),
            effects@ == seq![
                Effect::SetKeyboard(KeyboardMode::OnDemand),
                Effect::Redraw,
                Effect::RedrawGrid,
            ],
    {
        self.state.screen_w = screen_w;
        self.state.screen_h = screen_h;
        self.state.cells = grid::build_grid(screen_w, screen_h);
        self.state.mode = Mode::TypingCoarse;
        self.state.pointer = pointer;
        self.state.awaited = None;
        let mut effects: Vec<Effect> = Vec::new();
        effects.push(Effect::SetKeyboard(KeyboardMode::OnDemand));
        effects.push(Effect::Redraw);
        effects.push(Effect::RedrawGrid);
        assert(effects@ =~= seq![
            Effect::SetKeyboard(KeyboardMode::OnDemand),
            Effect::Redraw,
            Effect::RedrawGrid,
        ]);
        effects
    }

    /// Is told that the overlay is there for hints, on a screen of the given size in pixels. The mode
    /// changes only once targets have been found.
    pub fn hints_opened(
        &mut self,
        screen_w: i32,
        screen_h: i32,
        pointer: Option<VirtualPointer>,
    ) -> (effects: Vec<Effect>)
        ensures
            final(self).state@ == old(self).state@.after_hints_opened(screen_w, screen_h, pointer).0,
            effects@ == old(self).state@.after_hints_opened(screen_w, screen_h, pointer).1,
    {
        self.state.take_ticket();
        self.state.screen_w = screen_w;
        self.state.screen_h = screen_h;
        self.state.pointer = pointer;
        self.state.awaited = Some(self.state.ticket);
        let mut effects: Vec<Effect> = Vec::new();
        effects.push(Effect::SetKeyboard(KeyboardMode::OnDemand));
        effects.push(Effect::ScanHints { ticket: self.state.ticket });
        assert(effects@ =~= old(self).state@.after_hints_opened(screen_w, screen_h, pointer).1);
        effects
    }

    /// Is told that the overlay is there for the menu.
    pub fn menu_opened(&mut self) -> (effects: Vec<Effect>)
        ensures
            final(self).state@ == (StateView {
                mode: ModeView::Menu,
                awaited: None,
                ..old(self).state@
            }),
            effects@ == seq![Effect::SetKeyboard(KeyboardMode::OnDemand), Effect::Redraw],
    {
        self.state.mode = Mode::Menu;
        self.state.awaited = None;
        let mut effects: Vec<Effect> = Vec::new();
        effects.push(Effect::SetKeyboard(KeyboardMode::OnDemand));
        effects.push(Effect::Redraw);
        assert(effects@ =~= seq![Effect::SetKeyboard(KeyboardMode::OnDemand), Effect::Redraw]);
        effects
    }

    /// Is told what a scan has found on the screen, and shows it. A scan that is not awaited any more
    /// changes nothing: the overlay was closed in the meantime, or shows something else.
    pub fn hints_found(
        &mut self,
        ticket: u64,
        elements: Vec<Element>,
        regions: Vec<VisionRegion>,
    ) -> (effects: Vec<Effect>)
        ensures
            old(self).state.awaited == Some(ticket) ==> {
                &&& final(self).state.mode@ matches ModeView::Hints { targets, typed }
                    && typed.len() == 0 && hints::are_labeled(
                    targets,
                    hints::sources(elements@, regions@),
                )
                &&& final(self).state@ == StateView {
                    mode: final(self).state.mode@,
                    awaited: None,
                    ..old(self).state@
                }
                &&& effects@ == seq![Effect::Redraw]
            },
            old(self).state.awaited != Some(ticket) ==> final(self).state@ == old(self).state@
                && effects@.len() == 0,
    {
        let mut effects: Vec<Effect> = Vec::new();
        let due: bool = match self.state.awaited {
            Some(awaited) => awaited == ticket,
            None => false,
        };
        if !due {
            return effects;
        }
        let targets: Vec<HintTarget> = hints::assign_labels(elements, regions);
        self.state.mode = Mode::Hints { targets, typed: String::new() };
        self.state.awaited = None;
        effects.push(Effect::Redraw);
        assert(effects@ =~= seq![Effect::Redraw]);
        effects
    }

    /// Lets the dashes move on, if anything is shown.
    pub fn tick(&mut self) -> (effects: Vec<Effect>)
        ensures
            final(self).state@ == old(self).state@.after_tick().0,
            effects@ == old(self).state@.after_tick().1,
    {
        let mut effects: Vec<Effect> = Vec::new();
        if let ModeKind::Hidden = self.state.kind() {
            assert(effects@ =~= Seq::<Effect>::empty());
            return effects;
        }
        let length: u32 = DASH_TENTHS + DASH_GAP_TENTHS;
        let ghost phase = self.state.dash_phase;
        assert((phase % 70 + 6) % 70 == (phase + 6) % 70);
        self.state.dash_phase = (self.state.dash_phase % length + DASH_STEP_TENTHS) % length;
        effects.push(Effect::Redraw);
        effects.push(Effect::RedrawGrid);
        assert(effects@ =~= seq![Effect::Redraw, Effect::RedrawGrid]);
        effects
    }

    /// Is told whether the overlay has the focus. Whatever the mouse hovers over can take the
    /// keyboard away; as long as anything is shown, the overlay takes it back.
    pub fn focus_changed(&self, active: bool) -> (effects: Vec<Effect>)
        ensures
            effects@ == if !active && !(self.state.mode@ is Hidden) {
                seq![Effect::SetKeyboard(KeyboardMode::OnDemand)]
            } else {
                Seq::empty()
            },
    {
        let mut effects: Vec<Effect> = Vec::new();
        let hidden: bool = if let ModeKind::Hidden = self.state.kind() {
            true
        } else {
            false
        };
        if !active && !hidden {
            effects.push(Effect::SetKeyboard(KeyboardMode::OnDemand));
            assert(effects@ =~= seq![Effect::SetKeyboard(KeyboardMode::OnDemand)]);
        } else {
            assert(effects@ =~= Seq::<Effect>::empty());
        }
        effects
    }
}

fn pick_buttons(
    elements: Vec<Element>,
    cells: &Vec<Cell>,
    coarse: char,
) -> (buttons: Vec<Element>)
    ensures
        buttons@ == buttons_in(elements@, cells@, coarse),
{
    let ghost all = elements@;
    let mut buttons: Vec<Element> = Vec::new();
    let extent: (i64, i64, i64, i64) = match grid::region_extent(cells, coarse) {
        Some(extent) => extent,
        None => {
            proof {
                lemma_no_region(all, cells@, coarse);
                assert(buttons@ =~= buttons_in(all, cells@, coarse));
            }
            return buttons;
        },
    };
    let mut rest: Vec<Element> = elements;
    assert(buttons@ + buttons_in(rest@, cells@, coarse) =~= buttons_in(all, cells@, coarse));
    while rest.len() > 0
        invariant
            grid::region_cells(cells@, coarse).len() > 0,
            extent == grid::extent(grid::region_cells(cells@, coarse)),
            buttons@ + buttons_in(rest@, cells@, coarse) == buttons_in(all, cells@, coarse),
        decreases rest.len(),
    {
        let ghost before = buttons@;
        let ghost remaining = rest@;
        let e: Element = rest.remove(0);
        assert(rest@ =~= remaining.drop_first());
        let (cx, cy): (i64, i64) = e.center();
        if e.category == Category::Button && extent.0 <= cx && cx < extent.2 && extent.1 <= cy && cy
            < extent.3 {
            buttons.push(e);
            assert(buttons@ + buttons_in(rest@, cells@, coarse) =~= before + buttons_in(
                remaining,
                cells@,
                coarse,
            ));
        }
    }
    assert(buttons@ =~= buttons_in(all, cells@, coarse));
    buttons
}

proof fn lemma_no_region(elements: Seq<Element>, cells: Seq<Cell>, coarse: char)
    requires
        grid::region_cells(cells, coarse).len() == 0,
    ensures
        buttons_in(elements, cells, coarse).len() == 0,
    decreases elements.len(),
{
    if elements.len() > 0 {
        lemma_no_region(elements.drop_first(), cells, coarse);
    }
}

impl Overlay {
    /// Is told which elements were found in the background after a coarse key. If no key has come in
    /// since, the buttons of the region matter: a single one is clicked right away, several are
    /// shown as hints, and without one the grid stays as it is.
    pub fn region_scanned(&mut self, ticket: u64, elements: Vec<Element>) -> (effects: Vec<Effect>)
        ensures
            ({
                let s = old(self).state@;
                let buttons = s.awaited_buttons(ticket, elements@);
                if buttons.len() == 0 {
                    final(self).state@ == s && effects@.len() == 0
                } else if buttons.len() == 1 {
                    let (cx, cy) = hints::center_of(hints::Source::Atspi(buttons[0]));
                    &&& final(self).state@ == s.closed()
                    &&& effects@ == s.pointed(s.warp(cx, cy)) + seq![Effect::HideGridWindows]
                        + s.click_and_close() + seq![Effect::Redraw]
                } else {
                    &&& final(self).state.mode@ matches ModeView::Hints { targets, typed }
                        && typed.len() == 0 && hints::are_labeled(
                        targets,
                        hints::sources(buttons, Seq::empty()),
                    )
                    &&& final(self).state@ == StateView { mode: final(self).state.mode@, ..s }
                    &&& effects@ == seq![Effect::HideGridWindows, Effect::Redraw]
                }
            }),
    {
        let ghost s = self.state@;
        let ghost found = elements@;
        let mut effects: Vec<Effect> = Vec::new();
        if ticket != self.state.ticket {
            return effects;
        }
        let coarse: char = match self.state.kind() {
            ModeKind::TypingFine(c) => c,
            _ => {
                return effects;
            },
        };
        let buttons: Vec<Element> = pick_buttons(elements, &self.state.cells, coarse);
        assert(buttons@ == s.awaited_buttons(ticket, found));
        if buttons.len() == 0 {
            return effects;
        }
        if buttons.len() == 1 {
            let (cx, cy): (i64, i64) = buttons[0].center();
            self.state.point(self.state.warp(cx, cy), &mut effects);
            effects.push(Effect::HideGridWindows);
            self.state.click_and_close(&mut effects);
            effects.push(Effect::Redraw);
            proof {
                let moved = s.pointed(s.warp(cx, cy));
                let clicked = s.click_and_close();
                assert(Seq::<Effect>::empty() + moved =~= moved);
                assert(moved.push(Effect::HideGridWindows) =~= moved + seq![
                    Effect::HideGridWindows,
                ]);
                let all = moved + seq![Effect::HideGridWindows] + clicked;
                assert(all.push(Effect::Redraw) =~= all + seq![Effect::Redraw]);
            }
            return effects;
        }
        let none: Vec<VisionRegion> = Vec::new();
        assert(none@ =~= Seq::<VisionRegion>::empty());
        let targets: Vec<HintTarget> = hints::assign_labels(buttons, none);
        self.state.mode = Mode::Hints { targets, typed: String::new() };
        effects.push(Effect::HideGridWindows);
        effects.push(Effect::Redraw);
        assert(effects@ =~= seq![Effect::HideGridWindows, Effect::Redraw]);
        effects
    }
}

impl StateView {
    /// The buttons of the chosen region among elements that were asked for with a ticket; none if a
    /// key has come in since.
    pub open spec fn awaited_buttons(self, ticket: u64, elements: Seq<Element>) -> Seq<Element> {
        match self.mode {
            ModeView::TypingFine(coarse) if ticket == self.ticket => buttons_in(
                elements,
                self.cells,
                coarse,
            ),
            _ => Seq::empty(),
        }
    }

    /// What the opening of the overlay for hints does: a scan is asked for, with a ticket of its own.
    pub open spec fn after_hints_opened(
        self,
        screen_w: i32,
        screen_h: i32,
        pointer: Option<VirtualPointer>,
    ) -> (StateView, Seq<Effect>) {
        let ticket = next_ticket(self.ticket);
        (
            StateView { screen_w, screen_h, pointer, ticket, awaited: Some(ticket), ..self },
            seq![
                Effect::SetKeyboard(KeyboardMode::OnDemand),
                Effect::ScanHints { ticket },
            ],
        )
    }

    /// What a toggle does: whatever is shown is closed, and otherwise the overlay is asked for. Hints
    /// that are awaited are called off by a second toggle, as if they were shown.
    pub open spec fn after_toggle(self, purpose: Purpose) -> (StateView, Seq<Effect>) {
        if self.mode is Hidden && !(purpose == Purpose::Hints && self.awaited is Some) {
            (self, seq![Effect::Present(purpose)])
        } else {
            (self.closed(), self.closing())
        }
    }

    /// What a command to the daemon does.
    pub open spec fn after_command(self, command: Command) -> (StateView, Seq<Effect>) {
        match command {
            Command::ToggleGrid => self.after_toggle(Purpose::Grid),
            Command::ToggleHints => self.after_toggle(Purpose::Hints),
            Command::ToggleMenu => self.after_toggle(Purpose::Menu),
            Command::Quit => (self, seq![Effect::Quit]),
        }
    }

    /// What the passing of time does.
    pub open spec fn after_tick(self) -> (StateView, Seq<Effect>) {
        if self.mode is Hidden {
            (self, Seq::empty())
        } else {
            let length = DASH_TENTHS + DASH_GAP_TENTHS;
            (
                StateView {
                    dash_phase: ((self.dash_phase + DASH_STEP_TENTHS) % length) as u32,
                    ..self
                },
                seq![Effect::Redraw, Effect::RedrawGrid],
            )
        }
    }
}

} // verus!
