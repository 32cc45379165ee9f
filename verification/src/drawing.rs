//! What the overlay draws, as a list of steps for a vector graphics library.
//!
//! Positions and sizes are in subpixels, colors in per cent, widths of lines and dashes in tenths of
//! a pixel.

use vstd::prelude::*;

use crate::atspi_scan::Category;
use crate::cheat_sheet::{CHEAT_LINES, CHEAT_SHEET};
use crate::config::Settings;
use crate::grid::{self, Cell};
use crate::hints::{self, HintTarget, Source};
use crate::overlay::{self, Mode, ModeView, State, StateView};
use crate::text;
use crate::units::{self, SUBPIXELS};

verus! {

pub const NO_HINTS_MESSAGE: &'static str =
    "omg-keys: no hintable elements found here \u{2014} try Right Shift/Super for grid mode instead \u{2014} Esc to close";

pub const MENU_TITLE: &'static str = "omg-keys";

pub const ADJUST_KEYS: &'static str = "+ / -";

pub const CLOSE_HINT: &'static str = "Esc to close";

pub const NUDGE_PREFIX: &'static str = "Nudge speed: ";

pub const NUDGE_SUFFIX: &'static str = "px per press";

/// A color and how much of it covers what is below, in per cent.
#[derive(Debug, Clone, Copy, PartialEq, Eq, Structural)]
pub struct Color {
    pub r: u8,
    pub g: u8,
    pub b: u8,
    pub a: u8,
}

/// A text.
#[derive(Debug, Clone, Copy, PartialEq, Eq, Structural)]
pub enum Text {
    /// A single character.
    Letter(char),
    /// The key of a line of the cheat sheet.
    CheatKey(usize),
    /// What that key does.
    CheatAction(usize),
    MenuTitle,
    AdjustKeys,
    NudgeSpeed(Settings),
    CloseHint,
    NoHints,
}

/// A step of a drawing.
#[derive(Debug, Clone, Copy, PartialEq, Eq, Structural)]
pub enum Op {
    /// Draw in this color from now on.
    Source(Color),
    /// Cover everything.
    Paint,
    /// Add a rectangle to the path.
    Rectangle { x: i64, y: i64, w: i64, h: i64 },
    /// Add a rectangle with rounded corners to the path.
    RoundedRect { x: i64, y: i64, w: i64, h: i64, r: i64 },
    MoveTo { x: i64, y: i64 },
    LineTo { x: i64, y: i64 },
    ClosePath,
    /// Draw the path, fill it, or fill it and keep it.
    Stroke,
    Fill,
    FillPreserve,
    LineWidth(u32),
    /// Draw lines as moving dashes, with the pattern this far along.
    Dashes(u32),
    /// Draw lines in full.
    Solid,
    /// Write in bold letters, or in normal ones.
    Font { bold: bool },
    FontSize(u32),
    /// Write where the path is.
    Show(Text),
    /// Write with the middle of the text here.
    Centered { text: Text, x: i64, y: i64 },
}

impl Text {
    /// What the text says. Only lines of the cheat sheet that there are can be asked for.
    pub open spec fn says(self) -> Seq<char> {
        match self {
            Text::Letter(c) => seq![c],
            Text::CheatKey(i) => CHEAT_SHEET[i as int].0@,
            Text::CheatAction(i) => CHEAT_SHEET[i as int].1@,
            Text::MenuTitle => MENU_TITLE@,
            Text::AdjustKeys => ADJUST_KEYS@,
            Text::NudgeSpeed(settings) => NUDGE_PREFIX@ + settings.nudge_text() + NUDGE_SUFFIX@,
            Text::CloseHint => CLOSE_HINT@,
            Text::NoHints => NO_HINTS_MESSAGE@,
        }
    }

    /// Whether the text exists.
    pub open spec fn wf(self) -> bool {
        match self {
            Text::CheatKey(i) => i < CHEAT_LINES,
            Text::CheatAction(i) => i < CHEAT_LINES,
            _ => true,
        }
    }

    /// The text in full.
    pub fn content(&self) -> (s: String)
        requires
            self.wf(),
        ensures
            s@ == self.says(),
    {
        match *self {
            Text::Letter(c) => text::of_char(c),
            Text::CheatKey(i) => CHEAT_SHEET[i].0.to_owned(),
            Text::CheatAction(i) => CHEAT_SHEET[i].1.to_owned(),
            Text::MenuTitle => MENU_TITLE.to_owned(),
            Text::AdjustKeys => ADJUST_KEYS.to_owned(),
            Text::NudgeSpeed(settings) => {
                let mut s: String = NUDGE_PREFIX.to_owned();
                s.append(settings.nudge_pixels().as_str());
                s.append(NUDGE_SUFFIX);
                s
            },
            Text::CloseHint => CLOSE_HINT.to_owned(),
            Text::NoHints => NO_HINTS_MESSAGE.to_owned(),
        }
    }
}

/// How large a text comes out, in subpixels: the size of its letters, and where they begin as seen
/// from where the text is written.
#[derive(Debug, Clone, Copy, PartialEq, Eq, Structural)]
pub struct Extents {
    pub width: i64,
    pub height: i64,
    pub x_bearing: i64,
    pub y_bearing: i64,
}

impl Extents {
    /// Where a text is to be written for its middle to be at `(cx, cy)`.
    pub fn centered(&self, cx: i64, cy: i64) -> (at: (i64, i64))
        ensures
            at.0 == units::sat(units::sat(cx - self.width as int / 2) - self.x_bearing),
            at.1 == units::sat(units::sat(cy - self.height as int / 2) - self.y_bearing),
    {
        (
            units::minus(units::minus(cx, units::half(self.width)), self.x_bearing),
            units::minus(units::minus(cy, units::half(self.height)), self.y_bearing),
        )
    }
}

/// A quarter of a circle, clockwise: its center and radius, and the quarter turn at which it begins,
/// counted from the right.
#[derive(Debug, Clone, Copy, PartialEq, Eq, Structural)]
pub struct Corner {
    pub x: i64,
    pub y: i64,
    pub r: i64,
    pub from: i32,
}

/// The corners of a rectangle with rounded ones, clockwise from the top right.
pub open spec fn corners_of(x: i64, y: i64, w: i64, h: i64, r: i64) -> Seq<Corner> {
    let (left, top) = (units::sat(x + r), units::sat(y + r));
    let (right, bottom) = (units::sat(units::sat(x + w) - r), units::sat(units::sat(y + h) - r));
    seq![
        Corner { x: right, y: top, r, from: -1i32 },
        Corner { x: right, y: bottom, r, from: 0 },
        Corner { x: left, y: bottom, r, from: 1 },
        Corner { x: left, y: top, r, from: 2 },
    ]
}

/// The corners of a rectangle with rounded ones; straight lines join them.
pub fn rounded_rect(x: i64, y: i64, w: i64, h: i64, r: i64) -> (corners: Vec<Corner>)
    ensures
        corners@ == corners_of(x, y, w, h, r),
{
    let (left, top): (i64, i64) = (units::plus(x, r), units::plus(y, r));
    let (right, bottom): (i64, i64) = (
        units::minus(units::plus(x, w), r),
        units::minus(units::plus(y, h), r),
    );
    let mut corners: Vec<Corner> = Vec::new();
    corners.push(Corner { x: right, y: top, r, from: -1 });
    corners.push(Corner { x: right, y: bottom, r, from: 0 });
    corners.push(Corner { x: left, y: bottom, r, from: 1 });
    corners.push(Corner { x: left, y: top, r, from: 2 });
    assert(corners@ =~= corners_of(x, y, w, h, r));
    corners
}

/// A color that covers everything below it, but for `a` per cent.
pub open spec fn color(r: u8, g: u8, b: u8, a: u8) -> Op {
    Op::Source(Color { r, g, b, a })
}

fn source(r: u8, g: u8, b: u8, a: u8) -> (op: Op)
    ensures
        op == color(r, g, b, a),
{
    Op::Source(Color { r, g, b, a })
}

/// Whole pixels in subpixels.
pub open spec fn px(n: int) -> int {
    n * 450
}

/// The color of a target: regions of a screenshot have a bright one of their own, since they are
/// hard to spot.
pub open spec fn target_color(s: Source) -> (u8, u8, u8) {
    match s {
        Source::Vision(_) => (100u8, 15u8, 75u8),
        Source::Atspi(e) => match e.category {
            Category::Button => (20u8, 90u8, 30u8),
            Category::TextField => (30u8, 60u8, 100u8),
            Category::Scrollable => (100u8, 60u8, 10u8),
            Category::Terminal => (80u8, 30u8, 100u8),
            Category::Other => (70u8, 70u8, 70u8),
        },
    }
}

fn color_of(t: &HintTarget) -> (c: (u8, u8, u8))
    ensures
        c == target_color(t.source),
{
    match &t.source {
        Source::Vision(_) => (100, 15, 75),
        Source::Atspi(e) => match e.category {
            Category::Button => (20, 90, 30),
            Category::TextField => (30, 60, 100),
            Category::Scrollable => (100, 60, 10),
            Category::Terminal => (80, 30, 100),
            Category::Other => (70, 70, 70),
        },
    }
}

/// Height of a label, space beside its text, width of a character, and distance from the target.
pub const BUBBLE_H: i64 = 9000;

pub const BUBBLE_PAD_X: i64 = 2700;

pub const BUBBLE_CHAR_W: i64 = 4050;

pub const BUBBLE_GAP: i64 = 7200;

/// How near a label may come to the edge of the screen.
pub const BUBBLE_MARGIN: i64 = 900;

/// Where a label is drawn: beside its target, so as not to hide it.
#[derive(Debug, Clone, Copy, PartialEq, Eq, Structural)]
pub struct Bubble {
    pub x: i64,
    pub y: i64,
    pub w: i64,
    /// Whether it lies above its target.
    pub above: bool,
    /// The ends of the arrow to the target.
    pub arrow_from_x: i64,
    pub arrow_from_y: i64,
    pub arrow_to_x: i64,
    pub arrow_to_y: i64,
}

/// `v` between two bounds; the lower one counts first.
pub open spec fn clamped(v: i64, lo: i64, hi: i64) -> i64 {
    if v < lo {
        lo
    } else if v > hi {
        hi
    } else {
        v
    }
}

fn clamp(v: i64, lo: i64, hi: i64) -> (r: i64)
    ensures
        r == clamped(v, lo, hi),
{
    if v < lo {
        lo
    } else if v > hi {
        hi
    } else {
        v
    }
}

/// Where the label of `n` characters of a target goes, on a screen of the given size: above the
/// target if there is room, below it otherwise, and on the screen in any case. A target as high as
/// the screen has no room on either side.
pub open spec fn bubble_of(
    n: nat,
    target: (i64, i64, i64, i64),
    screen_w: i64,
    screen_h: i64,
) -> Bubble {
    let (x, y, w, h) = target;
    let bubble_w = units::sat(BUBBLE_CHAR_W * n + 2 * BUBBLE_PAD_X);
    let cx = units::sat(x + w as int / 2);
    let over = units::sat(y - (BUBBLE_GAP + BUBBLE_H));
    let bottom = units::sat(y + h);
    let above = over >= px(4);
    let natural_y = if above {
        over
    } else {
        units::sat(bottom + BUBBLE_GAP)
    };
    let by = clamped(
        natural_y,
        BUBBLE_MARGIN,
        overlay::at_least(units::sat(screen_h - (BUBBLE_H + BUBBLE_MARGIN)), BUBBLE_MARGIN),
    );
    let bx = clamped(
        units::sat(cx - bubble_w as int / 2),
        BUBBLE_MARGIN,
        overlay::at_least(
            units::sat(units::sat(screen_w - bubble_w) - BUBBLE_MARGIN),
            BUBBLE_MARGIN,
        ),
    );
    Bubble {
        x: bx,
        y: by,
        w: bubble_w,
        above,
        arrow_from_x: clamped(cx, units::sat(bx + px(6)), units::sat(bx + units::sat(bubble_w - px(6)))),
        arrow_from_y: if above {
            units::sat(by + BUBBLE_H)
        } else {
            by
        },
        arrow_to_x: cx,
        arrow_to_y: if above {
            y
        } else {
            bottom
        },
    }
}

/// Where the label of a target goes.
pub fn place_bubble(
    n: usize,
    target: (i64, i64, i64, i64),
    screen_w: i64,
    screen_h: i64,
) -> (b: Bubble)
    ensures
        b == bubble_of(n as nat, target, screen_w, screen_h),
{
    let (x, y, w, h) = target;
    let length: i128 = BUBBLE_CHAR_W as i128 * n as i128 + 2 * BUBBLE_PAD_X as i128;
    let bubble_w: i64 = if length > i64::MAX as i128 {
        i64::MAX
    } else {
        length as i64
    };
    let cx: i64 = units::plus(x, units::half(w));
    let over: i64 = units::minus(y, BUBBLE_GAP + BUBBLE_H);
    let bottom: i64 = units::plus(y, h);
    let above: bool = over >= 1800;
    let natural_y: i64 = if above {
        over
    } else {
        units::plus(bottom, BUBBLE_GAP)
    };
    let lowest: i64 = units::minus(screen_h, BUBBLE_H + BUBBLE_MARGIN);
    let rightmost: i64 = units::minus(units::minus(screen_w, bubble_w), BUBBLE_MARGIN);
    let by: i64 = clamp(
        natural_y,
        BUBBLE_MARGIN,
        if lowest < BUBBLE_MARGIN {
            BUBBLE_MARGIN
        } else {
            lowest
        },
    );
    let bx: i64 = clamp(
        units::minus(cx, units::half(bubble_w)),
        BUBBLE_MARGIN,
        if rightmost < BUBBLE_MARGIN {
            BUBBLE_MARGIN
        } else {
            rightmost
        },
    );
    Bubble {
        x: bx,
        y: by,
        w: bubble_w,
        above,
        arrow_from_x: clamp(cx, units::plus(bx, 2700), units::plus(bx, units::minus(bubble_w, 2700))),
        arrow_from_y: if above {
            units::plus(by, BUBBLE_H)
        } else {
            by
        },
        arrow_to_x: cx,
        arrow_to_y: if above {
            y
        } else {
            bottom
        },
    }
}

/// A label lies on the screen, wherever its target is, if the screen is large enough for it.
pub proof fn labels_stay_on_the_screen(
    n: nat,
    target: (i64, i64, i64, i64),
    screen_w: i64,
    screen_h: i64,
)
    requires
        screen_h >= BUBBLE_H + 2 * BUBBLE_MARGIN,
        screen_w >= BUBBLE_CHAR_W * n + 2 * BUBBLE_PAD_X + 2 * BUBBLE_MARGIN,
    ensures
        ({
            let b = bubble_of(n, target, screen_w, screen_h);
            &&& BUBBLE_MARGIN <= b.x
            &&& b.x + b.w <= screen_w - BUBBLE_MARGIN
            &&& BUBBLE_MARGIN <= b.y
            &&& b.y + BUBBLE_H <= screen_h - BUBBLE_MARGIN
        }),
{
}

/// The head of an arrow at a point, from above or from below.
pub open spec fn arrowhead(x: i64, y: i64, from_above: bool, c: (u8, u8, u8)) -> Seq<Op> {
    let base = if from_above {
        units::sat(y - px(4))
    } else {
        units::sat(y + px(4))
    };
    seq![
        color(c.0, c.1, c.2, 90),
        Op::MoveTo { x, y },
        Op::LineTo { x: units::sat(x - px(4)), y: base },
        Op::LineTo { x: units::sat(x + px(4)), y: base },
        Op::ClosePath,
        Op::Fill,
    ]
}

fn draw_arrowhead(x: i64, y: i64, from_above: bool, c: (u8, u8, u8), ops: &mut Vec<Op>)
    ensures
        final(ops)@ == old(ops)@ + arrowhead(x, y, from_above, c),
{
    let ghost before = ops@;
    let base: i64 = if from_above {
        units::minus(y, 1800)
    } else {
        units::plus(y, 1800)
    };
    ops.push(source(c.0, c.1, c.2, 90));
    ops.push(Op::MoveTo { x, y });
    ops.push(Op::LineTo { x: units::minus(x, 1800), y: base });
    ops.push(Op::LineTo { x: units::plus(x, 1800), y: base });
    ops.push(Op::ClosePath);
    ops.push(Op::Fill);
    assert(ops@ =~= before + arrowhead(x, y, from_above, c));
}

/// The first `n` characters of a label: those already typed in one color, the others in another.
pub open spec fn label_letters(
    label: Seq<char>,
    typed: nat,
    x: int,
    y: int,
    n: nat,
) -> Seq<Op>
    decreases n,
{
    if n == 0 {
        Seq::empty()
    } else {
        label_letters(label, typed, x, y, (n - 1) as nat) + seq![
            if n - 1 < typed {
                color(100, 85, 20, 100)
            } else {
                color(100, 100, 100, 100)
            },
            Op::MoveTo { x: units::sat(x + (n - 1) * BUBBLE_CHAR_W), y: units::sat(y) },
            Op::Show(Text::Letter(label[n - 1])),
        ]
    }
}

/// The label of a target: an arrow to the target, a box, and the characters in it.
pub open spec fn bubble_ops(
    label: Seq<char>,
    typed: nat,
    target: (i64, i64, i64, i64),
    c: (u8, u8, u8),
    screen_w: i64,
    screen_h: i64,
) -> Seq<Op> {
    let b = bubble_of(label.len(), target, screen_w, screen_h);
    seq![
        color(c.0, c.1, c.2, 90),
        Op::LineWidth(15),
        Op::MoveTo { x: b.arrow_from_x, y: b.arrow_from_y },
        Op::LineTo { x: b.arrow_to_x, y: b.arrow_to_y },
        Op::Stroke,
    ] + arrowhead(b.arrow_to_x, b.arrow_to_y, b.above, c) + seq![
        Op::RoundedRect { x: b.x, y: b.y, w: b.w, h: BUBBLE_H, r: px(5) as i64 },
        color(5, 5, 5, 92),
        Op::FillPreserve,
        color(c.0, c.1, c.2, 90),
        Op::LineWidth(10),
        Op::Stroke,
    ] + label_letters(
        label,
        typed,
        b.x + BUBBLE_PAD_X,
        b.y + BUBBLE_H - px(6),
        label.len(),
    )
}

fn sat_of(v: i128) -> (r: i64)
    ensures
        r == units::sat(v as int),
{
    if v > i64::MAX as i128 {
        i64::MAX
    } else if v < i64::MIN as i128 {
        i64::MIN
    } else {
        v as i64
    }
}

/// Draws the label of a target beside it.
pub fn draw_label_bubble(
    label: &String,
    typed_count: usize,
    target: (i64, i64, i64, i64),
    c: (u8, u8, u8),
    screen_w: i64,
    screen_h: i64,
    ops: &mut Vec<Op>,
)
    ensures
        final(ops)@ == old(ops)@ + bubble_ops(
            label@,
            typed_count as nat,
            target,
            c,
            screen_w,
            screen_h,
        ),
{
    let ghost before = ops@;
    let n: usize = label.as_str().unicode_len();
    let b: Bubble = place_bubble(n, target, screen_w, screen_h);
    ops.push(source(c.0, c.1, c.2, 90));
    ops.push(Op::LineWidth(15));
    ops.push(Op::MoveTo { x: b.arrow_from_x, y: b.arrow_from_y });
    ops.push(Op::LineTo { x: b.arrow_to_x, y: b.arrow_to_y });
    ops.push(Op::Stroke);
    draw_arrowhead(b.arrow_to_x, b.arrow_to_y, b.above, c, ops);
    ops.push(Op::RoundedRect { x: b.x, y: b.y, w: b.w, h: BUBBLE_H, r: 2250 });
    ops.push(source(5, 5, 5, 92));
    ops.push(Op::FillPreserve);
    ops.push(source(c.0, c.1, c.2, 90));
    ops.push(Op::LineWidth(10));
    ops.push(Op::Stroke);
    let ghost frame = ops@;
    let (tx, ty): (i128, i128) = (
        b.x as i128 + BUBBLE_PAD_X as i128,
        b.y as i128 + BUBBLE_H as i128 - 2700,
    );
    let mut i: usize = 0;
    assert(frame + label_letters(label@, typed_count as nat, tx as int, ty as int, 0) =~= frame);
    while i < n
        invariant
            i <= n,
            n == label@.len(),
            -0x1_0000_0000_0000_0000 <= tx <= 0x1_0000_0000_0000_0000,
            ops@ == frame + label_letters(
                label@,
                typed_count as nat,
                tx as int,
                ty as int,
                i as nat,
            ),
        decreases n - i,
    {
        if i < typed_count {
            ops.push(source(100, 85, 20, 100));
        } else {
            ops.push(source(100, 100, 100, 100));
        }
        ops.push(
            Op::MoveTo { x: sat_of(tx + i as i128 * BUBBLE_CHAR_W as i128), y: sat_of(ty) },
        );
        ops.push(Op::Show(Text::Letter(label.as_str().get_char(i))));
        assert(ops@ =~= frame + label_letters(
            label@,
            typed_count as nat,
            tx as int,
            ty as int,
            (i + 1) as nat,
        ));
        i = i + 1;
    }
    proof {
        assert(ops@ =~= before + bubble_ops(
            label@,
            typed_count as nat,
            target,
            c,
            screen_w,
            screen_h,
        ));
    }
}

/// The outline of a target, and its label if that goes on from what has been typed.
pub open spec fn target_ops(
    t: HintTarget,
    typed: Seq<char>,
    screen_w: i64,
    screen_h: i64,
    phase: u32,
) -> Seq<Op> {
    let c = target_color(t.source);
    let (x, y, w, h) = hints::geometry_of(t.source);
    let matches = hints::begins(typed, t.label@);
    seq![
        color(
            c.0,
            c.1,
            c.2,
            if matches {
                95
            } else {
                15
            },
        ),
        Op::LineWidth(20),
        if t.source is Vision {
            Op::Dashes(phase)
        } else {
            Op::Solid
        },
        Op::Rectangle { x, y, w, h },
        Op::Stroke,
        Op::Solid,
    ] + if matches {
        bubble_ops(t.label@, typed.len(), (x, y, w, h), c, screen_w, screen_h)
    } else {
        Seq::empty()
    }
}

fn draw_target(
    t: &HintTarget,
    typed: &String,
    screen_w: i64,
    screen_h: i64,
    phase: u32,
    ops: &mut Vec<Op>,
)
    ensures
        final(ops)@ == old(ops)@ + target_ops(*t, typed@, screen_w, screen_h, phase),
{
    let ghost before = ops@;
    let c: (u8, u8, u8) = color_of(t);
    let (x, y, w, h) = t.geometry();
    let matches: bool = overlay::goes_on(&t.label, typed);
    let vision: bool = match &t.source {
        Source::Vision(_) => true,
        Source::Atspi(_) => false,
    };
    ops.push(
        source(
            c.0,
            c.1,
            c.2,
            if matches {
                95
            } else {
                15
            },
        ),
    );
    ops.push(Op::LineWidth(20));
    ops.push(
        if vision {
            Op::Dashes(phase)
        } else {
            Op::Solid
        },
    );
    ops.push(Op::Rectangle { x, y, w, h });
    ops.push(Op::Stroke);
    ops.push(Op::Solid);
    if matches {
        draw_label_bubble(
            &t.label,
            typed.as_str().unicode_len(),
            (x, y, w, h),
            c,
            screen_w,
            screen_h,
            ops,
        );
    }
    assert(ops@ =~= before + target_ops(*t, typed@, screen_w, screen_h, phase));
}

/// The first `n` targets.
pub open spec fn hints_ops(
    targets: Seq<HintTarget>,
    typed: Seq<char>,
    screen_w: i64,
    screen_h: i64,
    phase: u32,
    n: nat,
) -> Seq<Op>
    decreases n,
{
    if n == 0 {
        seq![Op::Font { bold: true }, Op::FontSize(13)]
    } else {
        hints_ops(targets, typed, screen_w, screen_h, phase, (n - 1) as nat) + target_ops(
            targets[n - 1],
            typed,
            screen_w,
            screen_h,
            phase,
        )
    }
}

/// Draws an outline around each target and a label beside it. Targets whose label does not go on
/// from what has been typed are faint and have none.
pub fn draw_hints(
    targets: &Vec<HintTarget>,
    typed: &String,
    screen_w: i64,
    screen_h: i64,
    phase: u32,
) -> (ops: Vec<Op>)
    ensures
        ops@ == hints_ops(targets@, typed@, screen_w, screen_h, phase, targets@.len()),
{
    let mut ops: Vec<Op> = Vec::new();
    ops.push(Op::Font { bold: true });
    ops.push(Op::FontSize(13));
    let mut i: usize = 0;
    assert(ops@ =~= hints_ops(targets@, typed@, screen_w, screen_h, phase, 0));
    while i < targets.len()
        invariant
            i <= targets@.len(),
            ops@ == hints_ops(targets@, typed@, screen_w, screen_h, phase, i as nat),
        decreases targets.len() - i,
    {
        draw_target(&targets[i], typed, screen_w, screen_h, phase, &mut ops);
        i = i + 1;
    }
    ops
}

/// What only the graphics library knows: how large texts come out, in subpixels. What could not be
/// measured is left out.
#[derive(Debug)]
pub struct Measures {
    /// Width and height of the message that there are no targets.
    pub message: Option<(i64, i64)>,
    /// Widths of the keys of the cheat sheet.
    pub keys: Vec<i64>,
}

/// The message that there are no targets, in a box of its own.
pub open spec fn message_ops(width: i64, extents: Option<(i64, i64)>) -> Seq<Op> {
    seq![Op::Font { bold: true }, Op::FontSize(15)] + match extents {
        None => Seq::empty(),
        Some((text_w, text_h)) => {
            let box_w = units::sat(text_w + px(20));
            let box_h = units::sat(text_h + px(20));
            seq![
                color(5, 5, 5, 90),
                Op::Rectangle {
                    x: (units::sat(width - box_w) as int / 2) as i64,
                    y: px(24) as i64,
                    w: box_w,
                    h: box_h,
                },
                Op::Fill,
                color(100, 100, 100, 95),
                Op::Centered {
                    text: Text::NoHints,
                    x: (width as int / 2) as i64,
                    y: units::sat(px(24) + box_h as int / 2),
                },
            ]
        },
    }
}

/// Draws the message that there are no targets: to show nothing would look broken.
pub fn draw_no_hints_message(width: i64, extents: Option<(i64, i64)>) -> (ops: Vec<Op>)
    ensures
        ops@ == message_ops(width, extents),
{
    let mut ops: Vec<Op> = Vec::new();
    ops.push(Op::Font { bold: true });
    ops.push(Op::FontSize(15));
    if let Some((text_w, text_h)) = extents {
        let box_w: i64 = units::plus(text_w, 9000);
        let box_h: i64 = units::plus(text_h, 9000);
        ops.push(source(5, 5, 5, 90));
        ops.push(
            Op::Rectangle {
                x: units::half(units::minus(width, box_w)),
                y: 10800,
                w: box_w,
                h: box_h,
            },
        );
        ops.push(Op::Fill);
        ops.push(source(100, 100, 100, 95));
        ops.push(
            Op::Centered {
                text: Text::NoHints,
                x: units::half(width),
                y: units::plus(10800, units::half(box_h)),
            },
        );
    }
    assert(ops@ =~= message_ops(width, extents));
    ops
}

/// The widest of some widths, and at least none.
pub open spec fn widest(widths: Seq<i64>) -> i64
    decreases widths.len(),
{
    if widths.len() == 0 {
        0
    } else {
        overlay::at_least(widths.last(), widest(widths.drop_last()))
    }
}

fn max_width(widths: &Vec<i64>) -> (w: i64)
    ensures
        w == widest(widths@),
{
    let mut w: i64 = 0;
    let mut i: usize = 0;
    while i < widths.len()
        invariant
            i <= widths@.len(),
            w == widest(widths@.take(i as int)),
        decreases widths.len() - i,
    {
        assert(widths@.take(i + 1).drop_last() =~= widths@.take(i as int));
        if widths[i] >= w {
            w = widths[i];
        }
        i = i + 1;
    }
    assert(widths@.take(i as int) =~= widths@);
    w
}

/// Height of the box of the menu: its title, its lines, its setting, its footer and its padding.
pub const MENU_BOX_H: i64 = 197_100;

/// Where the box of the menu lies and how wide it is, and where its two columns begin.
#[derive(Debug, Clone, Copy, PartialEq, Eq, Structural)]
pub struct MenuBox {
    pub x: i64,
    pub y: i64,
    pub w: i64,
    pub key_x: i64,
    pub action_x: i64,
    /// The middle of the screen.
    pub middle: i64,
}

/// The box of the menu on a screen of the given size, with a left column as wide as given.
pub open spec fn menu_box(width: i64, height: i64, keys_w: i64) -> MenuBox {
    let w = overlay::at_most(units::sat(width - px(80)), px(620) as i64);
    let x = (units::sat(width - w) as int / 2) as i64;
    MenuBox {
        x,
        y: overlay::at_least(
            (units::sat(height - MENU_BOX_H) as int / 2) as i64,
            px(20) as i64,
        ),
        w,
        key_x: units::sat(x + px(24)),
        action_x: units::sat(x + keys_w + px(48)),
        middle: (width as int / 2) as i64,
    }
}

fn place_menu(width: i64, height: i64, keys_w: i64) -> (b: MenuBox)
    ensures
        b == menu_box(width, height, keys_w),
{
    let room: i64 = units::minus(width, 36000);
    let w: i64 = if room > 279_000 {
        279_000
    } else {
        room
    };
    let x: i64 = units::half(units::minus(width, w));
    let top: i64 = units::half(units::minus(height, MENU_BOX_H));
    MenuBox {
        x,
        y: if top < 9000 {
            9000
        } else {
            top
        },
        w,
        key_x: units::plus(x, 10800),
        action_x: sat_of(x as i128 + keys_w as i128 + 21600),
        middle: units::half(width),
    }
}

/// The box of the menu and its title.
pub open spec fn menu_head(b: MenuBox) -> Seq<Op> {
    seq![
        Op::Font { bold: true },
        Op::FontSize(13),
        Op::RoundedRect { x: b.x, y: b.y, w: b.w, h: MENU_BOX_H, r: px(10) as i64 },
        color(7, 7, 9, 97),
        Op::FillPreserve,
        color(40, 70, 100, 60),
        Op::LineWidth(15),
        Op::Stroke,
        color(100, 100, 100, 100),
        Op::Font { bold: true },
        Op::FontSize(20),
        Op::Centered { text: Text::MenuTitle, x: b.middle, y: units::sat(b.y + px(32)) },
        Op::FontSize(13),
    ]
}

/// A line of two columns.
pub open spec fn menu_line(b: MenuBox, y: i64, c: Op, key: Text, action: Text) -> Seq<Op> {
    seq![
        Op::Font { bold: true },
        c,
        Op::MoveTo { x: b.key_x, y },
        Op::Show(key),
        Op::Font { bold: false },
        color(90, 90, 90, 95),
        Op::MoveTo { x: b.action_x, y },
        Op::Show(action),
    ]
}

/// Where a line of the menu is written.
pub open spec fn menu_line_y(b: MenuBox, i: int) -> int {
    b.y + px(64) + px(26) * i
}

/// The first `n` lines of the cheat sheet.
pub open spec fn menu_lines(b: MenuBox, n: nat) -> Seq<Op>
    decreases n,
{
    if n == 0 {
        Seq::empty()
    } else {
        let i = (n - 1) as usize;
        menu_lines(b, (n - 1) as nat) + menu_line(
            b,
            units::sat(menu_line_y(b, n - 1)),
            color(40, 85, 100, 95),
            Text::CheatKey(i),
            Text::CheatAction(i),
        )
    }
}

/// The line that sets the setting apart.
pub open spec fn menu_rule(b: MenuBox) -> Seq<Op> {
    let y = units::sat(menu_line_y(b, CHEAT_LINES as int) - px(8));
    seq![
        color(100, 100, 100, 15),
        Op::MoveTo { x: b.key_x, y },
        Op::LineTo { x: units::sat(b.x + b.w - px(24)), y },
        Op::Stroke,
    ]
}

/// How to close the menu.
pub open spec fn menu_foot(b: MenuBox) -> Seq<Op> {
    seq![
        Op::Font { bold: false },
        color(60, 60, 60, 90),
        Op::FontSize(12),
        Op::Centered {
            text: Text::CloseHint,
            x: b.middle,
            y: units::sat(b.y + MENU_BOX_H - px(15)),
        },
    ]
}

/// The menu: what the keys do, and the one setting that can be changed.
pub open spec fn menu_ops(b: MenuBox, settings: Settings) -> Seq<Op> {
    menu_head(b) + menu_lines(b, CHEAT_LINES as nat) + menu_rule(b) + menu_line(
        b,
        units::sat(menu_line_y(b, CHEAT_LINES as int) + px(6)),
        color(100, 85, 20, 100),
        Text::AdjustKeys,
        Text::NudgeSpeed(settings),
    ) + menu_foot(b)
}

fn draw_menu_head(b: MenuBox, ops: &mut Vec<Op>)
    ensures
        final(ops)@ == old(ops)@ + menu_head(b),
{
    let ghost before = ops@;
    ops.push(Op::Font { bold: true });
    ops.push(Op::FontSize(13));
    ops.push(Op::RoundedRect { x: b.x, y: b.y, w: b.w, h: MENU_BOX_H, r: 4500 });
    ops.push(source(7, 7, 9, 97));
    ops.push(Op::FillPreserve);
    ops.push(source(40, 70, 100, 60));
    ops.push(Op::LineWidth(15));
    ops.push(Op::Stroke);
    ops.push(source(100, 100, 100, 100));
    ops.push(Op::Font { bold: true });
    ops.push(Op::FontSize(20));
    ops.push(Op::Centered { text: Text::MenuTitle, x: b.middle, y: units::plus(b.y, 14400) });
    ops.push(Op::FontSize(13));
    assert(ops@ =~= before + menu_head(b));
}

fn draw_menu_line(b: MenuBox, y: i64, c: Op, key: Text, action: Text, ops: &mut Vec<Op>)
    ensures
        final(ops)@ == old(ops)@ + menu_line(b, y, c, key, action),
{
    let ghost before = ops@;
    ops.push(Op::Font { bold: true });
    ops.push(c);
    ops.push(Op::MoveTo { x: b.key_x, y });
    ops.push(Op::Show(key));
    ops.push(Op::Font { bold: false });
    ops.push(source(90, 90, 90, 95));
    ops.push(Op::MoveTo { x: b.action_x, y });
    ops.push(Op::Show(action));
    assert(ops@ =~= before + menu_line(b, y, c, key, action));
}

fn draw_menu_rule(b: MenuBox, ops: &mut Vec<Op>)
    ensures
        final(ops)@ == old(ops)@ + menu_rule(b),
{
    let ghost before = ops@;
    let y: i64 = sat_of(b.y as i128 + 153_900);
    ops.push(source(100, 100, 100, 15));
    ops.push(Op::MoveTo { x: b.key_x, y });
    ops.push(Op::LineTo { x: sat_of(b.x as i128 + b.w as i128 - 10800), y });
    ops.push(Op::Stroke);
    assert(ops@ =~= before + menu_rule(b));
}

fn draw_menu_foot(b: MenuBox, ops: &mut Vec<Op>)
    ensures
        final(ops)@ == old(ops)@ + menu_foot(b),
{
    let ghost before = ops@;
    ops.push(Op::Font { bold: false });
    ops.push(source(60, 60, 60, 90));
    ops.push(Op::FontSize(12));
    ops.push(
        Op::Centered {
            text: Text::CloseHint,
            x: b.middle,
            y: sat_of(b.y as i128 + MENU_BOX_H as i128 - 6750),
        },
    );
    assert(ops@ =~= before + menu_foot(b));
}

/// Draws the menu, with the widths of the keys as they come out.
pub fn draw_menu(
    width: i64,
    height: i64,
    settings: Settings,
    key_widths: &Vec<i64>,
    ops: &mut Vec<Op>,
)
    ensures
        final(ops)@ == old(ops)@ + menu_ops(
            menu_box(width, height, widest(key_widths@)),
            settings,
        ),
{
    let ghost before = ops@;
    let b: MenuBox = place_menu(width, height, max_width(key_widths));
    draw_menu_head(b, ops);
    let ghost headed = ops@;
    assert(headed + menu_lines(b, 0) =~= headed);
    let mut i: usize = 0;
    while i < CHEAT_LINES
        invariant
            i <= CHEAT_LINES,
            ops@ == headed + menu_lines(b, i as nat),
        decreases CHEAT_LINES - i,
    {
        let y: i64 = sat_of(b.y as i128 + 28800 + 11700 * i as i128);
        draw_menu_line(
            b,
            y,
            source(40, 85, 100, 95),
            Text::CheatKey(i),
            Text::CheatAction(i),
            ops,
        );
        assert(ops@ =~= headed + menu_lines(b, (i + 1) as nat));
        i = i + 1;
    }
    draw_menu_rule(b, ops);
    draw_menu_line(
        b,
        sat_of(b.y as i128 + 160_200),
        source(100, 85, 20, 100),
        Text::AdjustKeys,
        Text::NudgeSpeed(settings),
        ops,
    );
    draw_menu_foot(b, ops);
    assert(ops@ =~= before + menu_ops(b, settings));
}

/// What the main window shows. The grid has windows of its own, so that each can be kept out of a
/// screenshot; and once a cell is picked, only the cursor is to be seen.
pub open spec fn window_ops(width: i64, height: i64, state: StateView, measures: Measures) -> Seq<Op> {
    match state.mode {
        ModeView::Hints { targets, typed } => if targets.len() == 0 {
            message_ops(width, measures.message)
        } else {
            hints_ops(targets, typed, width, height, state.dash_phase, targets.len())
        },
        ModeView::Menu => seq![color(0, 0, 0, 75), Op::Paint] + menu_ops(
            menu_box(width, height, widest(measures.keys@)),
            state.settings,
        ),
        _ => Seq::empty(),
    }
}

/// Draws the main window.
pub fn draw(width: i64, height: i64, state: &State, measures: &Measures) -> (ops: Vec<Op>)
    ensures
        ops@ == window_ops(width, height, state@, *measures),
{
    match &state.mode {
        Mode::Hints { targets, typed } => if targets.len() == 0 {
            draw_no_hints_message(width, measures.message)
        } else {
            draw_hints(targets, typed, width, height, state.dash_phase)
        },
        Mode::Menu => {
            let mut ops: Vec<Op> = Vec::new();
            ops.push(source(0, 0, 0, 75));
            ops.push(Op::Paint);
            assert(ops@ =~= seq![color(0, 0, 0, 75), Op::Paint]);
            draw_menu(width, height, state.settings, &measures.keys, &mut ops);
            ops
        },
        _ => {
            let ops: Vec<Op> = Vec::new();
            assert(ops@ =~= Seq::empty());
            ops
        },
    }
}

/// Whether a fine key nudges, so that it picks no cell.
pub open spec fn nudges(fine: char) -> bool {
    fine == 'h' || fine == 'j' || fine == 'k' || fine == 'l'
}

/// A cell in a window whose corner is at `(rx, ry)`: its key, unless that nudges, and its outline.
pub open spec fn cell_ops(c: Cell, rx: i64, ry: i64) -> Seq<Op> {
    (if nudges(c.label[1]) {
        Seq::empty()
    } else {
        seq![
            Op::Centered {
                text: Text::Letter(c.label[1]),
                x: units::sat(units::sat(c.x + c.w as int / 2) - rx),
                y: units::sat(units::sat(c.y + c.h as int / 2) - ry),
            },
        ]
    }) + seq![
        Op::Rectangle { x: units::sat(c.x - rx), y: units::sat(c.y - ry), w: c.w, h: c.h },
    ]
}

/// The first `n` of some cells.
pub open spec fn cells_ops(cells: Seq<Cell>, rx: i64, ry: i64, n: nat) -> Seq<Op>
    decreases n,
{
    if n == 0 {
        Seq::empty()
    } else {
        cells_ops(cells, rx, ry, (n - 1) as nat) + cell_ops(cells[n - 1], rx, ry)
    }
}

/// The wash that dims a region.
pub open spec fn wash() -> Seq<Op> {
    seq![color(0, 0, 0, 12), Op::Paint]
}

/// A bright outline of moving dashes: a plain line is easily lost.
pub open spec fn outline(phase: u32) -> Seq<Op> {
    seq![color(15, 95, 100, 85), Op::LineWidth(15), Op::Dashes(phase), Op::Stroke, Op::Solid]
}

/// What the window of a region shows: the coarse key before one is typed, then the cells of the
/// region that was chosen. The corner of the window lies on the pixel nearest to that of the region.
pub open spec fn region_ops(
    width: i64,
    height: i64,
    state: StateView,
    coarse: char,
    row: usize,
    col: usize,
) -> Seq<Op> {
    match state.mode {
        ModeView::TypingCoarse => wash() + seq![
            color(100, 100, 100, 90),
            Op::Font { bold: true },
            Op::FontSize(28),
            Op::Centered {
                text: Text::Letter(coarse),
                x: (width as int / 2) as i64,
                y: (height as int / 2) as i64,
            },
            Op::Rectangle { x: 0, y: 0, w: width, h: height },
        ] + outline(state.dash_phase),
        ModeView::TypingFine(chosen) => if chosen == coarse {
            let cells = grid::region_cells(state.cells, coarse);
            wash() + seq![color(30, 90, 100, 95), Op::Font { bold: true }, Op::FontSize(22)]
                + cells_ops(
                cells,
                units::sat(overlay::column_edge(state.screen_w as int, col as int) * SUBPIXELS),
                units::sat(overlay::row_edge(state.screen_h as int, row as int) * SUBPIXELS),
                cells.len(),
            ) + outline(state.dash_phase)
        } else {
            wash()
        },
        _ => Seq::empty(),
    }
}

fn draw_wash(ops: &mut Vec<Op>)
    ensures
        final(ops)@ == old(ops)@ + wash(),
{
    let ghost before = ops@;
    ops.push(source(0, 0, 0, 12));
    ops.push(Op::Paint);
    assert(ops@ =~= before + wash());
}

fn draw_outline(phase: u32, ops: &mut Vec<Op>)
    ensures
        final(ops)@ == old(ops)@ + outline(phase),
{
    let ghost before = ops@;
    ops.push(source(15, 95, 100, 85));
    ops.push(Op::LineWidth(15));
    ops.push(Op::Dashes(phase));
    ops.push(Op::Stroke);
    ops.push(Op::Solid);
    assert(ops@ =~= before + outline(phase));
}

fn fine_key(c: &Cell) -> (k: char)
    ensures
        k == c.label[1],
{
    c.label[1]
}

fn draw_cell(c: &Cell, rx: i64, ry: i64, ops: &mut Vec<Op>)
    ensures
        final(ops)@ == old(ops)@ + cell_ops(*c, rx, ry),
{
    let ghost before = ops@;
    let fine: char = fine_key(c);
    let (cx, cy): (i64, i64) = c.center();
    let (x, y): (i64, i64) = (units::minus(cx, rx), units::minus(cy, ry));
    if !(fine == 'h' || fine == 'j' || fine == 'k' || fine == 'l') {
        ops.push(Op::Centered { text: Text::Letter(fine), x, y });
    }
    ops.push(Op::Rectangle { x: units::minus(c.x, rx), y: units::minus(c.y, ry), w: c.w, h: c.h });
    assert(ops@ =~= before + cell_ops(*c, rx, ry));
}

fn in_subpixels(px: i128) -> (r: i64)
    requires
        -0x1_0000_0000_0000_0000_0000_0000 <= px <= 0x1_0000_0000_0000_0000_0000_0000,
    ensures
        r == units::sat(px * SUBPIXELS),
{
    sat_of(px * SUBPIXELS as i128)
}

/// Draws the window of a region.
pub fn draw_grid_region(
    width: i64,
    height: i64,
    state: &State,
    coarse: char,
    row: usize,
    col: usize,
) -> (ops: Vec<Op>)
    ensures
        ops@ == region_ops(width, height, state@, coarse, row, col),
{
    let mut ops: Vec<Op> = Vec::new();
    match &state.mode {
        Mode::TypingCoarse => {
            draw_wash(&mut ops);
            ops.push(source(100, 100, 100, 90));
            ops.push(Op::Font { bold: true });
            ops.push(Op::FontSize(28));
            ops.push(
                Op::Centered {
                    text: Text::Letter(coarse),
                    x: units::half(width),
                    y: units::half(height),
                },
            );
            ops.push(Op::Rectangle { x: 0, y: 0, w: width, h: height });
            draw_outline(state.dash_phase, &mut ops);
            assert(ops@ =~= region_ops(width, height, state@, coarse, row, col));
        },
        Mode::TypingFine(chosen) => {
            draw_wash(&mut ops);
            if *chosen == coarse {
                ops.push(source(30, 90, 100, 95));
                ops.push(Op::Font { bold: true });
                ops.push(Op::FontSize(22));
                let (rx, ry): (i64, i64) = (
                    in_subpixels(overlay::edge_of_column(state.screen_w, col)),
                    in_subpixels(overlay::edge_of_row(state.screen_h, row)),
                );
                let cells: Vec<&Cell> = grid::cells_in_region(&state.cells, coarse);
                let ghost region = grid::region_cells(state.cells@, coarse);
                let ghost head = ops@;
                assert(head + cells_ops(region, rx, ry, 0) =~= head);
                let mut i: usize = 0;
                while i < cells.len()
                    invariant
                        i <= cells@.len(),
                        cells@.len() == region.len(),
                        forall|k: int|
                            0 <= k < cells@.len() ==> *(#[trigger] cells@[k]) == region[k],
                        ops@ == head + cells_ops(region, rx, ry, i as nat),
                    decreases cells.len() - i,
                {
                    draw_cell(cells[i], rx, ry, &mut ops);
                    assert(ops@ =~= head + cells_ops(region, rx, ry, (i + 1) as nat));
                    i = i + 1;
                }
                draw_outline(state.dash_phase, &mut ops);
                assert(head =~= wash() + seq![
                    color(30, 90, 100, 95),
                    Op::Font { bold: true },
                    Op::FontSize(22),
                ]);
            } else {
                assert(ops@ =~= wash());
            }
        },
        _ => {
            assert(ops@ =~= Seq::empty());
        },
    }
    ops
}

/// Nothing is drawn while the overlay is hidden, nor once a cell is picked, and the grid is never
/// drawn on the main window.
pub proof fn windows_stay_clear(
    width: i64,
    height: i64,
    state: StateView,
    measures: Measures,
    coarse: char,
    row: usize,
    col: usize,
)
    ensures
        !(state.mode is Hints || state.mode is Menu) ==> window_ops(width, height, state, measures)
            == Seq::<Op>::empty(),
        !(state.mode is TypingCoarse || state.mode is TypingFine) ==> region_ops(
            width,
            height,
            state,
            coarse,
            row,
            col,
        ) == Seq::<Op>::empty(),
{
}

} // verus!
