//! What holds of the drawings: that everything there is to show is shown, and where.

use vstd::prelude::*;

use crate::atspi_scan::{Category, Element};
use crate::canvas::{self, Pixels, Rgba};
use crate::config::Settings;
use crate::drawing::{self, Color, MenuBox, Op, Text};
use crate::grid::{self, Cell};
use crate::hints::{self, HintTarget, Source};
use crate::overlay::{self, ModeView, StateView};
use crate::pieces;
use crate::vision::regions::VisionRegion;

verus! {

/// All targets are drawn, one after the other, below the choice of the letters.
pub proof fn every_target_is_drawn(
    targets: Seq<HintTarget>,
    typed: Seq<char>,
    screen_w: i64,
    screen_h: i64,
    phase: u32,
    n: nat,
)
    requires
        n <= targets.len(),
    ensures
        drawing::hints_ops(targets, typed, screen_w, screen_h, phase, n) == seq![
            Op::Font { bold: true },
            Op::FontSize(13),
        ] + Seq::new(
            n,
            |i: int| drawing::target_ops(targets[i], typed, screen_w, screen_h, phase),
        ).flatten(),
    decreases n,
{
    let piece = |i: int| drawing::target_ops(targets[i], typed, screen_w, screen_h, phase);
    let head = seq![Op::Font { bold: true }, Op::FontSize(13)];
    if n > 0 {
        every_target_is_drawn(targets, typed, screen_w, screen_h, phase, (n - 1) as nat);
        pieces::one_more_piece(piece, (n - 1) as nat);
        let before = Seq::new((n - 1) as nat, piece).flatten();
        assert((head + before) + piece(n - 1) =~= head + (before + piece(n - 1)));
    } else {
        assert(Seq::new(0, piece).flatten() =~= Seq::empty());
        assert(head + Seq::<Op>::empty() =~= head);
    }
}

/// Whether a letter is written.
pub open spec fn writes(op: Op) -> bool {
    op is Show
}

/// A target is outlined where it is, brightly if its label goes on from what has been typed, and
/// faintly otherwise. Its label is written in the first case only, letter by letter.
pub proof fn targets_are_outlined_and_labeled(
    t: HintTarget,
    typed: Seq<char>,
    screen_w: i64,
    screen_h: i64,
    phase: u32,
)
    ensures
        ({
            let ops = drawing::target_ops(t, typed, screen_w, screen_h, phase);
            let (x, y, w, h) = match t.source {
                Source::Atspi(e) => (e.x, e.y, e.w, e.h),
                Source::Vision(v) => (v.x, v.y, v.w, v.h),
            };
            let matches = typed.len() <= t.label@.len() && t.label@.take(typed.len() as int)
                == typed;
            &&& ops[3] == Op::Rectangle { x, y, w, h }
            &&& ops[4] == Op::Stroke
            &&& ops[0] matches Op::Source(c) && c.a == if matches {
                95u8
            } else {
                15u8
            }
            &&& ops[2] == if t.source is Vision {
                Op::Dashes(phase)
            } else {
                Op::Solid
            }
            &&& matches ==> forall|i: int|
                0 <= i < t.label@.len() ==> ops.contains(
                    Op::Show(Text::Letter(#[trigger] t.label@[i])),
                )
            &&& !matches ==> forall|k: int| 0 <= k < ops.len() ==> !writes(#[trigger] ops[k])
        }),
{
    let ops = drawing::target_ops(t, typed, screen_w, screen_h, phase);
    let (x, y, w, h) = hints::geometry_of(t.source);
    let label = t.label@;
    let b = drawing::bubble_of(label.len(), (x, y, w, h), screen_w, screen_h);
    if hints::begins(typed, label) {
        let letters = drawing::label_letters(
            label,
            typed.len(),
            b.x + drawing::BUBBLE_PAD_X,
            b.y + drawing::BUBBLE_H - drawing::px(6),
            label.len(),
        );
        let bubble = drawing::bubble_ops(
            label,
            typed.len(),
            (x, y, w, h),
            drawing::target_color(t.source),
            screen_w,
            screen_h,
        );
        assert forall|i: int| 0 <= i < label.len() implies ops.contains(
            Op::Show(Text::Letter(#[trigger] label[i])),
        ) by {
            letters_are_written_in_order(
                label,
                typed.len(),
                b.x + drawing::BUBBLE_PAD_X,
                b.y + drawing::BUBBLE_H - drawing::px(6),
                label.len(),
                i,
            );
            let at = bubble.len() - letters.len() + 3 * i + 2;
            assert(bubble[at] == letters[3 * i + 2]);
            assert(ops[6 + at] == bubble[at]);
        }
    }
}

/// The letters of a label are written from left to right, nine pixels apart; those already typed in a
/// color of their own.
pub proof fn letters_are_written_in_order(
    label: Seq<char>,
    typed: nat,
    x: int,
    y: int,
    n: nat,
    i: int,
)
    requires
        0 <= i < n <= label.len(),
    ensures
        ({
            let ops = drawing::label_letters(label, typed, x, y, n);
            &&& ops.len() == 3 * n
            &&& ops[3 * i] == Op::Source(
                if i < typed {
                    Color { r: 100, g: 85, b: 20, a: 100 }
                } else {
                    Color { r: 100, g: 100, b: 100, a: 100 }
                },
            )
            &&& i64::MIN <= x && x + 4050 * n <= i64::MAX && i64::MIN <= y <= i64::MAX ==> ops[3 * i
                + 1] == Op::MoveTo { x: (x + 4050 * i) as i64, y: y as i64 }
            &&& ops[3 * i + 2] == Op::Show(Text::Letter(label[i]))
        }),
    decreases n,
{
    let before = drawing::label_letters(label, typed, x, y, (n - 1) as nat);
    if n == 1 {
        assert(before.len() == 0);
    }
    if n > 1 {
        letters_are_written_in_order(
            label,
            typed,
            x,
            y,
            (n - 1) as nat,
            if i < n - 1 {
                i
            } else {
                0
            },
        );
    }
    lemma_letter(label, typed, x, y, n, label[n - 1]);
}

proof fn lemma_letter(label: Seq<char>, typed: nat, x: int, y: int, n: nat, last: char)
    requires
        0 < n <= label.len(),
        last == label[n - 1],
    ensures
        ({
            let before = drawing::label_letters(label, typed, x, y, (n - 1) as nat);
            let ops = drawing::label_letters(label, typed, x, y, n);
            let at = before.len() as int;
            &&& ops.len() == at + 3
            &&& forall|k: int| 0 <= k < at ==> #[trigger] ops[k] == before[k]
            &&& ops[at] == Op::Source(
                if n - 1 < typed {
                    Color { r: 100, g: 85, b: 20, a: 100 }
                } else {
                    Color { r: 100, g: 100, b: 100, a: 100 }
                },
            )
            &&& ops[at + 1] == Op::MoveTo {
                x: crate::units::sat(x + (n - 1) * drawing::BUBBLE_CHAR_W),
                y: crate::units::sat(y),
            }
            &&& ops[at + 2] == Op::Show(Text::Letter(last))
        }),
{
}

/// Far from the ends of the range of coordinates.
pub open spec fn moderate(v: int) -> bool {
    -0x1000_0000_0000 <= v <= 0x1000_0000_0000
}

/// A label lies above its target, sixteen pixels from it, if there is room for it there; otherwise
/// below it. It is centered on the target, and its arrow points to the middle of the near side of it.
/// Only the border of the screen moves it from there.
pub proof fn labels_lie_beside_their_targets(
    n: nat,
    target: (i64, i64, i64, i64),
    screen_w: i64,
    screen_h: i64,
)
    requires
        n <= 900,
        moderate(target.0 as int),
        moderate(target.1 as int),
        0 <= target.2 && moderate(target.2 as int),
        0 <= target.3 && moderate(target.3 as int),
        moderate(screen_w as int),
        moderate(screen_h as int),
    ensures
        ({
            let (x, y, w, h) = target;
            let b = drawing::bubble_of(n, target, screen_w, screen_h);
            let width = 9 * 450 * n + 12 * 450;
            let left = x + w as int / 2 - width / 2;
            let top = if y >= 40 * 450 {
                y - 36 * 450
            } else {
                y + h + 16 * 450
            };
            &&& b.above <==> y >= 40 * 450
            &&& b.w == width
            &&& b.arrow_to_x == x + w as int / 2
            &&& b.arrow_to_y == if y >= 40 * 450 {
                y as int
            } else {
                y + h
            }
            &&& b.arrow_from_y == if y >= 40 * 450 {
                b.y + 20 * 450
            } else {
                b.y as int
            }
            &&& 900 <= left <= screen_w - width - 900 ==> b.x == left
            &&& 900 <= top <= screen_h - 22 * 450 ==> b.y == top
            &&& left < 900 ==> b.x == 900
            &&& top < 900 ==> b.y == 900
            &&& left > screen_w - width - 900 >= 900 ==> b.x == screen_w - width - 900
            &&& top > screen_h - 22 * 450 >= 900 ==> b.y == screen_h - 22 * 450
        }),
{
}

/// Whether a text is written about its middle.
pub open spec fn centers(op: Op, text: Text) -> bool {
    op matches Op::Centered { text: t, .. } && t == text
}

proof fn lemma_menu_lines(b: MenuBox, n: nat, i: int)
    requires
        0 <= i < n <= 11,
    ensures
        drawing::menu_lines(b, n).len() == 8 * n,
        drawing::menu_lines(b, n)[8 * i + 3] == Op::Show(Text::CheatKey(i as usize)),
        drawing::menu_lines(b, n)[8 * i + 7] == Op::Show(Text::CheatAction(i as usize)),
    decreases n,
{
    let before = drawing::menu_lines(b, (n - 1) as nat);
    if n == 1 {
        assert(before.len() == 0);
    }
    if n > 1 {
        lemma_menu_lines(
            b,
            (n - 1) as nat,
            if i < n - 1 {
                i
            } else {
                0
            },
        );
    }
}

/// The menu shows every line of the cheat sheet, with the key and what it does, the distance of a
/// nudge, the keys that change it, and how to close the menu.
pub proof fn the_menu_shows_everything(b: MenuBox, settings: Settings, i: int)
    requires
        0 <= i < 11,
    ensures
        ({
            let ops = drawing::menu_ops(b, settings);
            &&& ops.contains(Op::Show(Text::CheatKey(i as usize)))
            &&& ops.contains(Op::Show(Text::CheatAction(i as usize)))
            &&& ops.contains(Op::Show(Text::AdjustKeys))
            &&& ops.contains(Op::Show(Text::NudgeSpeed(settings)))
            &&& exists|k: int| 0 <= k < ops.len() && centers(#[trigger] ops[k], Text::CloseHint)
            &&& exists|k: int| 0 <= k < ops.len() && centers(#[trigger] ops[k], Text::MenuTitle)
        }),
{
    lemma_menu_lines(b, 11, i);
    let ops = drawing::menu_ops(b, settings);
    let lines = drawing::menu_lines(b, 11);
    assert(ops[13 + 8 * i + 3] == lines[8 * i + 3]);
    assert(ops[13 + 8 * i + 7] == lines[8 * i + 7]);
    assert(ops[108] == Op::Show(Text::AdjustKeys));
    assert(ops[112] == Op::Show(Text::NudgeSpeed(settings)));
    assert(centers(ops[116], Text::CloseHint));
    assert(centers(ops[11], Text::MenuTitle));
}

/// The widest of some widths is as wide as each of them, and is one of them, unless none is positive.
pub proof fn the_widest_is_one_of_them(widths: Seq<i64>)
    ensures
        drawing::widest(widths) >= 0,
        forall|i: int| 0 <= i < widths.len() ==> #[trigger] widths[i] <= drawing::widest(widths),
        drawing::widest(widths) > 0 ==> widths.contains(drawing::widest(widths)),
    decreases widths.len(),
{
    if widths.len() > 0 {
        let front = widths.drop_last();
        the_widest_is_one_of_them(front);
        let most = drawing::widest(widths);
        assert forall|i: int| 0 <= i < widths.len() implies #[trigger] widths[i] <= most by {
            if i < front.len() {
                assert(front[i] == widths[i]);
            }
        }
        if most > 0 {
            if most == widths.last() {
                assert(widths[widths.len() - 1] == most);
            } else {
                let k = choose|k: int| 0 <= k < front.len() && front[k] == most;
                assert(widths[k] == most);
            }
        }
    }
}

/// The menu is in the middle of the screen, at most 620 pixels wide, and no nearer than 40 pixels to
/// the sides.
pub proof fn the_menu_is_centered(width: i64, height: i64, keys_w: i64)
    requires
        80 * 450 <= width && moderate(width as int),
        0 <= height && moderate(height as int),
        0 <= keys_w && moderate(keys_w as int),
    ensures
        ({
            let b = drawing::menu_box(width, height, keys_w);
            &&& b.w == if width - 80 * 450 < 620 * 450 {
                width - 80 * 450
            } else {
                620 * 450int
            }
            &&& 0 <= (width - b.x - b.w) - b.x <= 1
            &&& height >= 478 * 450 ==> 0 <= (height - b.y - 438 * 450) - b.y <= 1
            &&& height < 478 * 450 ==> b.y == 20 * 450
            &&& b.key_x == b.x + 24 * 450
            &&& b.action_x == b.key_x + keys_w + 24 * 450
        }),
{
}

/// The cells of a region are drawn one after the other.
pub proof fn every_cell_is_drawn(cells: Seq<Cell>, rx: i64, ry: i64, n: nat)
    requires
        n <= cells.len(),
    ensures
        drawing::cells_ops(cells, rx, ry, n) == Seq::new(
            n,
            |i: int| drawing::cell_ops(cells[i], rx, ry),
        ).flatten(),
    decreases n,
{
    let piece = |i: int| drawing::cell_ops(cells[i], rx, ry);
    if n > 0 {
        every_cell_is_drawn(cells, rx, ry, (n - 1) as nat);
        pieces::one_more_piece(piece, (n - 1) as nat);
    }
}

/// A cell is outlined, and its fine key is written in its middle, unless that key nudges.
pub proof fn cells_show_their_keys(c: Cell, rx: i64, ry: i64)
    requires
        moderate(c.x as int),
        moderate(c.y as int),
        0 <= c.w && moderate(c.w as int),
        0 <= c.h && moderate(c.h as int),
        moderate(rx as int),
        moderate(ry as int),
    ensures
        ({
            let ops = drawing::cell_ops(c, rx, ry);
            let key = c.label[1];
            let nudging = key == 'h' || key == 'j' || key == 'k' || key == 'l';
            &&& ops.last() == Op::Rectangle {
                x: (c.x - rx) as i64,
                y: (c.y - ry) as i64,
                w: c.w,
                h: c.h,
            }
            &&& nudging ==> ops.len() == 1
            &&& !nudging ==> ops.len() == 2 && ops[0] == Op::Centered {
                text: Text::Letter(key),
                x: (c.x + c.w as int / 2 - rx) as i64,
                y: (c.y + c.h as int / 2 - ry) as i64,
            }
        }),
{
    lemma_cell(c, rx, ry, c.label[1]);
}

proof fn lemma_cell(c: Cell, rx: i64, ry: i64, key: char)
    requires
        key == c.label[1],
    ensures
        drawing::nudges(key) ==> drawing::cell_ops(c, rx, ry).len() == 1,
        !drawing::nudges(key) ==> drawing::cell_ops(c, rx, ry).len() == 2 && drawing::cell_ops(
            c,
            rx,
            ry,
        )[0] == (Op::Centered {
            text: Text::Letter(key),
            x: crate::units::sat(crate::units::sat(c.x + c.w as int / 2) - rx),
            y: crate::units::sat(crate::units::sat(c.y + c.h as int / 2) - ry),
        }),
        drawing::cell_ops(c, rx, ry).last() == (Op::Rectangle {
            x: crate::units::sat(c.x - rx),
            y: crate::units::sat(c.y - ry),
            w: c.w,
            h: c.h,
        }),
{
}

/// Before a coarse key, the window of each region shows its key in its middle and is outlined.
pub proof fn regions_show_their_keys(
    width: i64,
    height: i64,
    state: StateView,
    coarse: char,
    row: usize,
    col: usize,
)
    requires
        state.mode is TypingCoarse,
    ensures
        ({
            let ops = drawing::region_ops(width, height, state, coarse, row, col);
            &&& ops.contains(
                Op::Centered {
                    text: Text::Letter(coarse),
                    x: (width as int / 2) as i64,
                    y: (height as int / 2) as i64,
                },
            )
            &&& ops.contains(Op::Rectangle { x: 0, y: 0, w: width, h: height })
        }),
{
    let ops = drawing::region_ops(width, height, state, coarse, row, col);
    assert(ops[5] == Op::Centered {
        text: Text::Letter(coarse),
        x: (width as int / 2) as i64,
        y: (height as int / 2) as i64,
    });
    assert(ops[6] == Op::Rectangle { x: 0, y: 0, w: width, h: height });
}

/// After a coarse key, the windows of the other regions are only dimmed.
pub proof fn other_regions_are_dimmed(
    width: i64,
    height: i64,
    state: StateView,
    coarse: char,
    row: usize,
    col: usize,
)
    requires
        state.mode is TypingFine,
        state.mode != ModeView::TypingFine(coarse),
    ensures
        drawing::region_ops(width, height, state, coarse, row, col) == seq![
            Op::Source(Color { r: 0, g: 0, b: 0, a: 12 }),
            Op::Paint,
        ],
{
}

proof fn lemma_held<A>(before: Seq<A>, s: Seq<A>, behind: Seq<A>, piece: Seq<A>)
    requires
        pieces::holds(s, piece),
    ensures
        pieces::holds(before + s + behind, piece),
{
    let all = before + s + behind;
    let at = choose|at: int|
        0 <= at && at + piece.len() <= s.len() && #[trigger] s.subrange(at, at + piece.len())
            == piece;
    let here = before.len() + at;
    assert forall|k: int| 0 <= k < piece.len() implies all.subrange(here, here + piece.len())[k]
        == piece[k] by {
        assert(s.subrange(at, at + piece.len())[k] == s[at + k]);
        assert(all[here + k] == s[at + k]);
    }
    assert(all.subrange(here, here + piece.len()) =~= piece);
}

/// After a coarse key, the window of its region shows all cells of the region, from where the window
/// is.
pub proof fn the_chosen_region_shows_its_cells(
    width: i64,
    height: i64,
    state: StateView,
    coarse: char,
    row: usize,
    col: usize,
    i: int,
)
    requires
        state.mode == ModeView::TypingFine(coarse),
        0 <= i < state.cells.filter(|c: Cell| c.label[0] == coarse).len(),
    ensures
        pieces::holds(
            drawing::region_ops(width, height, state, coarse, row, col),
            drawing::cell_ops(
                state.cells.filter(|c: Cell| c.label[0] == coarse)[i],
                crate::units::sat(overlay::column_edge(state.screen_w as int, col as int) * 450),
                crate::units::sat(overlay::row_edge(state.screen_h as int, row as int) * 450),
            ),
        ),
{
    let cells = state.cells.filter(|c: Cell| c.label[0] == coarse);
    grid::a_region_has_the_cells_of_its_key(state.cells, coarse);
    let (rx, ry) = (
        crate::units::sat(overlay::column_edge(state.screen_w as int, col as int) * 450),
        crate::units::sat(overlay::row_edge(state.screen_h as int, row as int) * 450),
    );
    let drawn = drawing::cells_ops(cells, rx, ry, cells.len());
    let all = Seq::new(cells.len(), |i: int| drawing::cell_ops(cells[i], rx, ry));
    every_cell_is_drawn(cells, rx, ry, cells.len());
    pieces::every_piece_is_there(all, i);
    let head = drawing::wash() + seq![
        Op::Source(Color { r: 30, g: 90, b: 100, a: 95 }),
        Op::Font { bold: true },
        Op::FontSize(22),
    ];
    assert(drawn == all.flatten());
    lemma_held(head, drawn, drawing::outline(state.dash_phase), all[i]);
}

/// A rectangle covers its pixels, a frame those of them on its border, and a line those between its
/// ends; no other pixel changes.
pub proof fn shapes_cover_their_pixels(
    p: Pixels,
    a: (int, int),
    b: (int, int),
    c: Rgba,
    x: int,
    y: int,
)
    requires
        0 <= y < p.len(),
        0 <= x < p[y].len(),
        a.0 <= b.0,
        a.1 <= b.1,
    ensures
        ({
            let (w, h) = (b.0 - a.0 + 1, b.1 - a.1 + 1);
            let inside = a.0 <= x && x <= b.0 && a.1 <= y && y <= b.1;
            let border = inside && (x == a.0 || x == b.0 || y == a.1 || y == b.1);
            &&& canvas::filled(p, a.0, a.1, w, h, c)[y][x] == if inside {
                c
            } else {
                p[y][x]
            }
            &&& canvas::framed(p, a.0, a.1, w, h, c)[y][x] == if border {
                c
            } else {
                p[y][x]
            }
            &&& a.0 == b.0 || a.1 == b.1 ==> canvas::lined(p, a, b, c)[y][x] == if inside {
                c
            } else {
                p[y][x]
            }
            &&& canvas::lined(p, a, b, c) == canvas::lined(p, b, a, c)
        }),
{
    assert(canvas::lined(p, a, b, c) =~~= canvas::lined(p, b, a, c)) by {
        assert forall|v: int, w: int| 0 <= w < p.len() && 0 <= v < p[w].len() implies
            #[trigger] canvas::lined(p, a, b, c)[w][v] == canvas::lined(p, b, a, c)[w][v] by {}
        assert forall|w: int| 0 <= w < p.len() implies #[trigger] canvas::lined(p, a, b, c)[w]
            =~= canvas::lined(p, b, a, c)[w] by {
            assert forall|v: int| 0 <= v < p[w].len() implies canvas::lined(p, a, b, c)[w][v]
                == canvas::lined(p, b, a, c)[w][v] by {}
        }
    }
}

proof fn lemma_row_bytes(row: Seq<Rgba>, n: nat, x: int)
    requires
        0 <= x < n <= row.len(),
    ensures
        canvas::row_bytes(row, n).len() == 4 * n,
        canvas::row_bytes(row, n)[4 * x] == row[x].0,
        canvas::row_bytes(row, n)[4 * x + 1] == row[x].1,
        canvas::row_bytes(row, n)[4 * x + 2] == row[x].2,
        canvas::row_bytes(row, n)[4 * x + 3] == row[x].3,
    decreases n,
{
    let before = canvas::row_bytes(row, (n - 1) as nat);
    if n == 1 {
        assert(before.len() == 0);
    }
    if n > 1 {
        lemma_row_bytes(
            row,
            (n - 1) as nat,
            if x < n - 1 {
                x
            } else {
                0
            },
        );
    }
}

/// The bytes of a picture are those of its pixels, row by row: red, green, blue and how much it covers.
pub proof fn bytes_are_those_of_the_pixels(p: Pixels, width: nat, n: nat, x: int, y: int)
    requires
        0 <= y < n <= p.len(),
        0 <= x < width,
        forall|k: int| 0 <= k < p.len() ==> (#[trigger] p[k]).len() == width,
    ensures
        ({
            let bytes = canvas::bytes(p, n);
            let at = 4 * (y * width + x);
            &&& bytes.len() == 4 * (n * width)
            &&& bytes[at] == p[y][x].0
            &&& bytes[at + 1] == p[y][x].1
            &&& bytes[at + 2] == p[y][x].2
            &&& bytes[at + 3] == p[y][x].3
        }),
    decreases n,
{
    let before = canvas::bytes(p, (n - 1) as nat);
    let row = canvas::row_bytes(p[n - 1], width);
    assert(p[n - 1].len() == width);
    lemma_row_bytes(p[n - 1], width, x);
    assert(n * width == (n - 1) * width + width) by (nonlinear_arith);
    assert(0 <= y * width) by (nonlinear_arith)
        requires
            0 <= y,
            0 <= width,
    ;
    if n > 1 {
        bytes_are_those_of_the_pixels(
            p,
            width,
            (n - 1) as nat,
            x,
            if y < n - 1 {
                y
            } else {
                0
            },
        );
        if y < n - 1 {
            assert(y * width + width <= (n - 1) * width) by (nonlinear_arith)
                requires
                    y + 1 <= n - 1,
                    0 <= width,
            ;
        }
    } else {
        assert(0 * width == 0) by (nonlinear_arith);
        assert(before.len() == 0);
    }
}

/// Batches go from the first thing to the last without a gap, and none has more than one more than
/// another.
pub proof fn batches_are_even(k: int, n: int, most: int)
    requires
        0 < n,
        0 < most,
        0 <= k < canvas::batches(n, most),
    ensures
        canvas::batches(n, most) == if n < most {
            n
        } else {
            most
        },
        canvas::batch_start(0, n, most) == 0,
        canvas::batch_start(canvas::batches(n, most), n, most) == n,
        n / canvas::batches(n, most) <= canvas::batch_start(k + 1, n, most) - canvas::batch_start(
            k,
            n,
            most,
        ) <= n / canvas::batches(n, most) + 1,
{
    let m = canvas::batches(n, most);
    let (a, b) = (k * n, (k + 1) * n);
    assert(b == a + n) by (nonlinear_arith)
        requires
            a == k * n,
            b == (k + 1) * n,
    ;
    assert(0 * n / m == 0) by (nonlinear_arith)
        requires
            m > 0,
    ;
    assert(m * n / m == n) by (nonlinear_arith)
        requires
            m > 0,
    ;
    let (p, q, r) = (a / m, n / m, b / m);
    assert(p + q <= r <= p + q + 1) by (nonlinear_arith)
        requires
            m > 0,
            p == a / m,
            q == n / m,
            r == b / m,
            b == a + n,
    ;
}

/// The rounded corners of a rectangle have their centers a radius from its sides, clockwise from the
/// top right, and each begins a quarter of a turn after the one before.
pub proof fn corners_are_a_radius_from_the_sides(x: i64, y: i64, w: i64, h: i64, r: i64)
    requires
        moderate(x as int),
        moderate(y as int),
        moderate(w as int),
        moderate(h as int),
        moderate(r as int),
    ensures
        ({
            let c = drawing::corners_of(x, y, w, h, r);
            &&& c.len() == 4
            &&& c[0].x == x + w - r && c[0].y == y + r
            &&& c[1].x == x + w - r && c[1].y == y + h - r
            &&& c[2].x == x + r && c[2].y == y + h - r
            &&& c[3].x == x + r && c[3].y == y + r
            &&& forall|i: int| 0 <= i < 4 ==> (#[trigger] c[i]).r == r && c[i].from == i - 1
        }),
{
}

/// The main window shows the targets if there are any, the message that there are none otherwise, the
/// menu over a dimmed screen, and nothing in any other mode.
pub proof fn the_window_shows_the_mode(
    width: i64,
    height: i64,
    state: StateView,
    measures: drawing::Measures,
)
    ensures
        ({
            let ops = drawing::window_ops(width, height, state, measures);
            match state.mode {
                ModeView::Hints { targets, typed } => {
                    &&& targets.len() > 0 ==> ops == drawing::hints_ops(
                        targets,
                        typed,
                        width,
                        height,
                        state.dash_phase,
                        targets.len(),
                    )
                    &&& targets.len() == 0 && measures.message is Some ==> exists|k: int|
                        0 <= k < ops.len() && centers(#[trigger] ops[k], Text::NoHints)
                },
                ModeView::Menu => ops.len() > 2 && ops[1] == Op::Paint && ops.skip(2)
                    == drawing::menu_ops(
                    drawing::menu_box(width, height, drawing::widest(measures.keys@)),
                    state.settings,
                ),
                _ => ops.len() == 0,
            }
        }),
{
    let ops = drawing::window_ops(width, height, state, measures);
    match state.mode {
        ModeView::Hints { targets, typed } => {
            if targets.len() == 0 && measures.message is Some {
                assert(centers(ops[6], Text::NoHints));
            }
        },
        ModeView::Menu => {
            assert(ops.skip(2) =~= drawing::menu_ops(
                drawing::menu_box(width, height, drawing::widest(measures.keys@)),
                state.settings,
            ));
        },
        _ => {},
    }
}

/// The message that there are no targets stands in the middle of the screen's width, 24 pixels below
/// its upper edge, in a box that is ten pixels wider than it on each side.
pub proof fn the_message_is_centered(width: i64, w: i64, h: i64)
    requires
        0 <= w <= width - 20 * 450,
        0 <= h && moderate(h as int),
        moderate(width as int),
    ensures
        ({
            let ops = drawing::message_ops(width, Some((w, h)));
            &&& ops[3] matches Op::Rectangle { x, y, w: bw, h: bh } && bw == w + 20 * 450 && bh == h
                + 20 * 450 && y == 24 * 450 && 0 <= (width - x - bw) - x <= 1
            &&& ops[6] == Op::Centered {
                text: Text::NoHints,
                x: (width as int / 2) as i64,
                y: (24 * 450 + (h + 20 * 450) / 2) as i64,
            }
        }),
{
}

/// A label has a box where it lies and an arrow from it to its target.
pub proof fn labels_have_a_box_and_an_arrow(
    label: Seq<char>,
    typed: nat,
    target: (i64, i64, i64, i64),
    c: (u8, u8, u8),
    screen_w: i64,
    screen_h: i64,
)
    ensures
        ({
            let ops = drawing::bubble_ops(label, typed, target, c, screen_w, screen_h);
            let b = drawing::bubble_of(label.len(), target, screen_w, screen_h);
            &&& ops[2] == Op::MoveTo { x: b.arrow_from_x, y: b.arrow_from_y }
            &&& ops[3] == Op::LineTo { x: b.arrow_to_x, y: b.arrow_to_y }
            &&& ops[4] == Op::Stroke
            &&& ops[6] == Op::MoveTo { x: b.arrow_to_x, y: b.arrow_to_y }
            &&& ops[11] == Op::RoundedRect { x: b.x, y: b.y, w: b.w, h: 9000, r: 2250 }
            &&& ops.skip(17) == drawing::label_letters(
                label,
                typed,
                b.x + 6 * 450,
                b.y + 14 * 450,
                label.len(),
            )
        }),
{
    let ops = drawing::bubble_ops(label, typed, target, c, screen_w, screen_h);
    let b = drawing::bubble_of(label.len(), target, screen_w, screen_h);
    let letters = drawing::label_letters(
        label,
        typed,
        b.x + 6 * 450,
        b.y + 14 * 450,
        label.len(),
    );
    assert(ops.skip(17) =~= letters);
}

/// What each text says.
pub proof fn texts_say_what_they_are_for(i: usize, c: char, settings: Settings)
    requires
        i < 11,
    ensures
        Text::Letter(c).says() == seq![c],
        Text::CheatKey(i).says() == crate::cheat_sheet::CHEAT_SHEET[i as int].0@,
        Text::CheatAction(i).says() == crate::cheat_sheet::CHEAT_SHEET[i as int].1@,
        Text::NudgeSpeed(settings).says() == "Nudge speed: "@ + settings.nudge_text()
            + "px per press"@,
        Text::CloseHint.says() == "Esc to close"@,
        Text::AdjustKeys.says() == "+ / -"@,
{
}

/// The color of a drawing.
pub open spec fn paint(r: u8, g: u8, b: u8, a: u8) -> Op {
    Op::Source(Color { r, g, b, a })
}

/// Buttons are green, text fields blue, what scrolls orange, terminals violet and the rest gray; what
/// was only seen is pink.
pub proof fn kinds_have_their_colors(e: Element, v: VisionRegion)
    ensures
        ({
            let c = drawing::target_color(Source::Atspi(e));
            &&& e.category == Category::Button ==> c == (20u8, 90u8, 30u8)
            &&& e.category == Category::TextField ==> c == (30u8, 60u8, 100u8)
            &&& e.category == Category::Scrollable ==> c == (100u8, 60u8, 10u8)
            &&& e.category == Category::Terminal ==> c == (80u8, 30u8, 100u8)
            &&& e.category == Category::Other ==> c == (70u8, 70u8, 70u8)
            &&& drawing::target_color(Source::Vision(v)) == (100u8, 15u8, 75u8)
        }),
{
}

/// The head of an arrow has its tip at the target, and its base four pixels back towards the label and
/// eight pixels wide.
pub proof fn arrowheads_point_at_their_targets(x: i64, y: i64, from_above: bool, c: (u8, u8, u8))
    requires
        moderate(x as int),
        moderate(y as int),
    ensures
        drawing::arrowhead(x, y, from_above, c) == seq![
            paint(c.0, c.1, c.2, 90),
            Op::MoveTo { x, y },
            Op::LineTo {
                x: (x - 1800) as i64,
                y: (if from_above {
                    y - 1800
                } else {
                    y + 1800
                }) as i64,
            },
            Op::LineTo {
                x: (x + 1800) as i64,
                y: (if from_above {
                    y - 1800
                } else {
                    y + 1800
                }) as i64,
            },
            Op::ClosePath,
            Op::Fill,
        ],
{
}

/// A label's arrow is drawn with a line of a pixel and a half, its box nearly black with an outline of
/// one pixel, both in the color of the target.
pub proof fn labels_have_the_color_of_their_targets(
    label: Seq<char>,
    typed: nat,
    target: (i64, i64, i64, i64),
    c: (u8, u8, u8),
    screen_w: i64,
    screen_h: i64,
)
    ensures
        ({
            let ops = drawing::bubble_ops(label, typed, target, c, screen_w, screen_h);
            let b = drawing::bubble_of(label.len(), target, screen_w, screen_h);
            &&& ops[0] == paint(c.0, c.1, c.2, 90)
            &&& ops[1] == Op::LineWidth(15)
            &&& ops.subrange(5, 11) == drawing::arrowhead(b.arrow_to_x, b.arrow_to_y, b.above, c)
            &&& ops[12] == paint(5, 5, 5, 92)
            &&& ops[13] == Op::FillPreserve
            &&& ops[14] == paint(c.0, c.1, c.2, 90)
            &&& ops[15] == Op::LineWidth(10)
            &&& ops[16] == Op::Stroke
        }),
{
    let ops = drawing::bubble_ops(label, typed, target, c, screen_w, screen_h);
    let b = drawing::bubble_of(label.len(), target, screen_w, screen_h);
    assert(ops.subrange(5, 11) =~= drawing::arrowhead(b.arrow_to_x, b.arrow_to_y, b.above, c));
}

/// Whether a drawing has a line of the menu from a step on: a key in bold letters of a color, and
/// behind it in plain light letters what it does, both at the same height.
pub open spec fn is_menu_line(
    ops: Seq<Op>,
    at: int,
    b: MenuBox,
    y: int,
    c: Op,
    key: Text,
    action: Text,
) -> bool {
    &&& ops[at] == Op::Font { bold: true }
    &&& ops[at + 1] == c
    &&& ops[at + 2] == Op::MoveTo { x: b.key_x, y: y as i64 }
    &&& ops[at + 3] == Op::Show(key)
    &&& ops[at + 4] == Op::Font { bold: false }
    &&& ops[at + 5] == paint(90, 90, 90, 95)
    &&& ops[at + 6] == Op::MoveTo { x: b.action_x, y: y as i64 }
    &&& ops[at + 7] == Op::Show(action)
}

proof fn lemma_menu_line_at(b: MenuBox, n: nat, i: int)
    requires
        0 <= i < n <= 11,
        moderate(b.y as int),
    ensures
        drawing::menu_lines(b, n).len() == 8 * n,
        is_menu_line(
            drawing::menu_lines(b, n),
            8 * i,
            b,
            b.y + (64 + 26 * i) * 450,
            paint(40, 85, 100, 95),
            Text::CheatKey(i as usize),
            Text::CheatAction(i as usize),
        ),
    decreases n,
{
    let before = drawing::menu_lines(b, (n - 1) as nat);
    let gap = drawing::px(26);
    assert(gap * (n - 1) == (26 * (n - 1)) * 450) by (nonlinear_arith)
        requires
            gap == 26 * 450,
    ;
    if i < n - 1 {
        lemma_menu_line_at(b, (n - 1) as nat, i);
    } else if n > 1 {
        lemma_menu_line_at(b, (n - 1) as nat, i - 1);
    } else {
        assert(before.len() == 0);
    }
}

/// The lines of the cheat sheet stand 26 pixels apart in the menu, the first 64 pixels below its upper
/// edge. Below them follow a thin rule, the distance of a nudge, and at the lower edge how to close it.
pub proof fn lines_of_the_menu_are_evenly_spaced(b: MenuBox, settings: Settings, i: int)
    requires
        0 <= i < 11,
        moderate(b.x as int),
        moderate(b.y as int),
        moderate(b.w as int),
    ensures
        ({
            let ops = drawing::menu_ops(b, settings);
            &&& ops.len() == 117
            &&& is_menu_line(
                ops,
                13 + 8 * i,
                b,
                b.y + (64 + 26 * i) * 450,
                paint(40, 85, 100, 95),
                Text::CheatKey(i as usize),
                Text::CheatAction(i as usize),
            )
            &&& ops[101] == paint(100, 100, 100, 15)
            &&& ops[102] == Op::MoveTo { x: b.key_x, y: (b.y + 342 * 450) as i64 }
            &&& ops[103] == Op::LineTo {
                x: (b.x + b.w - 24 * 450) as i64,
                y: (b.y + 342 * 450) as i64,
            }
            &&& ops[104] == Op::Stroke
            &&& is_menu_line(
                ops,
                105,
                b,
                b.y + 356 * 450,
                paint(100, 85, 20, 100),
                Text::AdjustKeys,
                Text::NudgeSpeed(settings),
            )
            &&& ops[113] == Op::Font { bold: false }
            &&& ops[114] == paint(60, 60, 60, 90)
            &&& ops[115] == Op::FontSize(12)
            &&& ops[116] == Op::Centered {
                text: Text::CloseHint,
                x: b.middle,
                y: (b.y + 423 * 450) as i64,
            }
        }),
{
    lemma_menu_line_at(b, 11, i);
    lemma_menu_line_at(b, 11, 10);
    let ops = drawing::menu_ops(b, settings);
    let lines = drawing::menu_lines(b, 11);
    assert(forall|k: int| 0 <= k < 88 ==> #[trigger] lines[k] == ops[13 + k]);
    assert(lines[8 * i] == ops[13 + 8 * i]);
    assert(lines[8 * i + 1] == ops[13 + 8 * i + 1]);
    assert(lines[8 * i + 2] == ops[13 + 8 * i + 2]);
    assert(lines[8 * i + 3] == ops[13 + 8 * i + 3]);
    assert(lines[8 * i + 4] == ops[13 + 8 * i + 4]);
    assert(lines[8 * i + 5] == ops[13 + 8 * i + 5]);
    assert(lines[8 * i + 6] == ops[13 + 8 * i + 6]);
    assert(lines[8 * i + 7] == ops[13 + 8 * i + 7]);
}

/// The menu is a dark box with round corners and a light outline, with its title in large bold letters
/// 32 pixels below its upper edge.
pub proof fn the_menu_is_a_titled_box(b: MenuBox, settings: Settings)
    requires
        moderate(b.y as int),
    ensures
        drawing::menu_ops(b, settings).take(13) == seq![
            Op::Font { bold: true },
            Op::FontSize(13),
            Op::RoundedRect { x: b.x, y: b.y, w: b.w, h: 197_100, r: 4500 },
            paint(7, 7, 9, 97),
            Op::FillPreserve,
            paint(40, 70, 100, 60),
            Op::LineWidth(15),
            Op::Stroke,
            paint(100, 100, 100, 100),
            Op::Font { bold: true },
            Op::FontSize(20),
            Op::Centered { text: Text::MenuTitle, x: b.middle, y: (b.y + 14_400) as i64 },
            Op::FontSize(13),
        ],
{
    let ops = drawing::menu_ops(b, settings);
    assert(ops.take(13) =~= drawing::menu_head(b));
}

/// The regions that can be picked or hold what can be are slightly dimmed and outlined with dashes.
pub proof fn regions_at_hand_are_outlined(
    width: i64,
    height: i64,
    state: StateView,
    coarse: char,
    row: usize,
    col: usize,
)
    requires
        state.mode is TypingCoarse || state.mode == ModeView::TypingFine(coarse),
    ensures
        ({
            let ops = drawing::region_ops(width, height, state, coarse, row, col);
            &&& ops.len() >= 10
            &&& ops[0] == paint(0, 0, 0, 12)
            &&& ops[1] == Op::Paint
            &&& ops[2] == (if state.mode is TypingCoarse {
                paint(100, 100, 100, 90)
            } else {
                paint(30, 90, 100, 95)
            })
            &&& ops[3] == Op::Font { bold: true }
            &&& ops[4] == (if state.mode is TypingCoarse {
                Op::FontSize(28)
            } else {
                Op::FontSize(22)
            })
            &&& ops.skip(ops.len() - 5) == seq![
                paint(15, 95, 100, 85),
                Op::LineWidth(15),
                Op::Dashes(state.dash_phase),
                Op::Stroke,
                Op::Solid,
            ]
        }),
{
    let ops = drawing::region_ops(width, height, state, coarse, row, col);
    let end = seq![
        paint(15, 95, 100, 85),
        Op::LineWidth(15),
        Op::Dashes(state.dash_phase),
        Op::Stroke,
        Op::Solid,
    ];
    assert(ops.skip(ops.len() - 5) =~= end);
}

/// The message that there are no targets has bold letters of 15 pixels, nearly white on nearly black.
pub proof fn the_message_is_bold(width: i64, extents: Option<(i64, i64)>)
    ensures
        ({
            let ops = drawing::message_ops(width, extents);
            &&& ops[0] == Op::Font { bold: true }
            &&& ops[1] == Op::FontSize(15)
            &&& extents is None ==> ops.len() == 2
            &&& extents is Some ==> ops.len() == 7 && ops[2] == paint(5, 5, 5, 90) && ops[4]
                == Op::Fill && ops[5] == paint(100, 100, 100, 95)
        }),
{
}

/// The title of the menu is the program's name, and the message names what was looked for in vain.
pub proof fn title_and_message_are_fixed()
    ensures
        Text::MenuTitle.says() == "omg-keys"@,
        Text::NoHints.says() == "omg-keys: no hintable elements found here \u{2014} try Right Shift/Super for grid mode instead \u{2014} Esc to close"@,
{
}

} // verus!
