//! The grid that is laid over the screen in the shape of the keyboard.
//!
//! Every cell has a code of two keys: a coarse key under the left hand picks a region of the screen,
//! and a fine key under the right hand picks a cell of that region. Where a key lies on the keyboard
//! is where it points on the screen.

use vstd::prelude::*;

use crate::units;

verus! {

/// The keys of the left hand: top, home and bottom row, each from the little finger inwards.
pub const COARSE_KEYS: [[char; 5]; 3] = [
    ['q', 'w', 'e', 'r', 't'],
    ['a', 's', 'd', 'f', 'g'],
    ['z', 'x', 'c', 'v', 'b'],
];

/// The keys of the right hand: top, home and bottom row, each from the index finger outwards.
pub const FINE_KEYS: [[char; 5]; 3] = [
    ['y', 'u', 'i', 'o', 'p'],
    ['h', 'j', 'k', 'l', ';'],
    ['n', 'm', ',', '.', '/'],
];

pub const COLS: usize = 5;

pub const ROWS: usize = 3;

/// How many cells there are.
pub const CELLS: usize = 225;

/// How many cells a region has.
pub const REGION_CELLS: usize = 15;

/// A cell of the grid, in subpixels of the screen.
#[derive(Debug, Clone, Copy)]
pub struct Cell {
    /// The coarse and the fine key.
    pub label: [char; 2],
    pub x: i64,
    pub y: i64,
    pub w: i64,
    pub h: i64,
}

impl Cell {
    /// The middle of the cell.
    pub fn center(&self) -> (c: (i64, i64))
        ensures
            c.0 == units::sat(self.x + self.w as int / 2),
            c.1 == units::sat(self.y + self.h as int / 2),
    {
        (units::plus(self.x, units::half(self.w)), units::plus(self.y, units::half(self.h)))
    }
}

/// The key in a row and a column of a layout.
pub open spec fn key_at(layout: [[char; 5]; 3], row: int, col: int) -> char {
    layout[row][col]
}

/// Whether a layout has a key at a position.
pub open spec fn lies_at(layout: [[char; 5]; 3], key: char, row: int, col: int) -> bool {
    0 <= row < ROWS && 0 <= col < COLS && key_at(layout, row, col) == key
}

/// Whether a layout has a key.
pub open spec fn has_key(layout: [[char; 5]; 3], key: char) -> bool {
    exists|row: int, col: int| lies_at(layout, key, row, col)
}

/// The row and the column of a key in a layout, the first in reading order.
pub fn find_in_layout(layout: &[[char; 5]; 3], key: char) -> (at: Option<(usize, usize)>)
    ensures
        match at {
            Some((row, col)) => lies_at(*layout, key, row as int, col as int) && forall|
                r: int,
                c: int,
            | #[trigger]
                lies_at(*layout, key, r, c) ==> row < r || row == r && col <= c,
            None => !has_key(*layout, key),
        },
{
    let mut row: usize = 0;
    while row < ROWS
        invariant
            row <= ROWS,
            forall|r: int, c: int| #[trigger] lies_at(*layout, key, r, c) ==> row <= r,
        decreases ROWS - row,
    {
        let mut col: usize = 0;
        while col < COLS
            invariant
                row < ROWS,
                col <= COLS,
                forall|r: int, c: int| #[trigger]
                    lies_at(*layout, key, r, c) ==> row < r || row == r && col <= c,
            decreases COLS - col,
        {
            if layout[row][col] == key {
                assert(lies_at(*layout, key, row as int, col as int));
                return Some((row, col));
            }
            col = col + 1;
        }
        row = row + 1;
    }
    None
}

/// Whether a key picks a region.
pub fn is_coarse_key(key: char) -> (r: bool)
    ensures
        r == has_key(COARSE_KEYS, key),
{
    find_in_layout(&COARSE_KEYS, key).is_some()
}

/// Whether a key picks a cell of a region.
pub fn is_fine_key(key: char) -> (r: bool)
    ensures
        r == has_key(FINE_KEYS, key),
{
    find_in_layout(&FINE_KEYS, key).is_some()
}

/// The `i`th key, in reading order of the left hand and then of the right hand.
pub open spec fn letter(i: int) -> char {
    if i < REGION_CELLS {
        key_at(COARSE_KEYS, i / (COLS as int), i % (COLS as int))
    } else {
        key_at(FINE_KEYS, (i - REGION_CELLS) / (COLS as int), (i - REGION_CELLS) % (COLS as int))
    }
}

/// The keys that labels are made of.
pub open spec fn alphabet() -> Seq<char> {
    Seq::new(30, |i: int| letter(i))
}

/// All keys of the grid. Hints are labeled with the same keys as cells.
pub fn hint_alphabet() -> (keys: Vec<char>)
    ensures
        keys@ == alphabet(),
{
    let mut keys: Vec<char> = Vec::new();
    let mut i: usize = 0;
    while i < 2 * REGION_CELLS
        invariant
            i <= 30,
            keys@.len() == i,
            forall|k: int| 0 <= k < i ==> #[trigger] keys@[k] == letter(k),
        decreases 30 - i,
    {
        let key: char = if i < REGION_CELLS {
            COARSE_KEYS[i / COLS][i % COLS]
        } else {
            FINE_KEYS[(i - REGION_CELLS) / COLS][(i - REGION_CELLS) % COLS]
        };
        keys.push(key);
        i = i + 1;
    }
    assert(keys@ =~= alphabet());
    keys
}

/// Whether a key can be part of a label.
pub fn is_hint_key(key: char) -> (r: bool)
    ensures
        r == alphabet().contains(key),
{
    proof {
        labels_use_the_keys_of_the_grid(key);
    }
    is_coarse_key(key) || is_fine_key(key)
}

/// The keys of labels are those of the two layouts.
pub proof fn labels_use_the_keys_of_the_grid(key: char)
    ensures
        alphabet().contains(key) <==> has_key(COARSE_KEYS, key) || has_key(FINE_KEYS, key),
{
    if alphabet().contains(key) {
        let i = choose|i: int| 0 <= i < 30 && alphabet()[i] == key;
        if i < REGION_CELLS {
            assert(lies_at(COARSE_KEYS, key, i / 5, i % 5));
        } else {
            assert(lies_at(FINE_KEYS, key, (i - 15) / 5, (i - 15) % 5));
        }
    }
    if has_key(COARSE_KEYS, key) {
        let (row, col) = choose|row: int, col: int| lies_at(COARSE_KEYS, key, row, col);
        assert(alphabet()[row * 5 + col] == key);
    }
    if has_key(FINE_KEYS, key) {
        let (row, col) = choose|row: int, col: int| lies_at(FINE_KEYS, key, row, col);
        assert(alphabet()[15 + row * 5 + col] == key);
    }
}

/// Where a key stands in the alphabet.
spec fn rank(key: char) -> int {
    if key == 'q' {
        0
    } else if key == 'w' {
        1
    } else if key == 'e' {
        2
    } else if key == 'r' {
        3
    } else if key == 't' {
        4
    } else if key == 'a' {
        5
    } else if key == 's' {
        6
    } else if key == 'd' {
        7
    } else if key == 'f' {
        8
    } else if key == 'g' {
        9
    } else if key == 'z' {
        10
    } else if key == 'x' {
        11
    } else if key == 'c' {
        12
    } else if key == 'v' {
        13
    } else if key == 'b' {
        14
    } else if key == 'y' {
        15
    } else if key == 'u' {
        16
    } else if key == 'i' {
        17
    } else if key == 'o' {
        18
    } else if key == 'p' {
        19
    } else if key == 'h' {
        20
    } else if key == 'j' {
        21
    } else if key == 'k' {
        22
    } else if key == 'l' {
        23
    } else if key == ';' {
        24
    } else if key == 'n' {
        25
    } else if key == 'm' {
        26
    } else if key == ',' {
        27
    } else if key == '.' {
        28
    } else if key == '/' {
        29
    } else {
        -1
    }
}

proof fn lemma_rank(i: int)
    requires
        0 <= i < 30,
    ensures
        rank(letter(i)) == i,
{
    assert(rank(letter(0)) == 0);
    assert(rank(letter(1)) == 1);
    assert(rank(letter(2)) == 2);
    assert(rank(letter(3)) == 3);
    assert(rank(letter(4)) == 4);
    assert(rank(letter(5)) == 5);
    assert(rank(letter(6)) == 6);
    assert(rank(letter(7)) == 7);
    assert(rank(letter(8)) == 8);
    assert(rank(letter(9)) == 9);
    assert(rank(letter(10)) == 10);
    assert(rank(letter(11)) == 11);
    assert(rank(letter(12)) == 12);
    assert(rank(letter(13)) == 13);
    assert(rank(letter(14)) == 14);
    assert(rank(letter(15)) == 15);
    assert(rank(letter(16)) == 16);
    assert(rank(letter(17)) == 17);
    assert(rank(letter(18)) == 18);
    assert(rank(letter(19)) == 19);
    assert(rank(letter(20)) == 20);
    assert(rank(letter(21)) == 21);
    assert(rank(letter(22)) == 22);
    assert(rank(letter(23)) == 23);
    assert(rank(letter(24)) == 24);
    assert(rank(letter(25)) == 25);
    assert(rank(letter(26)) == 26);
    assert(rank(letter(27)) == 27);
    assert(rank(letter(28)) == 28);
    assert(rank(letter(29)) == 29);
}

/// No two keys of the alphabet are the same.
pub proof fn alphabet_has_no_repeats(i: int, j: int)
    requires
        0 <= i < alphabet().len(),
        0 <= j < alphabet().len(),
        i != j,
    ensures
        alphabet()[i] != alphabet()[j],
{
    lemma_rank(i);
    lemma_rank(j);
}

/// Left edge of the cell in the column `fc` of a region in the column `cc`.
pub open spec fn cell_left(screen_w: int, cc: int, fc: int) -> int {
    (COLS * cc + fc) * (18 * screen_w)
}

/// Top edge of the cell in the row `fr` of a region in the row `cr`.
pub open spec fn cell_top(screen_h: int, cr: int, fr: int) -> int {
    (ROWS * cr + fr) * (50 * screen_h)
}

/// The cell in the row `fr` and the column `fc` of the region in the row `cr` and the column `cc`.
pub open spec fn cell_at(
    screen_w: i32,
    screen_h: i32,
    cr: int,
    cc: int,
    fr: int,
    fc: int,
) -> Cell {
    Cell {
        label: [key_at(COARSE_KEYS, cr, cc), key_at(FINE_KEYS, fr, fc)],
        x: cell_left(screen_w as int, cc, fc) as i64,
        y: cell_top(screen_h as int, cr, fr) as i64,
        w: (18 * screen_w) as i64,
        h: (50 * screen_h) as i64,
    }
}

/// The `i`th cell: region by region in reading order, and within a region in reading order.
pub open spec fn nth_cell(screen_w: i32, screen_h: i32, i: int) -> Cell {
    cell_at(screen_w, screen_h, i / 75, (i / 15) % 5, (i / 5) % 3, i % 5)
}

/// All cells of a screen of the given size in pixels.
pub open spec fn grid_cells(screen_w: i32, screen_h: i32) -> Seq<Cell> {
    Seq::new(CELLS as nat, |i: int| nth_cell(screen_w, screen_h, i))
}

/// Builds the grid over a screen of the given size in pixels. The coarse key divides the screen into
/// five by three regions, and the fine key divides a region again in the same way.
pub fn build_grid(screen_w: i32, screen_h: i32) -> (cells: Vec<Cell>)
    ensures
        cells@ == grid_cells(screen_w, screen_h),
{
    let (sub_w, sub_h): (i64, i64) = (18 * screen_w as i64, 50 * screen_h as i64);
    let mut cells: Vec<Cell> = Vec::new();
    let mut i: usize = 0;
    while i < CELLS
        invariant
            i <= CELLS,
            sub_w == 18 * screen_w,
            sub_h == 50 * screen_h,
            cells@.len() == i,
            forall|k: int| 0 <= k < i ==> #[trigger] cells@[k] == nth_cell(screen_w, screen_h, k),
        decreases CELLS - i,
    {
        let (coarse_row, coarse_col): (usize, usize) = (i / 75, (i / 15) % 5);
        let (fine_row, fine_col): (usize, usize) = ((i / 5) % 3, i % 5);
        let (col, row): (i64, i64) = (
            (5 * coarse_col + fine_col) as i64,
            (3 * coarse_row + fine_row) as i64,
        );
        proof {
            lemma_offset(col as int, sub_w as int);
            lemma_offset(row as int, sub_h as int);
        }
        let cell: Cell = Cell {
            label: [COARSE_KEYS[coarse_row][coarse_col], FINE_KEYS[fine_row][fine_col]],
            x: col * sub_w,
            y: row * sub_h,
            w: sub_w,
            h: sub_h,
        };
        assert(cell.label == nth_cell(screen_w, screen_h, i as int).label) by {
            assert(cell.label =~= nth_cell(screen_w, screen_h, i as int).label);
        }
        cells.push(cell);
        i = i + 1;
    }
    assert(cells@ =~= grid_cells(screen_w, screen_h));
    cells
}

proof fn lemma_offset(n: int, size: int)
    requires
        0 <= n <= 25,
        -50 * 0x8000_0000 <= size <= 50 * 0x8000_0000,
    ensures
        -25 * 50 * 0x8000_0000 <= n * size <= 25 * 50 * 0x8000_0000,
{
    assert(-25 * 50 * 0x8000_0000 <= n * size <= 25 * 50 * 0x8000_0000) by (nonlinear_arith)
        requires
            0 <= n <= 25,
            -50 * 0x8000_0000 <= size <= 50 * 0x8000_0000,
    ;
}

/// Whether a cell has the given code.
pub open spec fn labeled(cell: Cell, coarse: char, fine: char) -> bool {
    cell.label[0] == coarse && cell.label[1] == fine
}

/// Whether `i` is the first cell with the given code.
pub open spec fn first_labeled(cells: Seq<Cell>, coarse: char, fine: char, i: int) -> bool {
    &&& 0 <= i < cells.len()
    &&& labeled(cells[i], coarse, fine)
    &&& forall|j: int| 0 <= j < i ==> !labeled(#[trigger] cells[j], coarse, fine)
}

/// The cell with the given code.
pub fn find_cell<'a>(cells: &'a Vec<Cell>, coarse: char, fine: char) -> (cell: Option<&'a Cell>)
    ensures
        match cell {
            Some(cell) => exists|i: int|
                #[trigger] first_labeled(cells@, coarse, fine, i) && *cell == cells@[i],
            None => forall|i: int|
                0 <= i < cells@.len() ==> !labeled(#[trigger] cells@[i], coarse, fine),
        },
{
    let mut i: usize = 0;
    while i < cells.len()
        invariant
            i <= cells@.len(),
            forall|j: int| 0 <= j < i ==> !labeled(#[trigger] cells@[j], coarse, fine),
        decreases cells.len() - i,
    {
        if cells[i].label[0] == coarse && cells[i].label[1] == fine {
            assert(first_labeled(cells@, coarse, fine, i as int));
            return Some(&cells[i]);
        }
        i = i + 1;
    }
    None
}

/// The cells of a region.
pub open spec fn region_cells(cells: Seq<Cell>, coarse: char) -> Seq<Cell>
    decreases cells.len(),
{
    if cells.len() == 0 {
        Seq::empty()
    } else {
        let before = region_cells(cells.drop_last(), coarse);
        if cells.last().label[0] == coarse {
            before.push(cells.last())
        } else {
            before
        }
    }
}

/// The cells of a region.
pub fn cells_in_region<'a>(cells: &'a Vec<Cell>, coarse: char) -> (region: Vec<&'a Cell>)
    ensures
        region@.len() == region_cells(cells@, coarse).len(),
        forall|i: int|
            0 <= i < region@.len() ==> *(#[trigger] region@[i]) == region_cells(cells@, coarse)[i],
{
    let mut region: Vec<&'a Cell> = Vec::new();
    let mut i: usize = 0;
    while i < cells.len()
        invariant
            i <= cells@.len(),
            region@.len() == region_cells(cells@.take(i as int), coarse).len(),
            forall|k: int|
                0 <= k < region@.len() ==> *(#[trigger] region@[k]) == region_cells(
                    cells@.take(i as int),
                    coarse,
                )[k],
        decreases cells.len() - i,
    {
        proof {
            assert(cells@.take(i + 1).drop_last() =~= cells@.take(i as int));
        }
        if cells[i].label[0] == coarse {
            region.push(&cells[i]);
        }
        i = i + 1;
    }
    assert(cells@.take(i as int) =~= cells@);
    region
}

/// Right edge of a cell.
pub open spec fn cell_right(c: Cell) -> i64 {
    units::sat(c.x + c.w)
}

/// Bottom edge of a cell.
pub open spec fn cell_bottom(c: Cell) -> i64 {
    units::sat(c.y + c.h)
}

/// Left, top, right and bottom edge of the box around some cells.
pub open spec fn extent(cells: Seq<Cell>) -> (i64, i64, i64, i64)
    decreases cells.len(),
{
    let c = cells.last();
    if cells.len() <= 1 {
        (c.x, c.y, cell_right(c), cell_bottom(c))
    } else {
        let (left, top, right, bottom) = extent(cells.drop_last());
        (
            if c.x < left {
                c.x
            } else {
                left
            },
            if c.y < top {
                c.y
            } else {
                top
            },
            if cell_right(c) > right {
                cell_right(c)
            } else {
                right
            },
            if cell_bottom(c) > bottom {
                cell_bottom(c)
            } else {
                bottom
            },
        )
    }
}

/// The middle of a region, if it has cells.
pub open spec fn region_center(cells: Seq<Cell>, coarse: char) -> Option<(i64, i64)> {
    let region = region_cells(cells, coarse);
    let (left, top, right, bottom) = extent(region);
    if region.len() == 0 {
        None
    } else {
        Some((((left + right) / 2) as i64, ((top + bottom) / 2) as i64))
    }
}

fn midpoint(a: i64, b: i64) -> (m: i64)
    ensures
        m == (a + b) / 2,
{
    let sum: i128 = a as i128 + b as i128;
    if sum >= 0 {
        (sum / 2) as i64
    } else {
        (-((-(sum + 1)) / 2) - 1) as i64
    }
}

/// Left, top, right and bottom edge of a region, if it has cells.
pub fn region_extent(cells: &Vec<Cell>, coarse: char) -> (e: Option<(i64, i64, i64, i64)>)
    ensures
        e == if region_cells(cells@, coarse).len() == 0 {
            None
        } else {
            Some(extent(region_cells(cells@, coarse)))
        },
{
    let region: Vec<&Cell> = cells_in_region(cells, coarse);
    let ghost all = region_cells(cells@, coarse);
    if region.len() == 0 {
        return None;
    }
    let first: &Cell = region[0];
    let (mut left, mut top): (i64, i64) = (first.x, first.y);
    let (mut right, mut bottom): (i64, i64) = (
        units::plus(first.x, first.w),
        units::plus(first.y, first.h),
    );
    let mut i: usize = 1;
    assert(all.take(1).last() == all[0]);
    while i < region.len()
        invariant
            1 <= i <= region@.len(),
            region@.len() == all.len(),
            forall|k: int| 0 <= k < region@.len() ==> *(#[trigger] region@[k]) == all[k],
            (left, top, right, bottom) == extent(all.take(i as int)),
        decreases region.len() - i,
    {
        let c: &Cell = region[i];
        proof {
            assert(*region@[i as int] == all[i as int]);
            assert(all.take(i + 1).drop_last() =~= all.take(i as int));
            assert(all.take(i + 1).last() == all[i as int]);
        }
        if c.x < left {
            left = c.x;
        }
        if c.y < top {
            top = c.y;
        }
        let (c_right, c_bottom): (i64, i64) = (units::plus(c.x, c.w), units::plus(c.y, c.h));
        if c_right > right {
            right = c_right;
        }
        if c_bottom > bottom {
            bottom = c_bottom;
        }
        i = i + 1;
    }
    assert(all.take(i as int) =~= all);
    Some((left, top, right, bottom))
}

/// The middle of a whole region: where the pointer starts from when it is nudged right after a
/// coarse key.
pub fn coarse_region_center(cells: &Vec<Cell>, coarse: char) -> (c: Option<(i64, i64)>)
    ensures
        c == region_center(cells@, coarse),
{
    match region_extent(cells, coarse) {
        Some((left, top, right, bottom)) => Some((midpoint(left, right), midpoint(top, bottom))),
        None => None,
    }
}

proof fn lemma_label(screen_w: i32, screen_h: i32, i: int)
    requires
        0 <= i < CELLS,
    ensures
        nth_cell(screen_w, screen_h, i).label[0] == letter(i / 15),
        nth_cell(screen_w, screen_h, i).label[1] == letter(15 + i % 15),
{
    assert((i / 15) / 5 == i / 75 && (i % 15) / 5 == (i / 5) % 3 && (i % 15) % 5 == i % 5);
}

/// No two cells of a grid have the same code.
pub proof fn codes_are_unique(screen_w: i32, screen_h: i32, i: int, j: int)
    requires
        0 <= i < CELLS,
        0 <= j < CELLS,
        i != j,
    ensures
        grid_cells(screen_w, screen_h)[i].label[0] != grid_cells(screen_w, screen_h)[j].label[0]
            || grid_cells(screen_w, screen_h)[i].label[1] != grid_cells(
            screen_w,
            screen_h,
        )[j].label[1],
{
    lemma_label(screen_w, screen_h, i);
    lemma_label(screen_w, screen_h, j);
    lemma_rank(i / 15);
    lemma_rank(j / 15);
    lemma_rank(15 + i % 15);
    lemma_rank(15 + j % 15);
}

/// Where the cell of the given rows and columns stands in a grid.
pub open spec fn code_index(cr: int, cc: int, fr: int, fc: int) -> int {
    75 * cr + 15 * cc + 5 * fr + fc
}

proof fn lemma_code_index(cr: int, cc: int, fr: int, fc: int)
    requires
        0 <= cr < 3,
        0 <= cc < 5,
        0 <= fr < 3,
        0 <= fc < 5,
    ensures
        0 <= code_index(cr, cc, fr, fc) < 225,
        code_index(cr, cc, fr, fc) / 75 == cr,
        (code_index(cr, cc, fr, fc) / 15) % 5 == cc,
        (code_index(cr, cc, fr, fc) / 5) % 3 == fr,
        code_index(cr, cc, fr, fc) % 5 == fc,
{
    let i = code_index(cr, cc, fr, fc);
    assert(i / 15 == 5 * cr + cc);
    assert(i / 5 == 15 * cr + 3 * cc + fr);
}

/// The cell of a coarse and a fine key stands where the two keys lie on the keyboard, and it is the
/// one with that code.
pub proof fn every_code_has_its_cell(
    screen_w: i32,
    screen_h: i32,
    cr: int,
    cc: int,
    fr: int,
    fc: int,
)
    requires
        0 <= cr < ROWS,
        0 <= cc < COLS,
        0 <= fr < ROWS,
        0 <= fc < COLS,
    ensures
        first_labeled(
            grid_cells(screen_w, screen_h),
            key_at(COARSE_KEYS, cr, cc),
            key_at(FINE_KEYS, fr, fc),
            code_index(cr, cc, fr, fc),
        ),
        grid_cells(screen_w, screen_h)[code_index(cr, cc, fr, fc)] == cell_at(
            screen_w,
            screen_h,
            cr,
            cc,
            fr,
            fc,
        ),
{
    let cells = grid_cells(screen_w, screen_h);
    let i = code_index(cr, cc, fr, fc);
    lemma_code_index(cr, cc, fr, fc);
    let coarse = key_at(COARSE_KEYS, cr, cc);
    let fine = key_at(FINE_KEYS, fr, fc);
    assert(cells[i] == cell_at(screen_w, screen_h, cr, cc, fr, fc));
    assert forall|j: int| 0 <= j < i implies !labeled(#[trigger] cells[j], coarse, fine) by {
        codes_are_unique(screen_w, screen_h, i, j);
    }
}

proof fn lemma_cell_bounds(screen_w: i32, screen_h: i32, cr: int, cc: int, fr: int, fc: int)
    requires
        screen_w >= 0,
        screen_h >= 0,
        0 <= cr < ROWS,
        0 <= cc < COLS,
        0 <= fr < ROWS,
        0 <= fc < COLS,
    ensures
        0 <= cell_left(screen_w as int, cc, fc) <= i64::MAX,
        0 <= cell_top(screen_h as int, cr, fr) <= i64::MAX,
{
    let (col, w) = (COLS * cc + fc, 18 * screen_w);
    let (row, h) = (ROWS * cr + fr, 50 * screen_h);
    assert(0 <= col * w <= 24 * (18 * 0x8000_0000) && 0 <= row * h <= 8 * (50 * 0x8000_0000)) by (
        nonlinear_arith)
        requires
            0 <= col <= 24,
            0 <= w <= 18 * 0x8000_0000,
            0 <= row <= 8,
            0 <= h <= 50 * 0x8000_0000,
    ;
}

/// Cells lie on the screen as their keys lie on the keyboard: a coarse key further to the right
/// points further to the right, whatever the fine key is, and with the same coarse key so does a fine
/// key further to the right. Keys of lower rows point further down in the same way.
pub proof fn cells_lie_as_their_keys_do(
    screen_w: i32,
    screen_h: i32,
    a: (int, int, int, int),
    b: (int, int, int, int),
)
    requires
        screen_w >= 0,
        screen_h >= 0,
        0 <= a.0 < ROWS && 0 <= a.1 < COLS && 0 <= a.2 < ROWS && 0 <= a.3 < COLS,
        0 <= b.0 < ROWS && 0 <= b.1 < COLS && 0 <= b.2 < ROWS && 0 <= b.3 < COLS,
    ensures
        ({
            let p = cell_at(screen_w, screen_h, a.0, a.1, a.2, a.3);
            let q = cell_at(screen_w, screen_h, b.0, b.1, b.2, b.3);
            &&& a.1 < b.1 || a.1 == b.1 && a.3 < b.3 ==> p.x + p.w <= q.x
            &&& a.0 < b.0 || a.0 == b.0 && a.2 < b.2 ==> p.y + p.h <= q.y
        }),
{
    lemma_cell_bounds(screen_w, screen_h, a.0, a.1, a.2, a.3);
    lemma_cell_bounds(screen_w, screen_h, b.0, b.1, b.2, b.3);
    let (w, h) = (18 * screen_w, 50 * screen_h);
    let (col_a, col_b) = (COLS * a.1 + a.3, COLS * b.1 + b.3);
    let (row_a, row_b) = (ROWS * a.0 + a.2, ROWS * b.0 + b.2);
    if col_a < col_b {
        assert(col_a * w + w <= col_b * w) by (nonlinear_arith)
            requires
                col_a + 1 <= col_b,
                0 <= w,
        ;
    }
    if row_a < row_b {
        assert(row_a * h + h <= row_b * h) by (nonlinear_arith)
            requires
                row_a + 1 <= row_b,
                0 <= h,
        ;
    }
}

/// A grid has no cell for a code that is not made of a coarse and a fine key.
pub proof fn other_codes_have_no_cell(
    screen_w: i32,
    screen_h: i32,
    coarse: char,
    fine: char,
    i: int,
)
    requires
        0 <= i < CELLS,
        labeled(grid_cells(screen_w, screen_h)[i], coarse, fine),
    ensures
        has_key(COARSE_KEYS, coarse),
        has_key(FINE_KEYS, fine),
{
    assert(lies_at(COARSE_KEYS, coarse, i / 75, (i / 15) % 5));
    assert(lies_at(FINE_KEYS, fine, (i / 5) % 3, i % 5));
}

/// Whether a point lies in a cell.
pub open spec fn in_cell(c: Cell, px: int, py: int) -> bool {
    c.x <= px < c.x + c.w && c.y <= py < c.y + c.h
}

proof fn lemma_slot(p: int, size: int, n: int)
    requires
        size > 0,
        n > 0,
        0 <= p < n * size,
    ensures
        0 <= p / size < n,
        (p / size) * size <= p < (p / size) * size + size,
{
    assert(0 <= p / size < n && (p / size) * size <= p < (p / size) * size + size) by (
        nonlinear_arith)
        requires
            size > 0,
            n > 0,
            0 <= p < n * size,
    ;
}

proof fn lemma_one_slot(p: int, size: int, a: int, b: int)
    requires
        size > 0,
        a * size <= p < a * size + size,
        b * size <= p < b * size + size,
    ensures
        a == b,
{
    assert(a == b) by (nonlinear_arith)
        requires
            size > 0,
            a * size <= p < a * size + size,
            b * size <= p < b * size + size,
    ;
}

proof fn lemma_edges(screen_w: i32, screen_h: i32, i: int)
    requires
        0 <= i < CELLS,
        screen_w > 0,
        screen_h > 0,
    ensures
        ({
            let c = nth_cell(screen_w, screen_h, i);
            let col = 5 * ((i / 15) % 5) + i % 5;
            let row = 3 * (i / 75) + (i / 5) % 3;
            &&& 0 <= col < 25
            &&& 0 <= row < 9
            &&& c.x == col * (18 * screen_w)
            &&& c.y == row * (50 * screen_h)
            &&& c.w == 18 * screen_w
            &&& c.h == 50 * screen_h
        }),
{
    let col = 5 * ((i / 15) % 5) + i % 5;
    let row = 3 * (i / 75) + (i / 5) % 3;
    lemma_offset(col, 18 * screen_w);
    lemma_offset(row, 50 * screen_h);
}

proof fn lemma_one_cell(screen_w: i32, screen_h: i32, px: int, py: int, a: int, b: int)
    requires
        screen_w > 0,
        screen_h > 0,
        0 <= a < CELLS,
        0 <= b < CELLS,
        in_cell(nth_cell(screen_w, screen_h, a), px, py),
        in_cell(nth_cell(screen_w, screen_h, b), px, py),
    ensures
        a == b,
{
    let (sw, sh) = (18 * screen_w, 50 * screen_h);
    lemma_edges(screen_w, screen_h, a);
    lemma_edges(screen_w, screen_h, b);
    let (a_col, b_col) = (5 * ((a / 15) % 5) + a % 5, 5 * ((b / 15) % 5) + b % 5);
    let (a_row, b_row) = (3 * (a / 75) + (a / 5) % 3, 3 * (b / 75) + (b / 5) % 3);
    lemma_one_slot(px, sw, a_col, b_col);
    lemma_one_slot(py, sh, a_row, b_row);
    lemma_recomposed(a);
    lemma_recomposed(b);
}

proof fn lemma_recomposed(i: int)
    requires
        0 <= i < 225,
    ensures
        i == code_index(i / 75, (i / 15) % 5, (i / 5) % 3, i % 5),
{
}

proof fn lemma_some_cell(screen_w: i32, screen_h: i32, px: int, py: int) -> (i: int)
    requires
        screen_w > 0,
        screen_h > 0,
        0 <= px < 25 * (18 * screen_w),
        0 <= py < 9 * (50 * screen_h),
    ensures
        0 <= i < CELLS,
        in_cell(nth_cell(screen_w, screen_h, i), px, py),
{
    let (sw, sh) = (18 * screen_w, 50 * screen_h);
    lemma_slot(px, sw, 25);
    lemma_slot(py, sh, 9);
    let (col, row) = (px / sw, py / sh);
    let i = code_index(row / 3, col / 5, row % 3, col % 5);
    lemma_code_index(row / 3, col / 5, row % 3, col % 5);
    lemma_edges(screen_w, screen_h, i);
    i
}

/// The cells tile the screen: every point of it lies in one cell, and in no other.
pub proof fn cells_tile_the_screen(screen_w: i32, screen_h: i32, px: int, py: int)
    requires
        screen_w > 0,
        screen_h > 0,
        0 <= px < units::SUBPIXELS * screen_w,
        0 <= py < units::SUBPIXELS * screen_h,
    ensures
        exists|i: int|
            0 <= i < CELLS && in_cell(#[trigger] grid_cells(screen_w, screen_h)[i], px, py),
        forall|i: int, j: int|
            0 <= i < CELLS && 0 <= j < CELLS && in_cell(
                #[trigger] grid_cells(screen_w, screen_h)[i],
                px,
                py,
            ) && in_cell(#[trigger] grid_cells(screen_w, screen_h)[j], px, py) ==> i == j,
{
    let cells = grid_cells(screen_w, screen_h);
    let i = lemma_some_cell(screen_w, screen_h, px, py);
    assert(in_cell(cells[i], px, py));
    assert forall|a: int, b: int|
        0 <= a < CELLS && 0 <= b < CELLS && in_cell(#[trigger] cells[a], px, py) && in_cell(
            #[trigger] cells[b],
            px,
            py,
        ) implies a == b by {
        lemma_one_cell(screen_w, screen_h, px, py, a, b);
    }
}

/// The middle of a cell of a grid lies in that cell.
pub proof fn centers_lie_in_their_cells(screen_w: i32, screen_h: i32, i: int)
    requires
        screen_w > 0,
        screen_h > 0,
        0 <= i < CELLS,
    ensures
        ({
            let c = grid_cells(screen_w, screen_h)[i];
            &&& in_cell(c, c.x + c.w as int / 2, c.y + c.h as int / 2)
            &&& units::sat(c.x + c.w as int / 2) == c.x + c.w as int / 2
            &&& units::sat(c.y + c.h as int / 2) == c.y + c.h as int / 2
            &&& 0 <= c.x && c.x + c.w <= units::SUBPIXELS * screen_w
            &&& 0 <= c.y && c.y + c.h <= units::SUBPIXELS * screen_h
        }),
{
    lemma_edges(screen_w, screen_h, i);
    let col = 5 * ((i / 15) % 5) + i % 5;
    let row = 3 * (i / 75) + (i / 5) % 3;
    assert(0 <= col * (18 * screen_w) <= 24 * (18 * screen_w)) by (nonlinear_arith)
        requires
            0 <= col <= 24,
            screen_w > 0,
    ;
    assert(0 <= row * (50 * screen_h) <= 8 * (50 * screen_h)) by (nonlinear_arith)
        requires
            0 <= row <= 8,
            screen_h > 0,
    ;
}

proof fn lemma_region_member(cells: Seq<Cell>, coarse: char)
    ensures
        forall|c: Cell|
            #[trigger] region_cells(cells, coarse).contains(c) <==> cells.contains(c) && c.label[0]
                == coarse,
    decreases cells.len(),
{
    if cells.len() > 0 {
        let front = cells.drop_last();
        lemma_region_member(front, coarse);
        let before = region_cells(front, coarse);
        let all = region_cells(cells, coarse);
        assert forall|c: Cell| #[trigger] all.contains(c) implies cells.contains(c) && c.label[0]
            == coarse by {
            let i = choose|i: int| 0 <= i < all.len() && all[i] == c;
            if i < before.len() {
                assert(before[i] == c);
                assert(before.contains(c));
                let k = choose|k: int| 0 <= k < front.len() && front[k] == c;
                assert(cells[k] == c);
            } else {
                assert(cells[cells.len() - 1] == c);
            }
        }
        assert forall|c: Cell| #[trigger]
            cells.contains(c) && c.label[0] == coarse implies all.contains(c) by {
            let k = choose|k: int| 0 <= k < cells.len() && cells[k] == c;
            if k < front.len() {
                assert(front[k] == c);
                assert(front.contains(c));
                assert(before.contains(c));
                let i = choose|i: int| 0 <= i < before.len() && before[i] == c;
                assert(all[i] == c);
            } else {
                assert(all[all.len() - 1] == c);
            }
        }
    }
}

/// Whether `e` is the box around the cells: none reaches beyond it, and one of them reaches each
/// of its sides.
pub open spec fn is_extent(cells: Seq<Cell>, e: (i64, i64, i64, i64)) -> bool {
    &&& forall|i: int|
        0 <= i < cells.len() ==> {
            let c = #[trigger] cells[i];
            e.0 <= c.x && e.1 <= c.y && cell_right(c) <= e.2 && cell_bottom(c) <= e.3
        }
    &&& exists|i: int| 0 <= i < cells.len() && (#[trigger] cells[i]).x == e.0
    &&& exists|i: int| 0 <= i < cells.len() && (#[trigger] cells[i]).y == e.1
    &&& exists|i: int| 0 <= i < cells.len() && cell_right(#[trigger] cells[i]) == e.2
    &&& exists|i: int| 0 <= i < cells.len() && cell_bottom(#[trigger] cells[i]) == e.3
}

/// The box around some cells is the tightest one.
pub proof fn extents_are_tight(cells: Seq<Cell>)
    requires
        cells.len() > 0,
    ensures
        is_extent(cells, extent(cells)),
    decreases cells.len(),
{
    let c = cells.last();
    let e = extent(cells);
    assert(cells[cells.len() - 1] == c);
    if cells.len() > 1 {
        let front = cells.drop_last();
        let f = extent(front);
        extents_are_tight(front);
        let a = choose|i: int| 0 <= i < front.len() && (#[trigger] front[i]).x == f.0;
        let b = choose|i: int| 0 <= i < front.len() && (#[trigger] front[i]).y == f.1;
        let r = choose|i: int| 0 <= i < front.len() && cell_right(#[trigger] front[i]) == f.2;
        let l = choose|i: int| 0 <= i < front.len() && cell_bottom(#[trigger] front[i]) == f.3;
        assert(cells[a] == front[a] && cells[b] == front[b] && cells[r] == front[r] && cells[l]
            == front[l]);
        assert forall|i: int| 0 <= i < cells.len() implies {
            let c = #[trigger] cells[i];
            e.0 <= c.x && e.1 <= c.y && cell_right(c) <= e.2 && cell_bottom(c) <= e.3
        } by {
            if i < front.len() {
                assert(cells[i] == front[i]);
            }
        }
    }
}

/// A region of a grid is a fifth of the screen's width and a third of its height, where the coarse key
/// lies on the keyboard.
pub proof fn regions_are_a_fifth_by_a_third(screen_w: i32, screen_h: i32, row: int, col: int)
    requires
        screen_w > 0,
        screen_h > 0,
        0 <= row < ROWS,
        0 <= col < COLS,
    ensures
        region_cells(grid_cells(screen_w, screen_h), key_at(COARSE_KEYS, row, col)).len() > 0,
        ({
            let e = extent(
                region_cells(grid_cells(screen_w, screen_h), key_at(COARSE_KEYS, row, col)),
            );
            &&& e.0 == col * (90 * screen_w)
            &&& e.1 == row * (150 * screen_h)
            &&& e.2 == (col + 1) * (90 * screen_w)
            &&& e.3 == (row + 1) * (150 * screen_h)
        }),
{
    let cells = grid_cells(screen_w, screen_h);
    let coarse = key_at(COARSE_KEYS, row, col);
    let region = region_cells(cells, coarse);
    let e = extent(region);
    let (sw, sh) = (18 * screen_w, 50 * screen_h);
    lemma_region_member(cells, coarse);
    let first = row * 75 + col * 15;
    let last = first + 14;
    lemma_region_cell(screen_w, screen_h, row, col, first);
    lemma_region_cell(screen_w, screen_h, row, col, last);
    assert(cells.contains(cells[first]) && cells.contains(cells[last]));
    assert(region.contains(cells[first]) && region.contains(cells[last]));
    let a = choose|i: int| 0 <= i < region.len() && region[i] == cells[first];
    let b = choose|i: int| 0 <= i < region.len() && region[i] == cells[last];
    extents_are_tight(region);
    assert forall|i: int| 0 <= i < region.len() implies {
        let c = #[trigger] region[i];
        &&& 5 * col * sw <= c.x
        &&& cell_right(c) <= 5 * col * sw + 5 * sw
        &&& 3 * row * sh <= c.y
        &&& cell_bottom(c) <= 3 * row * sh + 3 * sh
    } by {
        assert(region.contains(region[i]));
        let k = choose|k: int| 0 <= k < cells.len() && cells[k] == region[i];
        lemma_label(screen_w, screen_h, k);
        lemma_rank(k / 15);
        lemma_rank(row * 5 + col);
        assert(letter(row * 5 + col) == coarse);
        assert(k / 15 == row * 5 + col);
        lemma_region_cell(screen_w, screen_h, row, col, k);
    }
    assert(e.0 <= region[a].x && e.1 <= region[a].y);
    assert(cell_right(region[b]) <= e.2 && cell_bottom(region[b]) <= e.3);
    assert(e.0 == 5 * col * sw && e.1 == 3 * row * sh);
    assert(e.2 == 5 * col * sw + 5 * sw && e.3 == 3 * row * sh + 3 * sh);
    assert(5 * col * sw == col * (90 * screen_w) && 5 * col * sw + 5 * sw == (col + 1) * (90
        * screen_w)) by (nonlinear_arith)
        requires
            sw == 18 * screen_w,
    ;
    assert(3 * row * sh == row * (150 * screen_h) && 3 * row * sh + 3 * sh == (row + 1) * (150
        * screen_h)) by (nonlinear_arith)
        requires
            sh == 50 * screen_h,
    ;
}

/// The middle of a region of a grid is the middle of a fifth of the screen's width and a third of
/// its height, where the coarse key lies on the keyboard.
pub proof fn region_centers_are_in_the_middle(screen_w: i32, screen_h: i32, row: int, col: int)
    requires
        screen_w > 0,
        screen_h > 0,
        0 <= row < ROWS,
        0 <= col < COLS,
    ensures
        region_center(grid_cells(screen_w, screen_h), key_at(COARSE_KEYS, row, col)) == Some(
            (((2 * col + 1) * (45 * screen_w)) as i64, ((2 * row + 1) * (75 * screen_h)) as i64),
        ),
{
    regions_are_a_fifth_by_a_third(screen_w, screen_h, row, col);
    assert((col * (90 * screen_w) + (col + 1) * (90 * screen_w)) / 2 == (2 * col + 1) * (45
        * screen_w)) by (nonlinear_arith);
    assert((row * (150 * screen_h) + (row + 1) * (150 * screen_h)) / 2 == (2 * row + 1) * (75
        * screen_h)) by (nonlinear_arith);
}

/// The cells of a region are those with its coarse key, in the given order.
pub proof fn a_region_has_the_cells_of_its_key(cells: Seq<Cell>, coarse: char)
    ensures
        region_cells(cells, coarse) == cells.filter(|c: Cell| c.label[0] == coarse),
    decreases cells.len(),
{
    reveal(Seq::filter);
    if cells.len() > 0 {
        a_region_has_the_cells_of_its_key(cells.drop_last(), coarse);
    } else {
        assert(region_cells(cells, coarse) =~= cells);
    }
}

proof fn lemma_region_cell(screen_w: i32, screen_h: i32, row: int, col: int, k: int)
    requires
        screen_w > 0,
        screen_h > 0,
        0 <= row < ROWS,
        0 <= col < COLS,
        row * 75 + col * 15 <= k < row * 75 + col * 15 + 15,
    ensures
        ({
            let c = grid_cells(screen_w, screen_h)[k];
            let (sw, sh) = (18 * screen_w, 50 * screen_h);
            let (fr, fc) = ((k / 5) % 3, k % 5);
            &&& 0 <= k < CELLS
            &&& c.label[0] == key_at(COARSE_KEYS, row, col)
            &&& c.x == 5 * col * sw + fc * sw
            &&& cell_right(c) == 5 * col * sw + fc * sw + sw
            &&& c.y == 3 * row * sh + fr * sh
            &&& cell_bottom(c) == 3 * row * sh + fr * sh + sh
            &&& 0 <= fc * sw <= 4 * sw
            &&& 0 <= fr * sh <= 2 * sh
            &&& k == row * 75 + col * 15 ==> fc * sw == 0 && fr * sh == 0
            &&& k == row * 75 + col * 15 + 14 ==> fc * sw == 4 * sw && fr * sh == 2 * sh
        }),
{
    let (sw, sh) = (18 * screen_w, 50 * screen_h);
    let (fr, fc) = ((k / 5) % 3, k % 5);
    assert(k / 75 == row && (k / 15) % 5 == col);
    lemma_edges(screen_w, screen_h, k);
    assert((5 * col + fc) * sw == 5 * col * sw + fc * sw) by (nonlinear_arith);
    assert((3 * row + fr) * sh == 3 * row * sh + fr * sh) by (nonlinear_arith);
    assert(0 <= fc * sw <= 4 * sw) by (nonlinear_arith)
        requires
            0 <= fc <= 4,
            sw > 0,
    ;
    assert(0 <= fr * sh <= 2 * sh) by (nonlinear_arith)
        requires
            0 <= fr <= 2,
            sh > 0,
    ;
    assert(0 <= 5 * col * sw <= 20 * sw) by (nonlinear_arith)
        requires
            0 <= col <= 4,
            sw > 0,
    ;
    assert(0 <= 3 * row * sh <= 6 * sh) by (nonlinear_arith)
        requires
            0 <= row <= 2,
            sh > 0,
    ;
    if k == row * 75 + col * 15 {
        assert(fc == 0 && fr == 0);
        assert(fc * sw == 0 && fr * sh == 0) by (nonlinear_arith)
            requires
                fc == 0,
                fr == 0,
        ;
    }
    if k == row * 75 + col * 15 + 14 {
        assert(fc == 4 && fr == 2);
        assert(fc * sw == 4 * sw && fr * sh == 2 * sh) by (nonlinear_arith)
            requires
                fc == 4,
                fr == 2,
        ;
    }
}

} // verus!
