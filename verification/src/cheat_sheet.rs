//! The keys and what they do, as the menus show them.

use vstd::prelude::*;

verus! {

/// How many lines the sheet has.
pub const CHEAT_LINES: usize = 11;

/// Keys and what they do.
pub const CHEAT_SHEET: [(&'static str, &'static str); 11] = [
    ("Right Shift / Super (tap)", "Open grid mode"),
    ("Control_R", "Open hint mode (AT-SPI/vision element hints)"),
    ("Super (hold)", "Open this menu"),
    ("<coarse><fine>", "Grid: pick a cell by its two-key code"),
    ("h j k l / arrows", "Nudge the cursor"),
    ("Space", "Click"),
    ("Shift + Space", "Right-click"),
    ("Left Shift (hold)", "Click-and-drag: hold, nudge to select, release to finish"),
    ("<label>", "Hints: type a target's label to warp + click it"),
    ("Backspace", "Undo the last typed character"),
    ("Escape", "Close the overlay"),
];

} // verus!
