//! The settings menu in a terminal: what its keys do and what it shows.

use vstd::prelude::*;

use crate::cheat_sheet::{CHEAT_LINES, CHEAT_SHEET};
use crate::config::{Settings, NUDGE_STEP_INCREMENT};

verus! {

pub const TITLE: &'static str = "OmaKeys";

pub const SHEET_TITLE: &'static str = "Keybindings";

pub const SETTINGS_TITLE: &'static str = "Settings";

pub const ADJUST_KEYS: &'static str = "+ / -";

pub const FOOTER: &'static str = "Esc / q to quit";

pub const CREDIT: &'static str = "Nick Maietta <nick@maietta.org>";

pub const NUDGE_PREFIX: &'static str = "  Nudge speed: ";

pub const NUDGE_SUFFIX: &'static str = "px per press";

/// What stands between a key and what it does.
pub const GAP: &'static str = "  ";

/// A key of the keyboard.
#[derive(Debug, Clone, Copy, PartialEq, Eq, Structural)]
pub enum MenuKey {
    Esc,
    Char(char),
    Other,
}

/// What a key leads to.
#[derive(Debug, Clone, Copy, PartialEq, Eq, Structural)]
pub enum MenuAction {
    /// Leave the menu.
    Quit,
    /// Store the settings.
    Save(Settings),
    /// Go on.
    Nothing,
}

/// By how much a key changes the distance of a nudge.
pub open spec fn change_of(key: MenuKey) -> i64 {
    match key {
        MenuKey::Char('+') | MenuKey::Char('=') => NUDGE_STEP_INCREMENT,
        MenuKey::Char('-') => (-NUDGE_STEP_INCREMENT) as i64,
        _ => 0,
    }
}

/// Whether a key leaves the menu.
pub open spec fn leaves(key: MenuKey) -> bool {
    key == MenuKey::Esc || key == MenuKey::Char('q')
}

/// Takes in a key. Only its being pressed counts, not its being repeated or released.
pub fn handle_key(settings: &mut Settings, key: MenuKey, pressed: bool) -> (a: MenuAction)
    ensures
        *final(settings) == if pressed && !leaves(key) && change_of(key) != 0 {
            old(settings).adjusted(change_of(key))
        } else {
            *old(settings)
        },
        a == if !pressed {
            MenuAction::Nothing
        } else if leaves(key) {
            MenuAction::Quit
        } else if change_of(key) != 0 {
            MenuAction::Save(*final(settings))
        } else {
            MenuAction::Nothing
        },
{
    if !pressed {
        return MenuAction::Nothing;
    }
    let delta: i64 = match key {
        MenuKey::Esc => {
            return MenuAction::Quit;
        },
        MenuKey::Char(c) => {
            if c == 'q' {
                return MenuAction::Quit;
            } else if c == '+' || c == '=' {
                NUDGE_STEP_INCREMENT
            } else if c == '-' {
                -NUDGE_STEP_INCREMENT
            } else {
                0
            }
        },
        MenuKey::Other => 0,
    };
    if delta != 0 {
        settings.adjust(delta);
        return MenuAction::Save(*settings);
    }
    MenuAction::Nothing
}

/// What the menu shows.
#[derive(Debug)]
pub struct MenuScreen {
    /// Rows of the title, the sheet, the settings, the footer and the credit.
    pub heights: [u16; 5],
    /// The keys of the sheet, all of the same width, and what they do.
    pub lines: Vec<(String, String)>,
    /// The line of the settings, behind the keys that change it.
    pub nudge_line: String,
}

/// The greatest number of characters of the first `n` keys.
pub open spec fn key_width(n: nat) -> nat
    decreases n,
{
    if n == 0 {
        0
    } else {
        let before = key_width((n - 1) as nat);
        let here = CHEAT_SHEET[n - 1].0@.len();
        if here > before {
            here
        } else {
            before
        }
    }
}

/// `s` with spaces behind it up to the given width.
pub open spec fn padded(s: Seq<char>, width: nat) -> Seq<char> {
    if s.len() >= width {
        s
    } else {
        s + Seq::new((width - s.len()) as nat, |i: int| ' ')
    }
}

fn widest_key() -> (w: usize)
    ensures
        w == key_width(CHEAT_LINES as nat),
{
    let mut widest: usize = 0;
    let mut i: usize = 0;
    while i < CHEAT_LINES
        invariant
            i <= CHEAT_LINES,
            widest == key_width(i as nat),
        decreases CHEAT_LINES - i,
    {
        let here: usize = CHEAT_SHEET[i].0.unicode_len();
        if here > widest {
            widest = here;
        }
        i = i + 1;
    }
    widest
}

fn pad(s: &str, width: usize) -> (p: String)
    ensures
        p@ == padded(s@, width as nat),
{
    let mut p: String = s.to_owned();
    let n: usize = s.unicode_len();
    let mut i: usize = n;
    assert(p@ =~= s@ + Seq::new(0, |i: int| ' '));
    while i < width
        invariant
            n <= i,
            i <= width || i == n,
            n == s@.len(),
            p@ == s@ + Seq::new((i - n) as nat, |i: int| ' '),
        decreases width - i,
    {
        p.push(' ');
        assert(p@ =~= s@ + Seq::new((i + 1 - n) as nat, |i: int| ' '));
        i = i + 1;
    }
    assert(p@ =~= padded(s@, width as nat));
    p
}

/// The line that tells the distance of a nudge.
pub open spec fn nudge_line_of(settings: Settings) -> Seq<char> {
    NUDGE_PREFIX@ + settings.nudge_text() + NUDGE_SUFFIX@
}

/// Whether a line of the sheet shows what it should.
pub open spec fn shows_line(line: (String, String), i: int) -> bool {
    &&& line.0@ == padded(CHEAT_SHEET[i].0@, key_width(CHEAT_LINES as nat))
    &&& line.1@ == CHEAT_SHEET[i].1@
}

/// What the menu shows for the given settings.
pub fn menu_screen(settings: &Settings) -> (m: MenuScreen)
    ensures
        m.heights@ == seq![3u16, 13u16, 3u16, 1u16, 1u16],
        m.lines@.len() == CHEAT_LINES,
        forall|i: int| 0 <= i < m.lines@.len() ==> shows_line(#[trigger] m.lines@[i], i),
        m.nudge_line@ == nudge_line_of(*settings),
{
    let width: usize = widest_key();
    let mut lines: Vec<(String, String)> = Vec::new();
    let mut i: usize = 0;
    while i < CHEAT_LINES
        invariant
            i <= CHEAT_LINES,
            width == key_width(CHEAT_LINES as nat),
            lines@.len() == i,
            forall|k: int| 0 <= k < lines@.len() ==> shows_line(#[trigger] lines@[k], k),
        decreases CHEAT_LINES - i,
    {
        let line: (String, String) = (
            pad(CHEAT_SHEET[i].0, width),
            CHEAT_SHEET[i].1.to_owned(),
        );
        assert(shows_line(line, i as int));
        lines.push(line);
        i = i + 1;
    }
    let mut nudge_line: String = NUDGE_PREFIX.to_owned();
    nudge_line.append(settings.nudge_pixels().as_str());
    nudge_line.append(NUDGE_SUFFIX);
    let heights: [u16; 5] = [3, CHEAT_LINES as u16 + 2, 3, 1, 1];
    assert(heights@ =~= seq![3u16, 13u16, 3u16, 1u16, 1u16]);
    MenuScreen { heights, lines, nudge_line }
}

/// In the menu of the terminal, plus and the key it is on take the distance of a nudge up by five
/// pixels and minus down by five, and escape and `q` leave it. No other key does anything.
pub proof fn menu_keys_do_what_they_say(key: MenuKey)
    ensures
        change_of(key) == if key == MenuKey::Char('+') || key == MenuKey::Char('=') {
            5 * 450int
        } else if key == MenuKey::Char('-') {
            -5 * 450
        } else {
            0
        },
        leaves(key) <==> key == MenuKey::Esc || key == MenuKey::Char('q'),
        leaves(key) ==> change_of(key) == 0,
{
}

/// The column of the keys is as wide as the widest of them, and no wider.
pub proof fn the_key_column_is_as_wide_as_its_widest(n: nat)
    requires
        n <= CHEAT_LINES,
    ensures
        forall|i: int| 0 <= i < n ==> (#[trigger] CHEAT_SHEET[i]).0@.len() <= key_width(n),
        n > 0 ==> exists|i: int| 0 <= i < n && (#[trigger] CHEAT_SHEET[i]).0@.len() == key_width(n),
    decreases n,
{
    if n == 1 {
        assert(key_width(0) == 0);
        assert(CHEAT_SHEET[0].0@.len() == key_width(1));
    } else if n > 1 {
        the_key_column_is_as_wide_as_its_widest((n - 1) as nat);
        let before = key_width((n - 1) as nat);
        if CHEAT_SHEET[n - 1].0@.len() > before {
            assert(CHEAT_SHEET[n - 1].0@.len() == key_width(n));
        } else {
            let i = choose|i: int|
                0 <= i < n - 1 && (#[trigger] CHEAT_SHEET[i]).0@.len() == before;
            assert(CHEAT_SHEET[i].0@.len() == key_width(n));
        }
    }
}

/// Padding leaves a text as it is and adds only spaces behind it, up to the width.
pub proof fn padding_adds_spaces_behind(s: Seq<char>, width: nat)
    ensures
        padded(s, width).take(s.len() as int) == s,
        padded(s, width).len() == if s.len() < width {
            width
        } else {
            s.len()
        },
        forall|i: int| s.len() <= i < padded(s, width).len() ==> #[trigger] padded(s, width)[i] == ' ',
{
    assert(padded(s, width).take(s.len() as int) =~= s);
}

} // verus!
