//! Settings that the user can change.

use vstd::prelude::*;

use crate::text;
use crate::units;

verus! {

/// How far a nudge moves the cursor by default, in subpixels (20 pixels).
pub const DEFAULT_NUDGE_STEP: i64 = 9000;

/// Bounds of that distance (5 and 200 pixels): a smaller nudge can hardly be seen, a larger one
/// overshoots most targets.
pub const NUDGE_STEP_MIN: i64 = 2250;

pub const NUDGE_STEP_MAX: i64 = 90000;

/// How much the distance is changed at a time (5 pixels).
pub const NUDGE_STEP_INCREMENT: i64 = 2250;

/// The settings.
#[derive(Debug, Clone, Copy, PartialEq, Eq, Structural)]
pub struct Settings {
    /// How far a nudge moves the cursor, in subpixels.
    pub nudge_step: i64,
}

impl Default for Settings {
    fn default() -> (s: Settings)
        ensures
            s.nudge_step == DEFAULT_NUDGE_STEP,
    {
        Settings { nudge_step: DEFAULT_NUDGE_STEP }
    }
}

/// What came of reading the stored settings.
#[derive(Debug, Clone, Copy, PartialEq, Eq, Structural)]
pub enum Stored {
    /// There is no place for them.
    NoPlace,
    /// There are none yet.
    Missing,
    /// They could not be read.
    Unreadable,
    /// They are not in the right form.
    Malformed,
    /// They are these.
    Parsed(Settings),
}

/// The settings to start with: the stored ones, or the default ones where there are none or they are
/// broken. A broken file does not keep the program from starting.
pub fn load(stored: Stored) -> (s: Settings)
    ensures
        s == match stored {
            Stored::Parsed(settings) => settings,
            _ => (Settings { nudge_step: DEFAULT_NUDGE_STEP }),
        },
{
    match stored {
        Stored::Parsed(settings) => settings,
        _ => Settings::default(),
    }
}

/// `v`, or the bound that it lies beyond.
pub open spec fn in_bounds(v: int) -> i64 {
    if v < NUDGE_STEP_MIN {
        NUDGE_STEP_MIN
    } else if v > NUDGE_STEP_MAX {
        NUDGE_STEP_MAX
    } else {
        v as i64
    }
}

impl Settings {
    /// The settings after the distance of a nudge was changed.
    pub open spec fn adjusted(self, delta: i64) -> Settings {
        Settings { nudge_step: in_bounds(self.nudge_step + delta) }
    }

    /// Changes the distance of a nudge, within its bounds.
    pub fn adjust(&mut self, delta: i64)
        ensures
            *final(self) == old(self).adjusted(delta),
    {
        let step: i64 = units::plus(self.nudge_step, delta);
        self.nudge_step = if step < NUDGE_STEP_MIN {
            NUDGE_STEP_MIN
        } else if step > NUDGE_STEP_MAX {
            NUDGE_STEP_MAX
        } else {
            step
        };
    }

    /// The distance of a nudge as it is shown: in whole pixels.
    pub open spec fn nudge_text(self) -> Seq<char> {
        if self.nudge_step < 0 {
            seq!['-'] + text::decimal(rounded_px((-self.nudge_step) as nat))
        } else {
            text::decimal(rounded_px(self.nudge_step as nat))
        }
    }

    /// Writes the distance of a nudge in whole pixels.
    pub fn nudge_pixels(&self) -> (s: String)
        ensures
            s@ == self.nudge_text(),
    {
        if self.nudge_step < 0 {
            let size: u64 = (-(self.nudge_step as i128)) as u64;
            let mut s: String = text::of_char('-');
            s.append(text::to_decimal(round_px(size)).as_str());
            s
        } else {
            text::to_decimal(round_px(self.nudge_step as u64))
        }
    }
}

/// The whole pixels nearest to a number of subpixels; of two the even one.
pub open spec fn rounded_px(v: nat) -> nat {
    let (whole, rest) = (v / (units::SUBPIXELS as nat), v % (units::SUBPIXELS as nat));
    if 2 * rest > units::SUBPIXELS || 2 * rest == units::SUBPIXELS && whole % 2 == 1 {
        whole + 1
    } else {
        whole
    }
}

fn round_px(v: u64) -> (r: u64)
    ensures
        r == rounded_px(v as nat),
{
    let unit: u64 = units::SUBPIXELS as u64;
    let (whole, rest): (u64, u64) = (v / unit, v % unit);
    if 2 * rest > unit || 2 * rest == unit && whole % 2 == 1 {
        whole + 1
    } else {
        whole
    }
}

/// However the distance of a nudge is changed, it is within its bounds afterwards; and where the
/// bounds are not met, a change and its opposite cancel out.
pub proof fn adjusting_stays_within_bounds(s: Settings, delta: i64)
    ensures
        NUDGE_STEP_MIN <= s.adjusted(delta).nudge_step <= NUDGE_STEP_MAX,
        NUDGE_STEP_MIN <= s.nudge_step <= NUDGE_STEP_MAX && NUDGE_STEP_MIN <= s.nudge_step + delta
            <= NUDGE_STEP_MAX && delta > i64::MIN ==> s.adjusted(delta).adjusted((-delta) as i64)
            == s,
{
}

/// The distance of a nudge is shown in the nearest whole number of pixels, the even one of two that are
/// as near.
pub proof fn distances_are_rounded_to_pixels(v: nat)
    ensures
        -225 <= 450 * rounded_px(v) - v <= 225,
        450 * rounded_px(v) - v == 225 || v - 450 * rounded_px(v) == 225 ==> rounded_px(v) % 2 == 0,
{
    let (whole, rest) = (v / 450, v % 450);
    assert(v == 450 * whole + rest);
    assert(whole % 2 == 1 ==> (whole + 1) % 2 == 0);
}

/// A change of the distance is exact between the bounds, and stops at them.
pub proof fn adjusting_adds_the_change(s: Settings, delta: i64)
    ensures
        ({
            let next = s.adjusted(delta).nudge_step;
            let sum = s.nudge_step + delta;
            &&& 5 * 450 <= sum <= 200 * 450 ==> next == sum
            &&& sum < 5 * 450 ==> next == 5 * 450
            &&& sum > 200 * 450 ==> next == 200 * 450
        }),
{
}

/// A step back is written as the step forward with a minus sign in front.
pub proof fn steps_back_have_a_sign(settings: Settings)
    requires
        settings.nudge_step > 0,
    ensures
        (Settings { nudge_step: (-settings.nudge_step) as i64 }).nudge_text() == seq!['-']
            + settings.nudge_text(),
{
}

} // verus!
