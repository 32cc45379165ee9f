//! The virtual pointer: which requests move the cursor and press its buttons.

use vstd::prelude::*;

use crate::outputs;
use crate::units;

verus! {

/// Button codes of the input subsystem.
pub const BTN_LEFT: u32 = 0x110;

pub const BTN_RIGHT: u32 = 0x111;

/// A request to the compositor.
#[derive(Debug, Clone, Copy, PartialEq, Eq, Structural)]
pub enum Request {
    /// Move to a pixel of a space of the given extents.
    MotionAbsolute { x: u32, y: u32, x_extent: u32, y_extent: u32 },
    /// Press or release a button.
    Button { button: u32, pressed: bool },
    /// End a group of events that belong together.
    Frame,
    /// Send what has been queued and take in what has come back.
    Flush,
}

/// The requests that move the cursor.
pub open spec fn motion(x: i64, y: i64, screen_w: i64, screen_h: i64) -> Seq<Request> {
    seq![
        Request::MotionAbsolute {
            x: units::screen_pixel(x),
            y: units::screen_pixel(y),
            x_extent: units::screen_pixel(screen_w),
            y_extent: units::screen_pixel(screen_h),
        },
        Request::Frame,
        Request::Flush,
    ]
}

/// The requests that press or release a button.
pub open spec fn button_change(button: u32, pressed: bool) -> Seq<Request> {
    seq![Request::Button { button, pressed }, Request::Frame, Request::Flush]
}

/// A pointer of our own. With an output, positions are pixels of that output; without one, of the
/// layout of all of them.
#[derive(Debug, Clone, Copy, PartialEq, Eq, Structural)]
pub struct VirtualPointer {
    /// Which of the outputs it is bound to.
    pub output: Option<usize>,
}

impl VirtualPointer {
    /// A pointer on the output of the given name, if there is one; on all of them otherwise.
    pub fn new(output_name: Option<&String>, outputs: &Vec<String>) -> (p: VirtualPointer)
        ensures
            match (output_name, p.output) {
                (Some(name), Some(i)) => outputs::last_named(outputs@, name@, i as int),
                (Some(name), None) => forall|j: int|
                    0 <= j < outputs@.len() ==> (#[trigger] outputs@[j])@ != name@,
                (None, output) => output is None,
            },
    {
        match output_name {
            Some(name) => VirtualPointer { output: outputs::find_output(outputs, name) },
            None => VirtualPointer { output: None },
        }
    }

    /// Moves the cursor to a position on a screen of the given size, all in subpixels.
    pub fn move_to(&self, x: i64, y: i64, screen_w: i64, screen_h: i64) -> (r: Vec<Request>)
        ensures
            r@ == motion(x, y, screen_w, screen_h),
    {
        let mut r: Vec<Request> = Vec::new();
        r.push(
            Request::MotionAbsolute {
                x: units::to_screen_pixel(x),
                y: units::to_screen_pixel(y),
                x_extent: units::to_screen_pixel(screen_w),
                y_extent: units::to_screen_pixel(screen_h),
            },
        );
        r.push(Request::Frame);
        r.push(Request::Flush);
        assert(r@ =~= motion(x, y, screen_w, screen_h));
        r
    }

    /// Presses and releases a button where the cursor is.
    pub fn click(&self, button: u32) -> (r: Vec<Request>)
        ensures
            r@ == button_change(button, true) + button_change(button, false),
    {
        let mut r: Vec<Request> = self.press(button);
        let mut up: Vec<Request> = self.release(button);
        r.append(&mut up);
        r
    }

    /// Presses a button and holds it: a drag, until it is released.
    pub fn press(&self, button: u32) -> (r: Vec<Request>)
        ensures
            r@ == button_change(button, true),
    {
        button_requests(button, true)
    }

    /// Releases a button that is held.
    pub fn release(&self, button: u32) -> (r: Vec<Request>)
        ensures
            r@ == button_change(button, false),
    {
        button_requests(button, false)
    }
}

fn button_requests(button: u32, pressed: bool) -> (r: Vec<Request>)
    ensures
        r@ == button_change(button, pressed),
{
    let mut r: Vec<Request> = Vec::new();
    r.push(Request::Button { button, pressed });
    r.push(Request::Frame);
    r.push(Request::Flush);
    assert(r@ =~= button_change(button, pressed));
    r
}

/// Whether `button` is down after the given requests, and was or was not before.
pub open spec fn down_after(requests: Seq<Request>, button: u32, before: bool) -> bool
    decreases requests.len(),
{
    if requests.len() == 0 {
        before
    } else {
        match requests.last() {
            Request::Button { button: b, pressed } if b == button => pressed,
            _ => down_after(requests.drop_last(), button, before),
        }
    }
}

/// A click leaves no button down, a press leaves its own one down until it is released, and moving
/// changes none.
pub proof fn clicks_leave_nothing_pressed(
    button: u32,
    other: u32,
    before: bool,
    x: i64,
    y: i64,
    screen_w: i64,
    screen_h: i64,
)
    ensures
        !down_after(button_change(button, true) + button_change(button, false), button, before),
        down_after(button_change(button, true), button, before),
        !down_after(button_change(button, false), button, before),
        other != button ==> down_after(button_change(button, true), other, before) == before,
        down_after(motion(x, y, screen_w, screen_h), button, before) == before,
{
    reveal_with_fuel(down_after, 7);
    let press = button_change(button, true);
    let release = button_change(button, false);
    let both = press + release;
    assert(both.drop_last().drop_last() =~= press + seq![
        Request::Button { button, pressed: false },
    ]);
    assert(press.drop_last().drop_last() =~= seq![Request::Button { button, pressed: true }]);
    assert(release.drop_last().drop_last() =~= seq![Request::Button { button, pressed: false }]);
    let m = motion(x, y, screen_w, screen_h);
    assert(m.drop_last().drop_last().drop_last() =~= Seq::<Request>::empty());
    assert(press.drop_last().drop_last().drop_last() =~= Seq::<Request>::empty());
}

/// A move names the pixel that the position lies in, and how many pixels the screen has, and ends with
/// being sent.
pub proof fn moves_name_the_pixel(px: int, py: int, dx: int, dy: int, width: int, height: int)
    requires
        0 <= px <= width <= i32::MAX,
        0 <= py <= height <= i32::MAX,
        0 <= dx < 450,
        0 <= dy < 450,
    ensures
        motion(
            (450 * px + dx) as i64,
            (450 * py + dy) as i64,
            (450 * width) as i64,
            (450 * height) as i64,
        ) == seq![
            Request::MotionAbsolute {
                x: px as u32,
                y: py as u32,
                x_extent: width as u32,
                y_extent: height as u32,
            },
            Request::Frame,
            Request::Flush,
        ],
{
    units::pixels_round_trip(width as i32);
    units::pixels_round_trip(height as i32);
    assert((450 * px + dx) / 450 == px && (450 * py + dy) / 450 == py);
}

/// A change of a button names the button and whether it goes down, and ends with being sent.
pub proof fn changes_name_the_button(button: u32, pressed: bool)
    ensures
        button_change(button, pressed) == seq![
            Request::Button { button, pressed },
            Request::Frame,
            Request::Flush,
        ],
        BTN_LEFT != BTN_RIGHT,
{
}

} // verus!
