//! Which monitor is focused and which windows it shows, from what the compositor reports.

use vstd::prelude::*;

use crate::units;

verus! {

/// Scales are given in this fraction.
pub const SCALE_UNIT: i64 = 1_000_000;

/// A monitor, with its position and size in pixels of the screen's own layout.
#[derive(Debug)]
pub struct Monitor {
    pub id: i64,
    /// The connector, such as "DP-3".
    pub name: String,
    pub focused: bool,
    /// Position in the layout of all monitors, in subpixels.
    pub x: i64,
    pub y: i64,
    /// Size in pixels.
    pub width: i32,
    pub height: i32,
    /// Pixels to a logical pixel, in parts of [`SCALE_UNIT`].
    pub scale: i64,
    /// The workspace that it shows.
    pub active_workspace: i64,
}

/// A window of an application.
#[derive(Debug)]
pub struct Client {
    pub title: String,
    pub monitor: i64,
    pub workspace: i64,
    pub mapped: bool,
    /// Position in the layout of all monitors, in subpixels.
    pub at: (i64, i64),
    pub size: (i64, i64),
}

/// A window on the focused monitor, with its position relative to that monitor, in subpixels.
/// Elements are positioned relative to their window, so this offset makes them local to the monitor;
/// the size keeps the screenshot analysis to where windows are.
#[derive(Debug)]
pub struct FocusedWindow {
    pub title: String,
    pub x: i64,
    pub y: i64,
    pub w: i64,
    pub h: i64,
}

impl FocusedWindow {
    /// A copy.
    pub fn duplicate(&self) -> (w: FocusedWindow)
        ensures
            w.title@ == self.title@,
            w.x == self.x,
            w.y == self.y,
            w.w == self.w,
            w.h == self.h,
    {
        FocusedWindow { title: self.title.clone(), x: self.x, y: self.y, w: self.w, h: self.h }
    }
}

/// Why there is no answer.
#[derive(Debug, Clone, Copy, PartialEq, Eq, Structural)]
pub enum MonitorError {
    /// No monitor is reported as focused.
    NoneFocused,
}

/// A quotient of two integers.
#[derive(Debug, Clone, Copy, PartialEq, Eq, Structural)]
pub struct Quotient {
    pub num: i64,
    pub den: i64,
}

/// Whether `i` is the first focused monitor.
pub open spec fn first_focused(monitors: Seq<Monitor>, i: int) -> bool {
    &&& 0 <= i < monitors.len()
    &&& monitors[i].focused
    &&& forall|j: int| 0 <= j < i ==> !(#[trigger] monitors[j]).focused
}

/// Whether no monitor is focused.
pub open spec fn none_focused(monitors: Seq<Monitor>) -> bool {
    forall|j: int| 0 <= j < monitors.len() ==> !(#[trigger] monitors[j]).focused
}

fn find_focused(monitors: &Vec<Monitor>) -> (r: Option<usize>)
    ensures
        match r {
            Some(i) => first_focused(monitors@, i as int),
            None => none_focused(monitors@),
        },
{
    let mut i: usize = 0;
    while i < monitors.len()
        invariant
            i <= monitors@.len(),
            forall|j: int| 0 <= j < i ==> !(#[trigger] monitors@[j]).focused,
        decreases monitors.len() - i,
    {
        if monitors[i].focused {
            return Some(i);
        }
        i = i + 1;
    }
    None
}

/// The connector of the focused monitor.
pub fn focused_output_name(monitors: &Vec<Monitor>) -> (r: Result<String, MonitorError>)
    ensures
        r is Err <==> none_focused(monitors@),
        r matches Ok(name) ==> exists|i: int|
            #[trigger] first_focused(monitors@, i) && name@ == monitors@[i].name@,
{
    match find_focused(monitors) {
        Some(i) => {
            assert(first_focused(monitors@, i as int));
            Ok(monitors[i].name.clone())
        },
        None => Err(MonitorError::NoneFocused),
    }
}

/// The connector of the focused monitor and its size in logical pixels: the size over the scale.
pub fn focused_output_geometry(monitors: &Vec<Monitor>) -> (r: Result<
    (String, Quotient, Quotient),
    MonitorError,
>)
    ensures
        r is Err <==> none_focused(monitors@),
        r matches Ok(g) ==> exists|i: int|
            {
                let m = monitors@[i];
                &&& #[trigger] first_focused(monitors@, i)
                &&& g.0@ == m.name@
                &&& g.1 == Quotient { num: (m.width * SCALE_UNIT) as i64, den: m.scale }
                &&& g.2 == Quotient { num: (m.height * SCALE_UNIT) as i64, den: m.scale }
            },
{
    match find_focused(monitors) {
        Some(i) => {
            let m: &Monitor = &monitors[i];
            assert(first_focused(monitors@, i as int));
            Ok(
                (
                    m.name.clone(),
                    Quotient { num: m.width as i64 * SCALE_UNIT, den: m.scale },
                    Quotient { num: m.height as i64 * SCALE_UNIT, den: m.scale },
                ),
            )
        },
        None => Err(MonitorError::NoneFocused),
    }
}

/// Whether a window is shown on a monitor: mapped, on that monitor, and on the workspace that it
/// shows.
pub open spec fn shown_on(c: Client, m: Monitor) -> bool {
    c.mapped && c.monitor == m.id && c.workspace == m.active_workspace
}

/// What is asked of the window that stands for `c` on the monitor `m`.
pub open spec fn local_window(w: FocusedWindow, c: Client, m: Monitor) -> bool {
    &&& w.title@ == c.title@
    &&& w.x == units::sat(c.at.0 - m.x)
    &&& w.y == units::sat(c.at.1 - m.y)
    &&& w.w == c.size.0
    &&& w.h == c.size.1
}

/// The positions among the first `n` windows of those shown on `m`.
pub open spec fn shown_indices(clients: Seq<Client>, m: Monitor, n: nat) -> Seq<int>
    decreases n,
{
    if n == 0 {
        Seq::empty()
    } else {
        let before = shown_indices(clients, m, (n - 1) as nat);
        if shown_on(clients[n - 1], m) {
            before.push(n - 1)
        } else {
            before
        }
    }
}

/// Whether `windows` are the windows shown on `m`, in order and relative to it.
pub open spec fn windows_on(windows: Seq<FocusedWindow>, clients: Seq<Client>, m: Monitor) -> bool {
    let at = shown_indices(clients, m, clients.len());
    &&& windows.len() == at.len()
    &&& forall|i: int|
        0 <= i < at.len() ==> local_window(#[trigger] windows[i], clients[at[i]], m)
}

fn windows_shown_on(clients: &Vec<Client>, m: &Monitor) -> (windows: Vec<FocusedWindow>)
    ensures
        windows_on(windows@, clients@, *m),
{
    let mut windows: Vec<FocusedWindow> = Vec::new();
    let mut k: usize = 0;
    while k < clients.len()
        invariant
            k <= clients@.len(),
            windows@.len() == shown_indices(clients@, *m, k as nat).len(),
            forall|i: int|
                0 <= i < windows@.len() ==> local_window(
                    #[trigger] windows@[i],
                    clients@[shown_indices(clients@, *m, k as nat)[i]],
                    *m,
                ),
        decreases clients.len() - k,
    {
        let c: &Client = &clients[k];
        let ghost before = windows@;
        if c.mapped && c.monitor == m.id && c.workspace == m.active_workspace {
            let w: FocusedWindow = FocusedWindow {
                title: c.title.clone(),
                x: units::minus(c.at.0, m.x),
                y: units::minus(c.at.1, m.y),
                w: c.size.0,
                h: c.size.1,
            };
            assert(local_window(w, clients@[k as int], *m));
            windows.push(w);
        }
        proof {
            let at = shown_indices(clients@, *m, (k + 1) as nat);
            assert forall|i: int| 0 <= i < windows@.len() implies local_window(
                #[trigger] windows@[i],
                clients@[at[i]],
                *m,
            ) by {
                if i < before.len() {
                    assert(windows@[i] == before[i]);
                }
            }
        }
        k = k + 1;
    }
    windows
}

/// The windows that the focused monitor shows, relative to it.
pub fn focused_monitor_windows(
    monitors: &Vec<Monitor>,
    clients: &Vec<Client>,
) -> (r: Result<Vec<FocusedWindow>, MonitorError>)
    ensures
        r is Err <==> none_focused(monitors@),
        r matches Ok(windows) ==> exists|i: int|
            #[trigger] first_focused(monitors@, i) && windows_on(
                windows@,
                clients@,
                monitors@[i],
            ),
{
    match find_focused(monitors) {
        Some(i) => {
            assert(first_focused(monitors@, i as int));
            Ok(windows_shown_on(clients, &monitors[i]))
        },
        None => Err(MonitorError::NoneFocused),
    }
}

/// There is one focused monitor to speak of: two first ones are the same.
pub proof fn the_first_focused_is_one(monitors: Seq<Monitor>, i: int, j: int)
    requires
        first_focused(monitors, i),
        first_focused(monitors, j),
    ensures
        i == j,
{
}

/// All windows that a monitor shows are listed, in the given order, and no others: those that are
/// mapped, on that monitor, and on the workspace that it shows.
pub proof fn every_shown_window_is_listed(clients: Seq<Client>, m: Monitor, n: nat)
    requires
        n <= clients.len(),
    ensures
        forall|k: int|
            #[trigger] shown_indices(clients, m, n).contains(k) <==> 0 <= k < n && clients[k].mapped
                && clients[k].monitor == m.id && clients[k].workspace == m.active_workspace,
        forall|i: int, j: int|
            0 <= i < j < shown_indices(clients, m, n).len() ==> #[trigger] shown_indices(
                clients,
                m,
                n,
            )[i] < #[trigger] shown_indices(clients, m, n)[j],
    decreases n,
{
    let all = shown_indices(clients, m, n);
    if n > 0 {
        let before = shown_indices(clients, m, (n - 1) as nat);
        every_shown_window_is_listed(clients, m, (n - 1) as nat);
        assert forall|k: int|
            #[trigger] all.contains(k) <==> 0 <= k < n && clients[k].mapped && clients[k].monitor
                == m.id && clients[k].workspace == m.active_workspace by {
            if all.contains(k) {
                let i = choose|i: int| 0 <= i < all.len() && all[i] == k;
                if i < before.len() {
                    assert(before[i] == k);
                    assert(before.contains(k));
                }
            }
            if 0 <= k < n && clients[k].mapped && clients[k].monitor == m.id && clients[k].workspace
                == m.active_workspace {
                if k < n - 1 {
                    assert(before.contains(k));
                    let i = choose|i: int| 0 <= i < before.len() && before[i] == k;
                    assert(all[i] == k);
                } else {
                    assert(all[all.len() - 1] == k);
                }
            }
        }
        assert forall|i: int, j: int| 0 <= i < j < all.len() implies #[trigger] all[i]
            < #[trigger] all[j] by {
            assert(before[i] == all[i]);
            if j < before.len() {
                assert(before[j] == all[j]);
            } else {
                assert(before.contains(before[i]));
            }
        }
    }
}

/// Every window that a monitor shows comes with its title, its size, and its position relative to the
/// monitor.
pub proof fn windows_are_relative_to_the_monitor(
    windows: Seq<FocusedWindow>,
    clients: Seq<Client>,
    m: Monitor,
    k: int,
)
    requires
        windows_on(windows, clients, m),
        0 <= k < clients.len(),
        clients[k].mapped,
        clients[k].monitor == m.id,
        clients[k].workspace == m.active_workspace,
        i64::MIN <= clients[k].at.0 - m.x <= i64::MAX,
        i64::MIN <= clients[k].at.1 - m.y <= i64::MAX,
    ensures
        exists|i: int|
            0 <= i < windows.len() && {
                let w = #[trigger] windows[i];
                &&& w.title@ == clients[k].title@
                &&& w.x == clients[k].at.0 - m.x
                &&& w.y == clients[k].at.1 - m.y
                &&& w.w == clients[k].size.0
                &&& w.h == clients[k].size.1
            },
{
    let at = shown_indices(clients, m, clients.len());
    every_shown_window_is_listed(clients, m, clients.len());
    assert(at.contains(k));
    let i = choose|i: int| 0 <= i < at.len() && at[i] == k;
    assert(local_window(windows[i], clients[at[i]], m));
}

/// The monitor that counts as focused is the first of those that say they are, and there is one as
/// soon as one says so.
pub proof fn the_first_focused_monitor_counts(monitors: Seq<Monitor>, j: int)
    requires
        0 <= j < monitors.len(),
        monitors[j].focused,
    ensures
        exists|i: int| first_focused(monitors, i),
        forall|i: int| #[trigger] first_focused(monitors, i) ==> i <= j && monitors[i].focused,
        !none_focused(monitors),
    decreases j,
{
    if exists|k: int| 0 <= k < j && (#[trigger] monitors[k]).focused {
        let k = choose|k: int| 0 <= k < j && (#[trigger] monitors[k]).focused;
        the_first_focused_monitor_counts(monitors, k);
    } else {
        assert(first_focused(monitors, j));
    }
}

} // verus!
