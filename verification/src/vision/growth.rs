//! Boxes by growth: seeds scattered over a window, a ray from each of them to the nearest edge in
//! four directions, the edges traced to their ends, and boxes where four sides fit together.

use vstd::prelude::*;

use crate::sorting::{self, Order};
use crate::vision::boxes::{self, ByCorner};
use crate::vision::dividers::{Region, MIN_PANEL_SIZE};
use crate::vision::edges::{self, Orientation, Picture};
use crate::vision::lines;

verus! {

/// Distance of the seeds before jitter, in pixels: dense enough for a divider to be found by many of
/// them.
pub const SEED_SPACING: i32 = 32;

/// A seed is moved by at most this much along each axis, so that no periodic content falls between
/// all of them.
pub const SEED_JITTER: i32 = 16;

/// How far a ray reaches.
pub const MAX_RAY_DISTANCE: i32 = 2000;

/// How many pixels without an edge a traced edge may skip: content that crosses a divider
/// interrupts it.
pub const TRACE_GAP_TOLERANCE: i32 = 6;

/// Segments on neighboring lines up to this far apart are the same line, found by different seeds.
pub const SEGMENT_MERGE_GAP: i32 = 4;

/// Lengths match if they differ by no more than this percentage of the longer one.
pub const LENGTH_MATCH_PERCENT: i64 = 8;

/// How far around a rough edge the exact one is looked for.
pub const REFINE_MARGIN: i32 = 6;

/// A piece of a line: at `fixed` across the line, from `start` to `end` along it.
#[derive(Debug, Clone, Copy, PartialEq, Eq, Structural)]
pub struct Segment {
    pub orientation: Orientation,
    pub fixed: i32,
    pub start: i32,
    pub end: i32,
}

impl Segment {
    /// The distance from start to end.
    pub fn length(&self) -> (l: i64)
        ensures
            l == self.end - self.start,
    {
        self.end as i64 - self.start as i64
    }
}

/// Direction of a ray.
#[derive(Debug, Clone, Copy, PartialEq, Eq, Structural)]
pub enum RayDirection {
    Left,
    Right,
    Up,
    Down,
}

impl RayDirection {
    /// The lines that a ray in this direction meets.
    pub open spec fn probes(self) -> Orientation {
        match self {
            RayDirection::Left | RayDirection::Right => Orientation::Vertical,
            RayDirection::Up | RayDirection::Down => Orientation::Horizontal,
        }
    }

    /// How many steps it takes from `s` to the border of the window.
    pub open spec fn room(self, s: (i32, i32), window: Region) -> int {
        match self {
            RayDirection::Left => s.0 - window.0,
            RayDirection::Right => window.0 + window.2 - 1 - s.0,
            RayDirection::Up => s.1 - window.1,
            RayDirection::Down => window.1 + window.3 - 1 - s.1,
        }
    }
}

/// The far corner of the window has coordinates.
pub open spec fn framed(window: Region) -> bool {
    &&& i32::MIN <= window.0 + window.2 <= i32::MAX
    &&& i32::MIN <= window.1 + window.3 <= i32::MAX
}

/// The number that follows `x` in the generator's sequence.
pub open spec fn xorshift(x: u32) -> u32 {
    let a = x ^ (x << 13u32);
    let b = a ^ (a >> 17u32);
    b ^ (b << 5u32)
}

/// The `n`th number after `x`.
pub open spec fn xorshifted(x: u32, n: nat) -> u32
    decreases n,
{
    if n == 0 {
        x
    } else {
        xorshift(xorshifted(x, (n - 1) as nat))
    }
}

/// A number brought into `-bound..=bound`.
pub open spec fn centered(x: u32, bound: int) -> int {
    if bound <= 0 {
        0
    } else {
        x as int % (2 * bound + 1) - bound
    }
}

/// A pseudo-random generator. The same window always gets the same seeds.
pub struct Xorshift32(pub u32);

impl Xorshift32 {
    /// Advances the generator.
    pub fn next(&mut self) -> (r: u32)
        ensures
            r == xorshift(old(self).0),
            final(self).0 == r,
    {
        let mut x: u32 = self.0;
        x = x ^ (x << 13u32);
        x = x ^ (x >> 17u32);
        x = x ^ (x << 5u32);
        self.0 = x;
        x
    }

    /// Draws a number from `-bound..=bound`. Without room for one nothing is drawn.
    pub fn jitter(&mut self, bound: i32) -> (r: i32)
        ensures
            bound > 0 ==> r == centered(xorshift(old(self).0), bound as int) && final(self).0
                == xorshift(old(self).0),
            bound <= 0 ==> r == 0 && final(self).0 == old(self).0,
            bound > 0 ==> -bound <= r <= bound,
    {
        if bound <= 0 {
            return 0;
        }
        let width: u32 = 2 * bound as u32 + 1;
        let drawn: u32 = self.next() % width;
        (drawn as i64 - bound as i64) as i32
    }
}

/// A generator that is not at zero never gets there.
pub proof fn xorshift_keeps_off_zero(x: u32)
    requires
        x != 0,
    ensures
        xorshift(x) != 0,
{
    let a = x ^ (x << 13u32);
    let b = a ^ (a >> 17u32);
    assert(a != 0) by (bit_vector)
        requires
            x != 0,
            a == x ^ (x << 13u32),
    ;
    assert(b != 0) by (bit_vector)
        requires
            a != 0,
            b == a ^ (a >> 17u32),
    ;
    assert(b ^ (b << 5u32) != 0) by (bit_vector)
        requires
            b != 0,
    ;
}

/// A coordinate read as an unsigned 32-bit number.
pub open spec fn unsigned(v: i32) -> int {
    if v >= 0 {
        v as int
    } else {
        v + 0x1_0000_0000
    }
}

fn as_unsigned(v: i32) -> (u: u32)
    ensures
        u == unsigned(v),
{
    if v >= 0 {
        v as u32
    } else {
        0xffff_ffff - ((-(v + 1)) as u32)
    }
}

/// Where the generator starts for a window: its corner, scrambled.
pub open spec fn generator_start(wx: i32, wy: i32) -> u32 {
    ((unsigned(wx) * 2_654_435_761 + unsigned(wy)) % 0x1_0000_0000) as u32 ^ 0x9e37_79b9u32
}

/// How many seeds there are along an extent.
pub open spec fn seeds_along(extent: int) -> nat {
    if extent <= SEED_SPACING / 2 {
        0
    } else {
        ((extent - SEED_SPACING / 2 + SEED_SPACING - 1) / (SEED_SPACING as int)) as nat
    }
}

/// `v`, or the end of `lo..=hi` that it lies beyond.
pub open spec fn clamped(v: int, lo: int, hi: int) -> int {
    if v < lo {
        lo
    } else if v > hi {
        hi
    } else {
        v
    }
}

/// The seed in the column `c` and the row `r` of the grid, with the numbers `dx` and `dy` drawn.
pub open spec fn placed_seed(window: Region, c: int, r: int, dx: u32, dy: u32) -> (i32, i32) {
    (
        clamped(
            window.0 + SEED_SPACING / 2 + SEED_SPACING * c + centered(dx, SEED_JITTER as int),
            window.0 as int,
            window.0 + window.2 - 1,
        ) as i32,
        clamped(
            window.1 + SEED_SPACING / 2 + SEED_SPACING * r + centered(dy, SEED_JITTER as int),
            window.1 as int,
            window.1 + window.3 - 1,
        ) as i32,
    )
}

/// The seed in the column `c` and the row `r` of the grid. Each seed draws two numbers, row by row.
pub open spec fn seed_at(window: Region, c: int, r: int) -> (i32, i32) {
    let start = generator_start(window.0, window.1);
    let drawn = 2 * (r * seeds_along(window.2 as int) + c);
    placed_seed(
        window,
        c,
        r,
        xorshifted(start, (drawn + 1) as nat),
        xorshifted(start, (drawn + 2) as nat),
    )
}

/// The first `n` seeds of the row `r`.
pub open spec fn seed_row(window: Region, r: int, n: nat) -> Seq<(i32, i32)> {
    Seq::new(n, |c: int| seed_at(window, c, r))
}

/// The seeds of the first `n` rows.
pub open spec fn seed_rows(window: Region, n: nat) -> Seq<(i32, i32)>
    decreases n,
{
    if n == 0 {
        Seq::empty()
    } else {
        seed_rows(window, (n - 1) as nat) + seed_row(
            window,
            n - 1,
            seeds_along(window.2 as int),
        )
    }
}

/// The seeds of a window.
pub open spec fn seeds(window: Region) -> Seq<(i32, i32)> {
    seed_rows(window, seeds_along(window.3 as int))
}

fn clamp(v: i64, lo: i64, hi: i64) -> (r: i64)
    requires
        lo <= hi,
    ensures
        r == clamped(v as int, lo as int, hi as int),
        lo <= r <= hi,
{
    if v < lo {
        lo
    } else if v > hi {
        hi
    } else {
        v
    }
}

/// Appends the seeds of the row `r`.
fn scatter_row(window: Region, r: i64, rng: &mut Xorshift32, out: &mut Vec<(i32, i32)>)
    requires
        framed(window),
        0 <= r < seeds_along(window.3 as int),
        old(rng).0 == xorshifted(
            generator_start(window.0, window.1),
            (2 * (r * seeds_along(window.2 as int))) as nat,
        ),
    ensures
        final(out)@ == old(out)@ + seed_row(window, r as int, seeds_along(window.2 as int)),
        final(rng).0 == xorshifted(
            generator_start(window.0, window.1),
            (2 * ((r + 1) * seeds_along(window.2 as int))) as nat,
        ),
{
    let (wx, wy, ww, wh) = window;
    let ghost start = generator_start(wx, wy);
    let ghost across = seeds_along(ww as int);
    let ghost before = out@;
    let (right, bottom) = (wx as i64 + ww as i64, wy as i64 + wh as i64);
    let sy: i64 = wy as i64 + SEED_SPACING as i64 / 2 + SEED_SPACING as i64 * r;
    let mut sx: i64 = wx as i64 + SEED_SPACING as i64 / 2;
    let ghost mut c: int = 0;
    assert(r * across >= 0) by (nonlinear_arith)
        requires
            r >= 0,
    ;
    assert(before + seed_row(window, r as int, 0) =~= before);
    while sx < right
        invariant
            framed(window),
            window == (wx, wy, ww, wh),
            0 <= r < seeds_along(wh as int),
            right == wx + ww,
            bottom == wy + wh,
            start == generator_start(wx, wy),
            across == seeds_along(ww as int),
            r * across >= 0,
            sy == wy + SEED_SPACING / 2 + SEED_SPACING * r,
            0 <= c <= across,
            sx == wx + SEED_SPACING / 2 + SEED_SPACING * c,
            rng.0 == xorshifted(start, (2 * (r * across + c)) as nat),
            out@ == before + seed_row(window, r as int, c as nat),
        decreases right + SEED_SPACING - sx,
    {
        let dx: i32 = rng.jitter(SEED_JITTER);
        let dy: i32 = rng.jitter(SEED_JITTER);
        proof {
            let k = (2 * (r * across + c)) as nat;
            assert(xorshifted(start, k + 1) == xorshift(xorshifted(start, k)));
            assert(xorshifted(start, k + 2) == xorshift(xorshifted(start, k + 1)));
            assert(2 * (r * across + (c + 1)) == k + 2);
        }
        let x: i64 = clamp(sx + dx as i64, wx as i64, right - 1);
        let y: i64 = clamp(sy + dy as i64, wy as i64, bottom - 1);
        out.push((x as i32, y as i32));
        proof {
            assert(out@.last() == seed_at(window, c, r as int));
            assert(out@ =~= before + seed_row(window, r as int, (c + 1) as nat));
            c = c + 1;
        }
        sx = sx + SEED_SPACING as i64;
    }
    proof {
        assert(c == across);
        assert((r + 1) * across == r * across + across) by (nonlinear_arith);
    }
}

/// The seeds of a window: a grid with [`SEED_SPACING`] between its points, each of them moved by up
/// to [`SEED_JITTER`], but not out of the window.
pub fn seed_positions(window: Region) -> (s: Vec<(i32, i32)>)
    requires
        framed(window),
    ensures
        s@ == seeds(window),
{
    let (wx, wy, ww, wh) = window;
    let ghost across = seeds_along(ww as int);
    let scrambled: u64 = as_unsigned(wx) as u64 * 2_654_435_761 + as_unsigned(wy) as u64;
    let mut rng: Xorshift32 = Xorshift32((scrambled % 0x1_0000_0000) as u32 ^ 0x9e37_79b9u32);
    let mut found: Vec<(i32, i32)> = Vec::new();
    let bottom: i64 = wy as i64 + wh as i64;
    let mut sy: i64 = wy as i64 + SEED_SPACING as i64 / 2;
    let mut r: i64 = 0;
    assert(2 * (r * across) == 0) by (nonlinear_arith)
        requires
            r == 0,
    ;
    while sy < bottom
        invariant
            framed(window),
            window == (wx, wy, ww, wh),
            across == seeds_along(ww as int),
            bottom == wy + wh,
            0 <= r <= seeds_along(wh as int),
            sy == wy + SEED_SPACING / 2 + SEED_SPACING * r,
            rng.0 == xorshifted(generator_start(wx, wy), (2 * (r * across)) as nat),
            found@ == seed_rows(window, r as nat),
        decreases bottom + SEED_SPACING - sy,
    {
        scatter_row(window, r, &mut rng, &mut found);
        sy = sy + SEED_SPACING as i64;
        r = r + 1;
    }
    found
}

proof fn lemma_rows_in_window(window: Region, n: nat)
    requires
        framed(window),
        n <= seeds_along(window.3 as int),
    ensures
        seed_rows(window, n).len() == n * seeds_along(window.2 as int),
        forall|i: int|
            0 <= i < seed_rows(window, n).len() ==> in_window(
                #[trigger] seed_rows(window, n)[i],
                window,
            ),
    decreases n,
{
    let across = seeds_along(window.2 as int);
    if n > 0 {
        lemma_rows_in_window(window, (n - 1) as nat);
        let before = seed_rows(window, (n - 1) as nat);
        let row = seed_row(window, n - 1, across);
        assert(n * across == (n - 1) * across + across) by (nonlinear_arith)
            requires
                n > 0,
        ;
        assert forall|i: int| 0 <= i < seed_rows(window, n).len() implies in_window(
            #[trigger] seed_rows(window, n)[i],
            window,
        ) by {
            if i < before.len() {
                assert(seed_rows(window, n)[i] == before[i]);
            } else {
                assert(seed_rows(window, n)[i] == row[i - before.len()]);
            }
        }
    } else {
        assert(0 * across == 0) by (nonlinear_arith);
    }
}

/// Whether a point lies in the window.
pub open spec fn in_window(s: (i32, i32), window: Region) -> bool {
    &&& window.0 <= s.0 < window.0 + window.2
    &&& window.1 <= s.1 < window.1 + window.3
}

/// Every seed lies in its window, and there is one for each point of the grid.
pub proof fn seeds_lie_in_the_window(window: Region)
    requires
        framed(window),
    ensures
        seeds(window).len() == seeds_along(window.3 as int) * seeds_along(window.2 as int),
        forall|i: int|
            0 <= i < seeds(window).len() ==> in_window(#[trigger] seeds(window)[i], window),
{
    lemma_rows_in_window(window, seeds_along(window.3 as int));
}

/// The point `k` steps along a ray.
pub open spec fn ray_point(s: (i32, i32), dir: RayDirection, k: int) -> (int, int) {
    match dir {
        RayDirection::Left => (s.0 - k, s.1 as int),
        RayDirection::Right => (s.0 + k, s.1 as int),
        RayDirection::Up => (s.0 as int, s.1 - k),
        RayDirection::Down => (s.0 as int, s.1 + k),
    }
}

/// How many steps a ray takes: to the border of the window, but no farther than
/// [`MAX_RAY_DISTANCE`].
pub open spec fn reach(s: (i32, i32), dir: RayDirection, window: Region) -> nat {
    let room = dir.room(s, window);
    if room < 0 {
        0
    } else if room < MAX_RAY_DISTANCE {
        room as nat
    } else {
        MAX_RAY_DISTANCE as nat
    }
}

/// Whether the ray meets an edge at its `k`th step.
pub open spec fn meets(p: Picture, s: (i32, i32), dir: RayDirection, k: int) -> bool {
    p.edge(ray_point(s, dir, k).0, ray_point(s, dir, k).1, dir.probes())
}

/// The first of `n` steps at which the ray meets an edge.
pub open spec fn first_meeting(p: Picture, s: (i32, i32), dir: RayDirection, n: nat) -> Option<nat>
    decreases n,
{
    if n == 0 {
        None
    } else {
        match first_meeting(p, s, dir, (n - 1) as nat) {
            Some(k) => Some(k),
            None => if meets(p, s, dir, n as int) {
                Some(n)
            } else {
                None
            },
        }
    }
}

/// The edge that a ray hits.
pub open spec fn ray_hit(
    p: Picture,
    s: (i32, i32),
    dir: RayDirection,
    window: Region,
) -> Option<(i32, i32, Orientation)> {
    match first_meeting(p, s, dir, reach(s, dir, window)) {
        Some(k) => Some(
            (
                ray_point(s, dir, k as int).0 as i32,
                ray_point(s, dir, k as int).1 as i32,
                dir.probes(),
            ),
        ),
        None => None,
    }
}

/// A ray hits the nearest edge on its way, and nothing only if there is none.
pub proof fn a_ray_hits_the_nearest_edge(p: Picture, s: (i32, i32), dir: RayDirection, n: nat)
    ensures
        match first_meeting(p, s, dir, n) {
            Some(k) => 1 <= k <= n && meets(p, s, dir, k as int) && forall|j: int|
                1 <= j < k ==> !#[trigger] meets(p, s, dir, j),
            None => forall|j: int| 1 <= j <= n ==> !#[trigger] meets(p, s, dir, j),
        },
    decreases n,
{
    if n > 0 {
        a_ray_hits_the_nearest_edge(p, s, dir, (n - 1) as nat);
    }
}

/// Walks from a point until there is an edge of the kind that the direction probes for: left and
/// right for a vertical one, up and down for a horizontal one.
pub fn ray_cast(
    gray: &[u8],
    img_w: u32,
    img_h: u32,
    s: (i32, i32),
    dir: RayDirection,
    window: Region,
) -> (hit: Option<(i32, i32, Orientation)>)
    requires
        edges::picture(gray@, img_w, img_h).complete(),
        framed(window),
    ensures
        hit == ray_hit(edges::picture(gray@, img_w, img_h), s, dir, window),
{
    let ghost p = edges::picture(gray@, img_w, img_h);
    let (wx, wy, ww, wh) = window;
    let (orientation, room): (Orientation, i64) = match dir {
        RayDirection::Left => (Orientation::Vertical, s.0 as i64 - wx as i64),
        RayDirection::Right => (
            Orientation::Vertical,
            wx as i64 + ww as i64 - 1 - s.0 as i64,
        ),
        RayDirection::Up => (Orientation::Horizontal, s.1 as i64 - wy as i64),
        RayDirection::Down => (
            Orientation::Horizontal,
            wy as i64 + wh as i64 - 1 - s.1 as i64,
        ),
    };
    let steps: i64 = if room < 0 {
        0
    } else if room < MAX_RAY_DISTANCE as i64 {
        room
    } else {
        MAX_RAY_DISTANCE as i64
    };
    let (mut x, mut y): (i32, i32) = s;
    let mut k: i64 = 0;
    while k < steps
        invariant
            p == edges::picture(gray@, img_w, img_h),
            p.complete(),
            framed(window),
            window == (wx, wy, ww, wh),
            orientation == dir.probes(),
            0 <= k <= steps,
            steps == reach(s, dir, window),
            steps > 0 ==> steps <= dir.room(s, window),
            (x as int, y as int) == ray_point(s, dir, k as int),
            first_meeting(p, s, dir, k as nat) is None,
        decreases steps - k,
    {
        match dir {
            RayDirection::Left => {
                x = x - 1;
            },
            RayDirection::Right => {
                x = x + 1;
            },
            RayDirection::Up => {
                y = y - 1;
            },
            RayDirection::Down => {
                y = y + 1;
            },
        }
        k = k + 1;
        if edges::is_edge_pixel(gray, img_w, img_h, x, y, orientation) {
            proof {
                assert(first_meeting(p, s, dir, k as nat) == Some(k as nat));
                lemma_first_stays(p, s, dir, k as nat, steps as nat);
            }
            return Some((x, y, orientation));
        }
    }
    None
}

proof fn lemma_first_stays(p: Picture, s: (i32, i32), dir: RayDirection, k: nat, n: nat)
    requires
        k <= n,
        first_meeting(p, s, dir, k) is Some,
    ensures
        first_meeting(p, s, dir, n) == first_meeting(p, s, dir, k),
    decreases n,
{
    if n > k {
        lemma_first_stays(p, s, dir, k, (n - 1) as nat);
    }
}

/// Whether there is an edge at `along` on the line at `fixed`.
pub open spec fn on_line(p: Picture, orientation: Orientation, fixed: int, along: int) -> bool {
    match orientation {
        Orientation::Vertical => p.edge(fixed, along, orientation),
        Orientation::Horizontal => p.edge(along, fixed, orientation),
    }
}

/// The position `k` steps forward or backward of `along`.
pub open spec fn moved(along: int, forward: bool, k: int) -> int {
    if forward {
        along + k
    } else {
        along - k
    }
}

/// How far a line goes within `n` steps forward or backward from `along`, and how many steps without
/// an edge have followed. More of these than [`TRACE_GAP_TOLERANCE`] end the line.
pub open spec fn trace_steps(
    p: Picture,
    orientation: Orientation,
    fixed: int,
    along: int,
    forward: bool,
    n: nat,
) -> (int, int)
    decreases n,
{
    if n == 0 {
        (along, 0)
    } else {
        let (far, gap) = trace_steps(p, orientation, fixed, along, forward, (n - 1) as nat);
        if gap > TRACE_GAP_TOLERANCE {
            (far, gap)
        } else if on_line(p, orientation, fixed, moved(along, forward, n as int)) {
            (moved(along, forward, n as int), 0)
        } else {
            (far, gap + 1)
        }
    }
}

/// The steps from `from` to `to`, if `to` is ahead.
pub open spec fn ahead(from: int, to: int) -> nat {
    if from < to {
        (to - from) as nat
    } else {
        0
    }
}

/// The line through an edge pixel, as far as it goes in both directions within the window.
pub open spec fn traced(
    p: Picture,
    hit: (i32, i32),
    orientation: Orientation,
    window: Region,
) -> Segment {
    let (fixed, along, lo, hi) = match orientation {
        Orientation::Vertical => (
            hit.0,
            hit.1 as int,
            window.1 as int,
            window.1 + window.3 - 1,
        ),
        Orientation::Horizontal => (
            hit.1,
            hit.0 as int,
            window.0 as int,
            window.0 + window.2 - 1,
        ),
    };
    Segment {
        orientation,
        fixed,
        start: trace_steps(p, orientation, fixed as int, along, false, ahead(lo, along)).0 as i32,
        end: trace_steps(p, orientation, fixed as int, along, true, ahead(along, hi)).0 as i32,
    }
}

/// The end of a traced line is an edge pixel or the point that it was traced from, and lies within
/// the steps taken.
pub proof fn a_trace_ends_at_an_edge(
    p: Picture,
    orientation: Orientation,
    fixed: int,
    along: int,
    forward: bool,
    n: nat,
)
    ensures
        ({
            let (far, gap) = trace_steps(p, orientation, fixed, along, forward, n);
            &&& 0 <= if forward {
                far - along
            } else {
                along - far
            } <= n
            &&& far == along || on_line(p, orientation, fixed, far)
            &&& 0 <= gap <= TRACE_GAP_TOLERANCE + 1
        }),
    decreases n,
{
    if n > 0 {
        a_trace_ends_at_an_edge(p, orientation, fixed, along, forward, (n - 1) as nat);
    }
}

proof fn lemma_trace_stopped(
    p: Picture,
    orientation: Orientation,
    fixed: int,
    along: int,
    forward: bool,
    k: nat,
    n: nat,
)
    requires
        k <= n,
        trace_steps(p, orientation, fixed, along, forward, k).1 > TRACE_GAP_TOLERANCE,
    ensures
        trace_steps(p, orientation, fixed, along, forward, n) == trace_steps(
            p,
            orientation,
            fixed,
            along,
            forward,
            k,
        ),
    decreases n,
{
    if n > k {
        lemma_trace_stopped(p, orientation, fixed, along, forward, k, (n - 1) as nat);
    }
}

/// Follows a line in one direction.
fn trace_from(
    gray: &[u8],
    img_w: u32,
    img_h: u32,
    orientation: Orientation,
    fixed: i32,
    along: i32,
    forward: bool,
    limit: i64,
) -> (far: i32)
    requires
        edges::picture(gray@, img_w, img_h).complete(),
        forward ==> limit <= i32::MAX,
        !forward ==> limit >= i32::MIN,
    ensures
        far == trace_steps(
            edges::picture(gray@, img_w, img_h),
            orientation,
            fixed as int,
            along as int,
            forward,
            if forward {
                ahead(along as int, limit as int)
            } else {
                ahead(limit as int, along as int)
            },
        ).0,
{
    let ghost p = edges::picture(gray@, img_w, img_h);
    let ghost n: nat = if forward {
        ahead(along as int, limit as int)
    } else {
        ahead(limit as int, along as int)
    };
    let mut far: i32 = along;
    let mut cursor: i32 = along;
    let mut gap: i32 = 0;
    let ghost mut k: nat = 0;
    while (forward && (cursor as i64) < limit) || (!forward && cursor as i64 > limit)
        invariant_except_break
            gap <= TRACE_GAP_TOLERANCE,
        invariant
            p == edges::picture(gray@, img_w, img_h),
            p.complete(),
            forward ==> limit <= i32::MAX,
            !forward ==> limit >= i32::MIN,
            n == if forward {
                ahead(along as int, limit as int)
            } else {
                ahead(limit as int, along as int)
            },
            k <= n,
            cursor == moved(along as int, forward, k as int),
            (far as int, gap as int) == trace_steps(
                p,
                orientation,
                fixed as int,
                along as int,
                forward,
                k,
            ),
        ensures
            k == n || gap > TRACE_GAP_TOLERANCE,
        decreases n - k,
    {
        if forward {
            cursor = cursor + 1;
        } else {
            cursor = cursor - 1;
        }
        proof {
            k = k + 1;
        }
        let (x, y) = match orientation {
            Orientation::Vertical => (fixed, cursor),
            Orientation::Horizontal => (cursor, fixed),
        };
        if edges::is_edge_pixel(gray, img_w, img_h, x, y, orientation) {
            far = cursor;
            gap = 0;
        } else {
            gap = gap + 1;
            if gap > TRACE_GAP_TOLERANCE {
                break;
            }
        }
    }
    proof {
        if k < n {
            lemma_trace_stopped(p, orientation, fixed as int, along as int, forward, k, n);
        }
    }
    far
}

/// Follows the line through an edge pixel in both directions to where it ends: a ray only finds one
/// point of it.
pub fn trace_edge(
    gray: &[u8],
    img_w: u32,
    img_h: u32,
    hit: (i32, i32),
    orientation: Orientation,
    window: Region,
) -> (s: Segment)
    requires
        edges::picture(gray@, img_w, img_h).complete(),
        framed(window),
    ensures
        s == traced(edges::picture(gray@, img_w, img_h), hit, orientation, window),
{
    let (wx, wy, ww, wh) = window;
    let (fixed, along, lo, hi): (i32, i32, i64, i64) = match orientation {
        Orientation::Vertical => (hit.0, hit.1, wy as i64, wy as i64 + wh as i64 - 1),
        Orientation::Horizontal => (hit.1, hit.0, wx as i64, wx as i64 + ww as i64 - 1),
    };
    let start: i32 = trace_from(gray, img_w, img_h, orientation, fixed, along, false, lo);
    let end: i32 = trace_from(gray, img_w, img_h, orientation, fixed, along, true, hi);
    Segment { orientation, fixed, start, end }
}

/// Whether a segment lies on a picture and has its ends in order.
pub open spec fn on_picture(s: Segment) -> bool {
    0 <= s.fixed && 0 <= s.start <= s.end
}

/// Whether all segments lie on a picture.
pub open spec fn all_on_picture(s: Seq<Segment>) -> bool {
    forall|i: int| 0 <= i < s.len() ==> on_picture(#[trigger] s[i])
}

/// A line that is traced from an edge pixel lies on the picture, passes through that pixel, and ends
/// at edge pixels within the window or at the pixel itself.
pub proof fn a_trace_passes_through_the_hit(
    p: Picture,
    hit: (i32, i32),
    orientation: Orientation,
    window: Region,
)
    requires
        framed(window),
        p.edge(hit.0 as int, hit.1 as int, orientation),
    ensures
        ({
            let s = traced(p, hit, orientation, window);
            let (fixed, along, lo, hi) = match orientation {
                Orientation::Vertical => (
                    hit.0,
                    hit.1,
                    window.1 as int,
                    window.1 + window.3 - 1,
                ),
                Orientation::Horizontal => (
                    hit.1,
                    hit.0,
                    window.0 as int,
                    window.0 + window.2 - 1,
                ),
            };
            &&& on_picture(s)
            &&& s.orientation == orientation
            &&& s.fixed == fixed
            &&& s.start <= along <= s.end
            &&& on_line(p, orientation, fixed as int, s.start as int)
            &&& on_line(p, orientation, fixed as int, s.end as int)
            &&& lo <= along <= hi ==> lo <= s.start && s.end <= hi
        }),
{
    let (fixed, along, lo, hi) = match orientation {
        Orientation::Vertical => (hit.0, hit.1, window.1 as int, window.1 + window.3 - 1),
        Orientation::Horizontal => (hit.1, hit.0, window.0 as int, window.0 + window.2 - 1),
    };
    a_trace_ends_at_an_edge(
        p,
        orientation,
        fixed as int,
        along as int,
        false,
        ahead(lo, along as int),
    );
    a_trace_ends_at_an_edge(
        p,
        orientation,
        fixed as int,
        along as int,
        true,
        ahead(along as int, hi),
    );
}

/// The line that a ray finds, if any.
pub open spec fn grown(p: Picture, s: (i32, i32), dir: RayDirection, window: Region) -> Seq<Segment> {
    match ray_hit(p, s, dir, window) {
        Some((hx, hy, orientation)) => seq![traced(p, (hx, hy), orientation, window)],
        None => Seq::empty(),
    }
}

/// The lines that a seed finds: to the left, to the right, up and down.
pub open spec fn grown_from(p: Picture, s: (i32, i32), window: Region) -> Seq<Segment> {
    grown(p, s, RayDirection::Left, window) + grown(p, s, RayDirection::Right, window) + grown(
        p,
        s,
        RayDirection::Up,
        window,
    ) + grown(p, s, RayDirection::Down, window)
}

/// The lines that the first `n` seeds find.
pub open spec fn grown_all(
    p: Picture,
    seeds: Seq<(i32, i32)>,
    window: Region,
    n: nat,
) -> Seq<Segment>
    decreases n,
{
    if n == 0 {
        Seq::empty()
    } else {
        grown_all(p, seeds, window, (n - 1) as nat) + grown_from(p, seeds[n - 1], window)
    }
}

fn grow_one(
    gray: &[u8],
    img_w: u32,
    img_h: u32,
    seed: (i32, i32),
    dir: RayDirection,
    window: Region,
    out: &mut Vec<Segment>,
)
    requires
        edges::picture(gray@, img_w, img_h).complete(),
        framed(window),
        all_on_picture(old(out)@),
    ensures
        final(out)@ == old(out)@ + grown(
            edges::picture(gray@, img_w, img_h),
            seed,
            dir,
            window,
        ),
        all_on_picture(final(out)@),
{
    let ghost p = edges::picture(gray@, img_w, img_h);
    let ghost before = out@;
    if let Some((hx, hy, orientation)) = ray_cast(gray, img_w, img_h, seed, dir, window) {
        proof {
            a_ray_hits_the_nearest_edge(p, seed, dir, reach(seed, dir, window));
            a_trace_passes_through_the_hit(p, (hx, hy), orientation, window);
        }
        out.push(trace_edge(gray, img_w, img_h, (hx, hy), orientation, window));
    }
    assert(out@ =~= before + grown(p, seed, dir, window));
}

proof fn lemma_four(
    before: Seq<Segment>,
    a: Seq<Segment>,
    b: Seq<Segment>,
    c: Seq<Segment>,
    d: Seq<Segment>,
)
    ensures
        before + a + b + c + d == before + (a + b + c + d),
{
    assert(before + a + b + c + d =~= before + (a + b + c + d));
}

/// Grows a line from everything that the rays of the seeds of a window hit.
pub fn grow_segments(gray: &[u8], img_w: u32, img_h: u32, window: Region) -> (found: Vec<Segment>)
    requires
        edges::picture(gray@, img_w, img_h).complete(),
        framed(window),
    ensures
        found@ == grown_all(
            edges::picture(gray@, img_w, img_h),
            seeds(window),
            window,
            seeds(window).len(),
        ),
        all_on_picture(found@),
{
    let ghost p = edges::picture(gray@, img_w, img_h);
    let scattered: Vec<(i32, i32)> = seed_positions(window);
    let mut found: Vec<Segment> = Vec::new();
    let mut i: usize = 0;
    while i < scattered.len()
        invariant
            p == edges::picture(gray@, img_w, img_h),
            p.complete(),
            framed(window),
            i <= scattered@.len(),
            found@ == grown_all(p, scattered@, window, i as nat),
            all_on_picture(found@),
        decreases scattered.len() - i,
    {
        let ghost before = found@;
        let seed: (i32, i32) = scattered[i];
        grow_one(gray, img_w, img_h, seed, RayDirection::Left, window, &mut found);
        grow_one(gray, img_w, img_h, seed, RayDirection::Right, window, &mut found);
        grow_one(gray, img_w, img_h, seed, RayDirection::Up, window, &mut found);
        grow_one(gray, img_w, img_h, seed, RayDirection::Down, window, &mut found);
        proof {
            lemma_four(
                before,
                grown(p, seed, RayDirection::Left, window),
                grown(p, seed, RayDirection::Right, window),
                grown(p, seed, RayDirection::Up, window),
                grown(p, seed, RayDirection::Down, window),
            );
        }
        i = i + 1;
    }
    found
}

/// Segments by orientation, vertical ones first, then by line, then by start.
pub struct ByLine;

impl Order<Segment> for ByLine {
    open spec fn key(t: Segment) -> int {
        (if t.orientation is Horizontal {
            0x1_0000_0000_0000_0000int
        } else {
            0
        }) + t.fixed * 0x1_0000_0000 + t.start
    }

    fn at_most(a: &Segment, b: &Segment) -> (r: bool) {
        if a.orientation != b.orientation {
            a.orientation == Orientation::Vertical
        } else if a.fixed != b.fixed {
            a.fixed < b.fixed
        } else {
            a.start <= b.start
        }
    }
}

/// Whether `next` is the line of `last` found again: same orientation, lines up to
/// [`SEGMENT_MERGE_GAP`] apart, and ranges that overlap or have no wider gap between them.
pub open spec fn continues(last: Segment, next: Segment) -> bool {
    &&& last.orientation == next.orientation
    &&& edges::distance(next.fixed as int, last.fixed as int) <= SEGMENT_MERGE_GAP
    &&& next.start <= last.end + SEGMENT_MERGE_GAP
    &&& last.start <= next.end + SEGMENT_MERGE_GAP
}

/// The two segments as one: on the lower line, as far as either reaches.
pub open spec fn joined(last: Segment, next: Segment) -> Segment {
    Segment {
        orientation: last.orientation,
        fixed: if next.fixed < last.fixed {
            next.fixed
        } else {
            last.fixed
        },
        start: if next.start < last.start {
            next.start
        } else {
            last.start
        },
        end: if next.end > last.end {
            next.end
        } else {
            last.end
        },
    }
}

/// Whether `next` continues a segment of `m`.
pub open spec fn continues_one(m: Seq<Segment>, next: Segment) -> bool {
    exists|j: int| 0 <= j < m.len() && continues(#[trigger] m[j], next)
}

/// `next`, joined with every segment of `m` that it continues.
pub open spec fn pooled(m: Seq<Segment>, next: Segment) -> Segment
    decreases m.len(),
{
    if m.len() == 0 {
        next
    } else if continues(m.last(), next) {
        joined(m.last(), pooled(m.drop_last(), next))
    } else {
        pooled(m.drop_last(), next)
    }
}

/// `m` without the segments that `next` continues, and with `pool` where the first of them was.
pub open spec fn replaced(m: Seq<Segment>, next: Segment, pool: Segment) -> Seq<Segment>
    decreases m.len(),
{
    if m.len() == 0 {
        Seq::empty()
    } else {
        let before = replaced(m.drop_last(), next, pool);
        if !continues(m.last(), next) {
            before.push(m.last())
        } else if !continues_one(m.drop_last(), next) {
            before.push(pool)
        } else {
            before
        }
    }
}

/// Each segment joined with all those before it that it continues.
pub open spec fn gathered(s: Seq<Segment>) -> Seq<Segment>
    decreases s.len(),
{
    if s.len() == 0 {
        Seq::empty()
    } else {
        let m = gathered(s.drop_last());
        if continues_one(m, s.last()) {
            replaced(m, s.last(), pooled(m, s.last()))
        } else {
            m.push(s.last())
        }
    }
}

/// One segment for each line that was found several times.
pub open spec fn merged(s: Seq<Segment>) -> Seq<Segment> {
    gathered(sorting::stable_sorted::<Segment, ByLine>(s))
}

proof fn lemma_continues_one(m: Seq<Segment>, next: Segment)
    requires
        m.len() > 0,
    ensures
        continues_one(m, next) == (continues_one(m.drop_last(), next) || continues(
            m.last(),
            next,
        )),
{
    let front = m.drop_last();
    if continues_one(front, next) {
        let j = choose|j: int| 0 <= j < front.len() && continues(#[trigger] front[j], next);
        assert(continues(m[j], next));
    }
    if continues(m.last(), next) {
        assert(continues(m[m.len() - 1], next));
    }
    if continues_one(m, next) && !continues(m.last(), next) {
        let j = choose|j: int| 0 <= j < m.len() && continues(#[trigger] m[j], next);
        assert(continues(front[j], next));
    }
}

pub(crate) proof fn lemma_pooled(m: Seq<Segment>, next: Segment)
    ensures
        pooled(m, next).orientation == next.orientation,
        pooled(m, next).fixed <= next.fixed <= pooled(m, next).fixed + SEGMENT_MERGE_GAP,
        pooled(m, next).start <= next.start,
        next.end <= pooled(m, next).end,
        forall|j: int|
            0 <= j < m.len() && continues(#[trigger] m[j], next) ==> pooled(m, next).fixed
                <= m[j].fixed && pooled(m, next).start <= m[j].start && m[j].end <= pooled(
                m,
                next,
            ).end,
    decreases m.len(),
{
    if m.len() > 0 {
        let front = m.drop_last();
        lemma_pooled(front, next);
        assert forall|j: int|
            0 <= j < m.len() && continues(#[trigger] m[j], next) implies pooled(m, next).fixed
            <= m[j].fixed && pooled(m, next).start <= m[j].start && m[j].end <= pooled(
            m,
            next,
        ).end by {
            if j < front.len() {
                assert(continues(front[j], next));
            }
        }
    }
}

pub(crate) proof fn lemma_replaced(m: Seq<Segment>, next: Segment, pool: Segment)
    ensures
        replaced(m, next, pool).len() <= m.len(),
        forall|k: int|
            0 <= k < replaced(m, next, pool).len() ==> (#[trigger] replaced(m, next, pool)[k])
                == pool || exists|j: int|
                0 <= j < m.len() && #[trigger] m[j] == replaced(m, next, pool)[k],
        forall|j: int|
            0 <= j < m.len() && !continues(#[trigger] m[j], next) ==> replaced(
                m,
                next,
                pool,
            ).contains(m[j]),
        continues_one(m, next) ==> replaced(m, next, pool).contains(pool),
    decreases m.len(),
{
    if m.len() > 0 {
        let front = m.drop_last();
        let before = replaced(front, next, pool);
        let all = replaced(m, next, pool);
        lemma_replaced(front, next, pool);
        lemma_continues_one(m, next);
        assert(all.len() > before.len() ==> all[all.len() - 1] == all.last());
        assert forall|v: Segment| before.contains(v) implies #[trigger] all.contains(v) by {
            let k = choose|k: int| 0 <= k < before.len() && before[k] == v;
            assert(all[k] == v);
        }
        assert forall|k: int| 0 <= k < all.len() implies (#[trigger] all[k]) == pool || exists|
            j: int,
        |
            0 <= j < m.len() && #[trigger] m[j] == all[k] by {
            if k < before.len() {
                assert(before[k] == all[k]);
                if before[k] != pool {
                    let j = choose|j: int| 0 <= j < front.len() && #[trigger] front[j] == before[k];
                    assert(m[j] == all[k]);
                }
            } else if all[k] != pool {
                assert(m[m.len() - 1] == all[k]);
            }
        }
        assert forall|j: int|
            0 <= j < m.len() && !continues(#[trigger] m[j], next) implies all.contains(m[j]) by {
            if j < front.len() {
                assert(!continues(front[j], next));
                assert(before.contains(front[j]));
            }
        }
    }
}

fn continuing(last: &Segment, next: &Segment) -> (r: bool)
    ensures
        r == continues(*last, *next),
{
    let gap: i64 = SEGMENT_MERGE_GAP as i64;
    let across: i64 = next.fixed as i64 - last.fixed as i64;
    last.orientation == next.orientation && -gap <= across && across <= gap && next.start as i64
        <= last.end as i64 + gap && last.start as i64 <= next.end as i64 + gap
}

fn join(last: &Segment, next: &Segment) -> (r: Segment)
    ensures
        r == joined(*last, *next),
{
    Segment {
        orientation: last.orientation,
        fixed: if next.fixed < last.fixed {
            next.fixed
        } else {
            last.fixed
        },
        start: if next.start < last.start {
            next.start
        } else {
            last.start
        },
        end: if next.end > last.end {
            next.end
        } else {
            last.end
        },
    }
}

/// `next` joined with all the segments of `m` that it continues, and whether there are any.
fn pool_with(m: &Vec<Segment>, next: &Segment) -> (r: (Segment, bool))
    ensures
        r.0 == pooled(m@, *next),
        r.1 == continues_one(m@, *next),
{
    let mut pool: Segment = *next;
    let mut any: bool = false;
    let mut j: usize = 0;
    while j < m.len()
        invariant
            j <= m@.len(),
            pool == pooled(m@.take(j as int), *next),
            any == continues_one(m@.take(j as int), *next),
        decreases m.len() - j,
    {
        proof {
            assert(m@.take(j + 1).drop_last() =~= m@.take(j as int));
            lemma_continues_one(m@.take(j + 1), *next);
        }
        if continuing(&m[j], next) {
            pool = join(&m[j], &pool);
            any = true;
        }
        j = j + 1;
    }
    proof {
        assert(m@.take(j as int) =~= m@);
    }
    (pool, any)
}

/// The segments of `m` with `pool` in place of those that `next` continues.
fn replace_with(m: &Vec<Segment>, next: &Segment, pool: Segment) -> (r: Vec<Segment>)
    ensures
        r@ == replaced(m@, *next, pool),
{
    let mut found: Vec<Segment> = Vec::new();
    let mut placed: bool = false;
    let mut j: usize = 0;
    while j < m.len()
        invariant
            j <= m@.len(),
            found@ == replaced(m@.take(j as int), *next, pool),
            placed == continues_one(m@.take(j as int), *next),
        decreases m.len() - j,
    {
        proof {
            assert(m@.take(j + 1).drop_last() =~= m@.take(j as int));
            lemma_continues_one(m@.take(j + 1), *next);
        }
        if !continuing(&m[j], next) {
            found.push(m[j]);
        } else if !placed {
            found.push(pool);
            placed = true;
        }
        j = j + 1;
    }
    proof {
        assert(m@.take(j as int) =~= m@);
    }
    found
}

/// Joins the segments that are, in all likelihood, the same line found by different seeds: same
/// orientation, lines up to [`SEGMENT_MERGE_GAP`] apart, ranges that meet.
pub fn merge_segments(segments: Vec<Segment>) -> (m: Vec<Segment>)
    ensures
        m@ == merged(segments@),
{
    let mut sorted: Vec<Segment> = segments;
    sorting::stable_sort::<Segment, ByLine>(&mut sorted);
    let mut found: Vec<Segment> = Vec::new();
    let mut i: usize = 0;
    while i < sorted.len()
        invariant
            i <= sorted@.len(),
            found@ == gathered(sorted@.take(i as int)),
        decreases sorted.len() - i,
    {
        let next: Segment = sorted[i];
        proof {
            assert(sorted@.take(i + 1).drop_last() =~= sorted@.take(i as int));
        }
        let (pool, any): (Segment, bool) = pool_with(&found, &next);
        if any {
            found = replace_with(&found, &next, pool);
        } else {
            found.push(next);
        }
        i = i + 1;
    }
    proof {
        assert(sorted@.take(i as int) =~= sorted@);
    }
    found
}

/// Whether segments of one orientation come in the order of their lines.
pub open spec fn lines_ascend(s: Seq<Segment>) -> bool {
    forall|i: int, j: int|
        0 <= i <= j < s.len() && (#[trigger] s[i]).orientation == (#[trigger] s[j]).orientation
            ==> s[i].fixed <= s[j].fixed
}

proof fn lemma_sorted_by_line(s: Seq<Segment>)
    ensures
        lines_ascend(sorting::stable_sorted::<Segment, ByLine>(s)),
        forall|v: Segment|
            #[trigger] sorting::stable_sorted::<Segment, ByLine>(s).contains(v) <==> s.contains(v),
        sorting::stable_sorted::<Segment, ByLine>(s).len() == s.len(),
{
    let sorted = sorting::stable_sorted::<Segment, ByLine>(s);
    sorting::sorting_orders_and_permutes::<Segment, ByLine>(s);
    s.to_multiset_ensures();
    sorted.to_multiset_ensures();
    assert forall|v: Segment| #[trigger] sorted.contains(v) <==> s.contains(v) by {
        assert(sorted.to_multiset().count(v) == s.to_multiset().count(v));
    }
    assert forall|i: int, j: int|
        0 <= i <= j < sorted.len() && (#[trigger] sorted[i]).orientation == (
        #[trigger] sorted[j]).orientation implies sorted[i].fixed <= sorted[j].fixed by {
        assert(ByLine::key(sorted[i]) <= ByLine::key(sorted[j]));
    }
}

proof fn lemma_front_ascends(s: Seq<Segment>)
    requires
        s.len() > 0,
        lines_ascend(s),
    ensures
        lines_ascend(s.drop_last()),
        forall|i: int|
            0 <= i < s.len() && (#[trigger] s[i]).orientation == s.last().orientation
                ==> s[i].fixed <= s.last().fixed,
{
    let front = s.drop_last();
    assert forall|i: int, j: int|
        0 <= i <= j < front.len() && (#[trigger] front[i]).orientation == (
        #[trigger] front[j]).orientation implies front[i].fixed <= front[j].fixed by {
        assert(s[i].fixed <= s[j].fixed);
    }
    assert forall|i: int|
        0 <= i < s.len() && (#[trigger] s[i]).orientation
            == s.last().orientation implies s[i].fixed <= s.last().fixed by {
        assert(s[s.len() - 1] == s.last());
    }
}

/// Whether `m` is the line of `s` and reaches as far.
pub open spec fn covers(m: Segment, s: Segment) -> bool {
    &&& m.orientation == s.orientation
    &&& m.fixed <= s.fixed <= m.fixed + SEGMENT_MERGE_GAP
    &&& m.start <= s.start
    &&& s.end <= m.end
}

/// Whether a segment of `m` covers `s`.
pub open spec fn represented(m: Seq<Segment>, s: Segment) -> bool {
    exists|j: int| 0 <= j < m.len() && covers(#[trigger] m[j], s)
}

proof fn lemma_contained_represents(m: Seq<Segment>, v: Segment, s: Segment)
    requires
        m.contains(v),
        covers(v, s),
    ensures
        represented(m, s),
{
    let j = choose|j: int| 0 <= j < m.len() && m[j] == v;
    assert(covers(m[j], s));
}

proof fn lemma_gathered(s: Seq<Segment>)
    requires
        lines_ascend(s),
    ensures
        forall|i: int| 0 <= i < s.len() ==> represented(gathered(s), #[trigger] s[i]),
        gathered(s).len() <= s.len(),
    decreases s.len(),
{
    if s.len() > 0 {
        let front = s.drop_last();
        let m = gathered(front);
        let all = gathered(s);
        let next = s.last();
        let pool = pooled(m, next);
        lemma_front_ascends(s);
        lemma_gathered(front);
        lemma_pooled(m, next);
        lemma_replaced(m, next, pool);
        assert forall|i: int| 0 <= i < s.len() implies represented(all, #[trigger] s[i]) by {
            if i < front.len() {
                assert(represented(m, front[i]));
                let j = choose|j: int| 0 <= j < m.len() && covers(#[trigger] m[j], front[i]);
                if continues(m[j], next) {
                    assert(covers(pool, s[i]));
                    lemma_contained_represents(all, pool, s[i]);
                } else {
                    if !continues_one(m, next) {
                        assert(all[j] == m[j]);
                    }
                    lemma_contained_represents(all, m[j], s[i]);
                }
            } else if continues_one(m, next) {
                lemma_contained_represents(all, pool, s[i]);
            } else {
                assert(covers(all[all.len() - 1], s[i]));
            }
        }
    }
}

proof fn lemma_pooled_on_picture(m: Seq<Segment>, next: Segment)
    requires
        all_on_picture(m),
        on_picture(next),
    ensures
        on_picture(pooled(m, next)),
    decreases m.len(),
{
    if m.len() > 0 {
        let front = m.drop_last();
        assert forall|i: int| 0 <= i < front.len() implies on_picture(#[trigger] front[i]) by {
            assert(on_picture(m[i]));
        }
        lemma_pooled_on_picture(front, next);
        assert(on_picture(m[m.len() - 1]));
    }
}

proof fn lemma_gathered_on_picture(s: Seq<Segment>)
    requires
        all_on_picture(s),
    ensures
        all_on_picture(gathered(s)),
    decreases s.len(),
{
    if s.len() > 0 {
        let front = s.drop_last();
        let m = gathered(front);
        let all = gathered(s);
        let pool = pooled(m, s.last());
        assert forall|i: int| 0 <= i < front.len() implies on_picture(#[trigger] front[i]) by {
            assert(on_picture(s[i]));
        }
        lemma_gathered_on_picture(front);
        assert(on_picture(s[s.len() - 1]));
        lemma_pooled_on_picture(m, s.last());
        lemma_replaced(m, s.last(), pool);
        assert forall|k: int| 0 <= k < all.len() implies on_picture(#[trigger] all[k]) by {
            if continues_one(m, s.last()) {
                if all[k] != pool {
                    let j = choose|j: int| 0 <= j < m.len() && #[trigger] m[j] == all[k];
                    assert(on_picture(m[j]));
                }
            } else if k < m.len() {
                assert(on_picture(m[k]));
            }
        }
    }
}

/// Merging loses no line: each given segment is covered by a merged one on the same line. There are
/// no more merged segments than given ones.
pub proof fn merging_covers_every_segment(s: Seq<Segment>)
    ensures
        forall|i: int| 0 <= i < s.len() ==> represented(merged(s), #[trigger] s[i]),
        merged(s).len() <= s.len(),
        all_on_picture(s) ==> all_on_picture(merged(s)),
{
    let sorted = sorting::stable_sorted::<Segment, ByLine>(s);
    lemma_sorted_by_line(s);
    lemma_gathered(sorted);
    assert forall|i: int| 0 <= i < s.len() implies represented(merged(s), #[trigger] s[i]) by {
        assert(s.contains(s[i]));
        assert(sorted.contains(s[i]));
        let k = choose|k: int| 0 <= k < sorted.len() && sorted[k] == s[i];
        assert(represented(merged(s), sorted[k]));
    }
    if all_on_picture(s) {
        assert forall|i: int| 0 <= i < sorted.len() implies on_picture(#[trigger] sorted[i]) by {
            assert(sorted.contains(sorted[i]));
            assert(s.contains(sorted[i]));
        }
        lemma_gathered_on_picture(sorted);
    }
}

/// Whether the ends of all segments are in order.
pub open spec fn all_in_order(s: Seq<Segment>) -> bool {
    forall|i: int| 0 <= i < s.len() ==> (#[trigger] s[i]).start <= s[i].end
}

proof fn lemma_gathered_in_order(s: Seq<Segment>)
    requires
        all_in_order(s),
    ensures
        all_in_order(gathered(s)),
    decreases s.len(),
{
    if s.len() > 0 {
        let front = s.drop_last();
        let m = gathered(front);
        let all = gathered(s);
        let pool = pooled(m, s.last());
        assert forall|i: int| 0 <= i < front.len() implies (#[trigger] front[i]).start
            <= front[i].end by {
            assert(s[i].start <= s[i].end);
        }
        lemma_gathered_in_order(front);
        assert(s[s.len() - 1].start <= s[s.len() - 1].end);
        lemma_pooled(m, s.last());
        lemma_replaced(m, s.last(), pool);
        assert forall|k: int| 0 <= k < all.len() implies (#[trigger] all[k]).start
            <= all[k].end by {
            if continues_one(m, s.last()) {
                if all[k] != pool {
                    let j = choose|j: int| 0 <= j < m.len() && #[trigger] m[j] == all[k];
                    assert(m[j].start <= m[j].end);
                }
            } else if k < m.len() {
                assert(m[k].start <= m[k].end);
            }
        }
    }
}

/// Whether two ranges overlap or have no gap of more than [`SEGMENT_MERGE_GAP`] between them.
pub open spec fn meet(a: Segment, b: Segment) -> bool {
    a.start <= b.end + SEGMENT_MERGE_GAP && b.start <= a.end + SEGMENT_MERGE_GAP
}

/// Whether a segment of `s` on the line of one of the two is too far from the line of the other one
/// for both to be a single line.
pub open spec fn too_far(s: Seq<Segment>, a: Segment, b: Segment) -> bool {
    exists|i: int|
        0 <= i < s.len() && (covers(a, #[trigger] s[i]) && s[i].fixed > b.fixed + SEGMENT_MERGE_GAP
            || covers(b, s[i]) && s[i].fixed > a.fixed + SEGMENT_MERGE_GAP)
}

/// Whether neither of the two continues the other, unless they are too far apart for one line.
pub open spec fn settled(s: Seq<Segment>, a: Segment, b: Segment) -> bool {
    continues(a, b) ==> too_far(s, a, b)
}

/// Whether all segments of `m` are settled with each other.
pub open spec fn all_settled(s: Seq<Segment>, m: Seq<Segment>) -> bool {
    forall|a: int, b: int| 0 <= a < b < m.len() ==> settled(s, #[trigger] m[a], #[trigger] m[b])
}

proof fn lemma_settled_more(s: Seq<Segment>, a: Segment, b: Segment)
    requires
        s.len() > 0,
        settled(s.drop_last(), a, b),
    ensures
        settled(s, a, b),
{
    let front = s.drop_last();
    if continues(a, b) {
        let i = choose|i: int|
            0 <= i < front.len() && (covers(a, #[trigger] front[i]) && front[i].fixed > b.fixed
                + SEGMENT_MERGE_GAP || covers(b, front[i]) && front[i].fixed > a.fixed
                + SEGMENT_MERGE_GAP);
        assert(s[i] == front[i]);
    }
}

proof fn lemma_pool_meets(m: Seq<Segment>, next: Segment, other: Segment)
    requires
        all_in_order(m),
        next.start <= next.end,
        other.start <= other.end,
        meet(pooled(m, next), other),
    ensures
        meet(next, other) || exists|k: int|
            0 <= k < m.len() && continues(#[trigger] m[k], next) && meet(m[k], other),
    decreases m.len(),
{
    if m.len() > 0 {
        let front = m.drop_last();
        let last = m.last();
        assert forall|i: int| 0 <= i < front.len() implies (#[trigger] front[i]).start
            <= front[i].end by {
            assert(m[i].start <= m[i].end);
        }
        assert(m[m.len() - 1].start <= m[m.len() - 1].end);
        lemma_pooled(front, next);
        if continues(last, next) && meet(last, other) {
            assert(continues(m[m.len() - 1], next) && meet(m[m.len() - 1], other));
        } else {
            assert(meet(pooled(front, next), other));
            lemma_pool_meets(front, next, other);
            if !meet(next, other) {
                let k = choose|k: int|
                    0 <= k < front.len() && continues(#[trigger] front[k], next) && meet(
                        front[k],
                        other,
                    );
                assert(continues(m[k], next) && meet(m[k], other));
            }
        }
    }
}

proof fn lemma_lines_below(s: Seq<Segment>, orientation: Orientation, top: int)
    requires
        forall|i: int|
            0 <= i < s.len() && (#[trigger] s[i]).orientation == orientation ==> s[i].fixed <= top,
    ensures
        forall|j: int|
            0 <= j < gathered(s).len() && (#[trigger] gathered(s)[j]).orientation == orientation
                ==> gathered(s)[j].fixed <= top,
    decreases s.len(),
{
    if s.len() > 0 {
        let front = s.drop_last();
        let m = gathered(front);
        let all = gathered(s);
        let pool = pooled(m, s.last());
        assert forall|i: int|
            0 <= i < front.len() && (#[trigger] front[i]).orientation
                == orientation implies front[i].fixed <= top by {
            assert(s[i] == front[i]);
        }
        lemma_lines_below(front, orientation, top);
        lemma_pooled(m, s.last());
        lemma_replaced(m, s.last(), pool);
        assert(s[s.len() - 1] == s.last());
        assert forall|k: int|
            0 <= k < all.len() && (#[trigger] all[k]).orientation
                == orientation implies all[k].fixed <= top by {
            if continues_one(m, s.last()) {
                if all[k] != pool {
                    let j = choose|j: int| 0 <= j < m.len() && #[trigger] m[j] == all[k];
                    assert(m[j].orientation == orientation);
                }
            } else if k < m.len() {
                assert(m[k].orientation == orientation);
            }
        }
    }
}

proof fn lemma_pool_settles(s: Seq<Segment>, m: Seq<Segment>, at: int)
    requires
        s.len() > 0,
        lines_ascend(s),
        s.last().start <= s.last().end,
        m == gathered(s.drop_last()),
        all_in_order(m),
        all_settled(s.drop_last(), m),
        0 <= at < m.len(),
        !continues(m[at], s.last()),
    ensures
        settled(s, pooled(m, s.last()), m[at]),
        settled(s, m[at], pooled(m, s.last())),
{
    let front = s.drop_last();
    let next = s.last();
    let pool = pooled(m, next);
    let other = m[at];
    lemma_front_ascends(s);
    lemma_pooled(m, next);
    if continues(pool, other) || continues(other, pool) {
        assert forall|i: int|
            0 <= i < front.len() && (#[trigger] front[i]).orientation
                == next.orientation implies front[i].fixed <= next.fixed by {
            assert(s[i] == front[i]);
        }
        lemma_lines_below(front, next.orientation, next.fixed as int);
        assert(other.fixed <= next.fixed);
        if other.fixed + SEGMENT_MERGE_GAP < next.fixed {
            assert(covers(pool, s[s.len() - 1]));
        } else {
            assert(other.start <= other.end);
            lemma_pool_meets(m, next, other);
            assert(!meet(next, other));
            let k = choose|k: int|
                0 <= k < m.len() && continues(#[trigger] m[k], next) && meet(m[k], other);
            assert(m[k].fixed <= next.fixed);
            assert(continues(m[k], other) && continues(other, m[k]));
            if k < at {
                assert(settled(front, m[k], m[at]));
            } else {
                assert(settled(front, m[at], m[k]));
            }
            let i = choose|i: int|
                0 <= i < front.len() && (covers(m[k], #[trigger] front[i]) && front[i].fixed
                    > other.fixed + SEGMENT_MERGE_GAP || covers(other, front[i]) && front[i].fixed
                    > m[k].fixed + SEGMENT_MERGE_GAP);
            assert(front[i].fixed <= next.fixed);
            assert(false);
        }
    }
}

proof fn lemma_replaced_settled(s: Seq<Segment>, m: Seq<Segment>, next: Segment, pool: Segment)
    requires
        all_settled(s, m),
        forall|j: int|
            0 <= j < m.len() && !continues(#[trigger] m[j], next) ==> settled(s, pool, m[j])
                && settled(s, m[j], pool),
    ensures
        all_settled(s, replaced(m, next, pool)),
    decreases m.len(),
{
    if m.len() > 0 {
        let front = m.drop_last();
        let before = replaced(front, next, pool);
        let all = replaced(m, next, pool);
        assert forall|a: int, b: int| 0 <= a < b < front.len() implies settled(
            s,
            #[trigger] front[a],
            #[trigger] front[b],
        ) by {
            assert(settled(s, m[a], m[b]));
        }
        assert forall|j: int| 0 <= j < front.len() && !continues(#[trigger] front[j], next) implies
            settled(s, pool, front[j]) && settled(s, front[j], pool) by {
            assert(front[j] == m[j]);
        }
        lemma_replaced_settled(s, front, next, pool);
        assert forall|a: int, b: int| 0 <= a < b < all.len() implies settled(
            s,
            #[trigger] all[a],
            #[trigger] all[b],
        ) by {
            if b < before.len() {
                assert(settled(s, before[a], before[b]));
            } else {
                lemma_kept(front, next, pool, a);
                assert(all[a] == before[a]);
                assert(m[m.len() - 1] == m.last());
                if continues_one(front, next) && before[a] == pool {
                    assert(!continues(m.last(), next));
                } else {
                    let j = choose|j: int|
                        0 <= j < front.len() && !continues(#[trigger] front[j], next) && front[j]
                            == before[a];
                    assert(m[j] == front[j]);
                }
            }
        }
    }
}

proof fn lemma_kept(m: Seq<Segment>, next: Segment, pool: Segment, k: int)
    requires
        0 <= k < replaced(m, next, pool).len(),
    ensures
        continues_one(m, next) && replaced(m, next, pool)[k] == pool || exists|j: int|
            0 <= j < m.len() && !continues(#[trigger] m[j], next) && m[j] == replaced(
                m,
                next,
                pool,
            )[k],
    decreases m.len(),
{
    let front = m.drop_last();
    let before = replaced(front, next, pool);
    let all = replaced(m, next, pool);
    lemma_continues_one(m, next);
    if k < before.len() {
        lemma_kept(front, next, pool, k);
        assert(all[k] == before[k]);
        if !(continues_one(front, next) && before[k] == pool) {
            let j = choose|j: int|
                0 <= j < front.len() && !continues(#[trigger] front[j], next) && front[j]
                    == before[k];
            assert(!continues(m[j], next) && m[j] == all[k]);
        }
    } else if !continues(m.last(), next) {
        assert(!continues(m[m.len() - 1], next) && m[m.len() - 1] == all[k]);
    }
}

proof fn lemma_gathered_settled(s: Seq<Segment>)
    requires
        lines_ascend(s),
        all_in_order(s),
    ensures
        all_settled(s, gathered(s)),
    decreases s.len(),
{
    if s.len() > 0 {
        let front = s.drop_last();
        let m = gathered(front);
        let all = gathered(s);
        let next = s.last();
        lemma_front_ascends(s);
        assert forall|i: int| 0 <= i < front.len() implies (#[trigger] front[i]).start
            <= front[i].end by {
            assert(s[i].start <= s[i].end);
        }
        assert(s[s.len() - 1].start <= s[s.len() - 1].end);
        lemma_gathered_in_order(front);
        lemma_gathered_settled(front);
        assert forall|a: int, b: int| 0 <= a < b < m.len() implies settled(
            s,
            #[trigger] m[a],
            #[trigger] m[b],
        ) by {
            lemma_settled_more(s, m[a], m[b]);
        }
        if continues_one(m, next) {
            let pool = pooled(m, next);
            assert forall|j: int| 0 <= j < m.len() && !continues(#[trigger] m[j], next) implies
                settled(s, pool, m[j]) && settled(s, m[j], pool) by {
                lemma_pool_settles(s, m, j);
            }
            lemma_replaced_settled(s, m, next, pool);
        } else {
            assert forall|a: int, b: int| 0 <= a < b < all.len() implies settled(
                s,
                #[trigger] all[a],
                #[trigger] all[b],
            ) by {
                assert(all[a] == m[a]);
                if b < m.len() {
                    assert(settled(s, m[a], m[b]));
                }
            }
        }
    }
}

/// Merging goes on as long as it can: of two merged segments neither continues the other, unless one
/// of them holds a given segment more than [`SEGMENT_MERGE_GAP`] from the line of the other, which a
/// single line would leave behind.
pub proof fn merged_segments_stay_apart(s: Seq<Segment>)
    requires
        all_in_order(s),
    ensures
        all_settled(s, merged(s)),
{
    let sorted = sorting::stable_sorted::<Segment, ByLine>(s);
    let m = merged(s);
    lemma_sorted_by_line(s);
    assert forall|i: int| 0 <= i < sorted.len() implies (#[trigger] sorted[i]).start
        <= sorted[i].end by {
        assert(sorted.contains(sorted[i]));
        let k = choose|k: int| 0 <= k < s.len() && s[k] == sorted[i];
        assert(s[k].start <= s[k].end);
    }
    lemma_gathered_settled(sorted);
    assert forall|a: int, b: int| 0 <= a < b < m.len() implies settled(
        s,
        #[trigger] m[a],
        #[trigger] m[b],
    ) by {
        assert(settled(sorted, m[a], m[b]));
        if continues(m[a], m[b]) {
            let i = choose|i: int|
                0 <= i < sorted.len() && (covers(m[a], #[trigger] sorted[i]) && sorted[i].fixed
                    > m[b].fixed + SEGMENT_MERGE_GAP || covers(m[b], sorted[i]) && sorted[i].fixed
                    > m[a].fixed + SEGMENT_MERGE_GAP);
            assert(sorted.contains(sorted[i]));
            let k = choose|k: int| 0 <= k < s.len() && s[k] == sorted[i];
            assert(s[k] == sorted[i]);
        }
    }
}

/// Whether a segment of `s` on the line of `m` has a pixel up to [`SEGMENT_MERGE_GAP`] from the one
/// at `along`.
pub open spec fn near_one(s: Seq<Segment>, m: Segment, along: int) -> bool {
    exists|i: int|
        0 <= i < s.len() && (#[trigger] s[i]).orientation == m.orientation && m.fixed
            <= s[i].fixed <= m.fixed + SEGMENT_MERGE_GAP && s[i].start - SEGMENT_MERGE_GAP <= along
            <= s[i].end + SEGMENT_MERGE_GAP
}

proof fn lemma_pool_reaches(m: Seq<Segment>, next: Segment, along: int)
    requires
        all_in_order(m),
        next.start <= next.end,
        pooled(m, next).start <= along <= pooled(m, next).end,
    ensures
        next.start - SEGMENT_MERGE_GAP <= along <= next.end + SEGMENT_MERGE_GAP || exists|j: int|
            0 <= j < m.len() && continues(#[trigger] m[j], next) && m[j].start <= along <= m[j].end,
    decreases m.len(),
{
    if m.len() > 0 {
        let front = m.drop_last();
        let h = pooled(front, next);
        assert forall|i: int| 0 <= i < front.len() implies (#[trigger] front[i]).start
            <= front[i].end by {
            assert(m[i].start <= m[i].end);
        }
        assert(m[m.len() - 1].start <= m[m.len() - 1].end);
        lemma_pooled(front, next);
        if h.start <= along <= h.end {
            lemma_pool_reaches(front, next, along);
            if !(next.start - SEGMENT_MERGE_GAP <= along <= next.end + SEGMENT_MERGE_GAP) {
                let j = choose|j: int|
                    0 <= j < front.len() && continues(#[trigger] front[j], next) && front[j].start
                        <= along <= front[j].end;
                assert(continues(m[j], next));
            }
        } else {
            assert(continues(m[m.len() - 1], next));
        }
    }
}

proof fn lemma_near_more(s: Seq<Segment>, m: Segment, pool: Segment, along: int)
    requires
        s.len() > 0,
        lines_ascend(s),
        near_one(s.drop_last(), m, along),
        m == pool || m.orientation == pool.orientation && m.orientation == s.last().orientation
            && pool.fixed <= m.fixed && s.last().fixed <= pool.fixed + SEGMENT_MERGE_GAP,
    ensures
        near_one(s, pool, along),
{
    let front = s.drop_last();
    lemma_front_ascends(s);
    let i = choose|i: int|
        0 <= i < front.len() && (#[trigger] front[i]).orientation == m.orientation && m.fixed
            <= front[i].fixed <= m.fixed + SEGMENT_MERGE_GAP && front[i].start - SEGMENT_MERGE_GAP
            <= along <= front[i].end + SEGMENT_MERGE_GAP;
    assert(s[i] == front[i]);
}

proof fn lemma_gathered_is_near(s: Seq<Segment>)
    requires
        lines_ascend(s),
        all_in_order(s),
    ensures
        forall|j: int, along: int|
            0 <= j < gathered(s).len() && gathered(s)[j].start <= along <= gathered(s)[j].end
                ==> #[trigger] near_one(s, gathered(s)[j], along),
    decreases s.len(),
{
    if s.len() > 0 {
        let front = s.drop_last();
        let m = gathered(front);
        let all = gathered(s);
        let next = s.last();
        let pool = pooled(m, next);
        lemma_front_ascends(s);
        assert forall|i: int| 0 <= i < front.len() implies (#[trigger] front[i]).start
            <= front[i].end by {
            assert(s[i].start <= s[i].end);
        }
        assert(s[s.len() - 1].start <= s[s.len() - 1].end);
        lemma_gathered_is_near(front);
        lemma_gathered_in_order(front);
        lemma_pooled(m, next);
        lemma_replaced(m, next, pool);
        assert forall|j: int, along: int|
            0 <= j < all.len() && all[j].start <= along <= all[j].end implies #[trigger] near_one(
            s,
            all[j],
            along,
        ) by {
            if continues_one(m, next) {
                if all[j] == pool {
                    lemma_pool_reaches(m, next, along);
                    if next.start - SEGMENT_MERGE_GAP <= along <= next.end + SEGMENT_MERGE_GAP {
                        assert(s[s.len() - 1] == next);
                    } else {
                        let k = choose|k: int|
                            0 <= k < m.len() && continues(#[trigger] m[k], next) && m[k].start
                                <= along <= m[k].end;
                        assert(near_one(front, m[k], along));
                        lemma_near_more(s, m[k], pool, along);
                    }
                } else {
                    let k = choose|k: int| 0 <= k < m.len() && #[trigger] m[k] == all[j];
                    assert(near_one(front, m[k], along));
                    lemma_near_more(s, m[k], m[k], along);
                }
            } else if j < m.len() {
                assert(near_one(front, m[j], along));
                lemma_near_more(s, m[j], m[j], along);
            } else {
                assert(s[s.len() - 1] == next);
            }
        }
    }
}

/// Merging bridges no gap: wherever a merged segment runs, a given one on the same line is no more
/// than [`SEGMENT_MERGE_GAP`] away.
pub proof fn merging_bridges_no_gap(s: Seq<Segment>, j: int, along: int)
    requires
        all_in_order(s),
        0 <= j < merged(s).len(),
        merged(s)[j].start <= along <= merged(s)[j].end,
    ensures
        near_one(s, merged(s)[j], along),
{
    let sorted = sorting::stable_sorted::<Segment, ByLine>(s);
    let m = merged(s)[j];
    lemma_sorted_by_line(s);
    assert forall|i: int| 0 <= i < sorted.len() implies (#[trigger] sorted[i]).start
        <= sorted[i].end by {
        assert(sorted.contains(sorted[i]));
        let k = choose|k: int| 0 <= k < s.len() && s[k] == sorted[i];
        assert(s[k].start <= s[k].end);
    }
    lemma_gathered_is_near(sorted);
    assert(near_one(sorted, m, along));
    let i = choose|i: int|
        0 <= i < sorted.len() && (#[trigger] sorted[i]).orientation == m.orientation && m.fixed
            <= sorted[i].fixed <= m.fixed + SEGMENT_MERGE_GAP && sorted[i].start
            - SEGMENT_MERGE_GAP <= along <= sorted[i].end + SEGMENT_MERGE_GAP;
    assert(sorted.contains(sorted[i]));
    let k = choose|k: int| 0 <= k < s.len() && s[k] == sorted[i];
    assert(s[k] == sorted[i]);
}

/// Whether two lengths are those of opposite sides: positive, and apart by at most
/// [`LENGTH_MATCH_PERCENT`] per cent of the longer one.
pub open spec fn same_length(a: int, b: int) -> bool {
    a > 0 && b > 0 && 100 * edges::distance(a, b) <= LENGTH_MATCH_PERCENT * boxes::max(a, b)
}

/// Whether two lengths are those of opposite sides.
pub fn lengths_match(a: i64, b: i64) -> (r: bool)
    ensures
        r == same_length(a as int, b as int),
{
    if a <= 0 || b <= 0 {
        return false;
    }
    let (longer, shorter) = if a >= b {
        (a as i128, b as i128)
    } else {
        (b as i128, a as i128)
    };
    assert(0 <= LENGTH_MATCH_PERCENT * longer <= 8 * 0x7fff_ffff_ffff_ffff) by (nonlinear_arith)
        requires
            LENGTH_MATCH_PERCENT == 8,
            0 <= longer <= 0x7fff_ffff_ffff_ffff,
    ;
    100 * (longer - shorter) <= LENGTH_MATCH_PERCENT as i128 * longer
}

/// The segments of one orientation.
pub open spec fn oriented(s: Seq<Segment>, orientation: Orientation) -> Seq<Segment>
    decreases s.len(),
{
    if s.len() == 0 {
        Seq::empty()
    } else {
        let before = oriented(s.drop_last(), orientation);
        if s.last().orientation == orientation {
            before.push(s.last())
        } else {
            before
        }
    }
}

/// Two segments, the one on the lower line first.
pub open spec fn ordered(a: Segment, b: Segment) -> (Segment, Segment) {
    if a.fixed <= b.fixed {
        (a, b)
    } else {
        (b, a)
    }
}

/// The pairs of `same[i]` with the segments behind it, but before `n`, whose length matches.
pub open spec fn partners(same: Seq<Segment>, i: int, n: nat) -> Seq<(Segment, Segment)>
    decreases n,
{
    if n == 0 || n <= i + 1 {
        Seq::empty()
    } else {
        let before = partners(same, i, (n - 1) as nat);
        if same_length(same[i].end - same[i].start, same[n - 1].end - same[n - 1].start) {
            before.push(ordered(same[i], same[n - 1]))
        } else {
            before
        }
    }
}

/// The pairs of the first `n` segments with those behind them.
pub open spec fn paired(same: Seq<Segment>, n: nat) -> Seq<(Segment, Segment)>
    decreases n,
{
    if n == 0 {
        Seq::empty()
    } else {
        paired(same, (n - 1) as nat) + partners(same, n - 1, same.len())
    }
}

/// The pairs of segments of one orientation that can be opposite sides of a box.
pub open spec fn matched_pairs(
    segments: Seq<Segment>,
    orientation: Orientation,
) -> Seq<(Segment, Segment)> {
    let same = oriented(segments, orientation);
    paired(same, same.len())
}

fn pick_oriented(segments: &[Segment], orientation: Orientation) -> (same: Vec<Segment>)
    ensures
        same@ == oriented(segments@, orientation),
{
    let mut same: Vec<Segment> = Vec::new();
    let mut i: usize = 0;
    while i < segments.len()
        invariant
            i <= segments@.len(),
            same@ == oriented(segments@.take(i as int), orientation),
        decreases segments.len() - i,
    {
        proof {
            assert(segments@.take(i + 1).drop_last() =~= segments@.take(i as int));
        }
        if segments[i].orientation == orientation {
            same.push(segments[i]);
        }
        i = i + 1;
    }
    assert(segments@.take(i as int) =~= segments@);
    same
}

/// Every pair of segments of the given orientation whose lengths match, the one on the lower line
/// first: candidates for opposite sides of a box.
pub fn length_matched_pairs(
    segments: &[Segment],
    orientation: Orientation,
) -> (pairs: Vec<(Segment, Segment)>)
    ensures
        pairs@ == matched_pairs(segments@, orientation),
{
    let same: Vec<Segment> = pick_oriented(segments, orientation);
    let mut pairs: Vec<(Segment, Segment)> = Vec::new();
    let mut i: usize = 0;
    while i < same.len()
        invariant
            i <= same@.len(),
            pairs@ == paired(same@, i as nat),
        decreases same.len() - i,
    {
        let ghost before = pairs@;
        let mut j: usize = i + 1;
        assert(before + partners(same@, i as int, (i + 1) as nat) =~= before);
        while j < same.len()
            invariant
                i < j <= same@.len(),
                pairs@ == before + partners(same@, i as int, j as nat),
            decreases same.len() - j,
        {
            let (a, b): (Segment, Segment) = (same[i], same[j]);
            if lengths_match(a.length(), b.length()) {
                if a.fixed <= b.fixed {
                    pairs.push((a, b));
                } else {
                    pairs.push((b, a));
                }
                assert(pairs@ =~= before + partners(same@, i as int, (j + 1) as nat));
            }
            j = j + 1;
        }
        i = i + 1;
    }
    pairs
}

/// Whether a pair can be opposite sides: same orientation, in order, and of matching lengths.
pub open spec fn opposite(pair: (Segment, Segment), orientation: Orientation) -> bool {
    &&& pair.0.orientation == orientation
    &&& pair.1.orientation == orientation
    &&& pair.0.fixed <= pair.1.fixed
    &&& same_length(pair.0.end - pair.0.start, pair.1.end - pair.1.start)
}

proof fn lemma_oriented(s: Seq<Segment>, orientation: Orientation)
    ensures
        forall|i: int|
            0 <= i < oriented(s, orientation).len() ==> (#[trigger] oriented(
                s,
                orientation,
            )[i]).orientation == orientation && s.contains(oriented(s, orientation)[i]),
    decreases s.len(),
{
    if s.len() > 0 {
        let front = s.drop_last();
        lemma_oriented(front, orientation);
        let all = oriented(s, orientation);
        let before = oriented(front, orientation);
        assert forall|i: int| 0 <= i < all.len() implies (#[trigger] all[i]).orientation
            == orientation && s.contains(all[i]) by {
            if i < before.len() {
                assert(all[i] == before[i]);
                let k = choose|k: int| 0 <= k < front.len() && front[k] == before[i];
                assert(s[k] == all[i]);
            } else {
                assert(s[s.len() - 1] == all[i]);
            }
        }
    }
}

proof fn lemma_partners(same: Seq<Segment>, orientation: Orientation, i: int, n: nat)
    requires
        0 <= i,
        n <= same.len(),
        forall|k: int| 0 <= k < same.len() ==> (#[trigger] same[k]).orientation == orientation,
    ensures
        forall|k: int|
            0 <= k < partners(same, i, n).len() ==> {
                let pair = #[trigger] partners(same, i, n)[k];
                opposite(pair, orientation) && same.contains(pair.0) && same.contains(pair.1)
            },
    decreases n,
{
    if n > i + 1 {
        lemma_partners(same, orientation, i, (n - 1) as nat);
        let before = partners(same, i, (n - 1) as nat);
        let all = partners(same, i, n);
        assert(same.contains(same[i]) && same.contains(same[n - 1]));
        assert(same[i].orientation == orientation && same[n - 1].orientation == orientation);
        assert forall|k: int| 0 <= k < all.len() implies {
            let pair = #[trigger] all[k];
            opposite(pair, orientation) && same.contains(pair.0) && same.contains(pair.1)
        } by {
            if k < before.len() {
                assert(all[k] == before[k]);
            }
        }
    }
}

proof fn lemma_paired(same: Seq<Segment>, orientation: Orientation, n: nat)
    requires
        n <= same.len(),
        forall|k: int| 0 <= k < same.len() ==> (#[trigger] same[k]).orientation == orientation,
    ensures
        forall|k: int|
            0 <= k < paired(same, n).len() ==> {
                let pair = #[trigger] paired(same, n)[k];
                opposite(pair, orientation) && same.contains(pair.0) && same.contains(pair.1)
            },
    decreases n,
{
    if n > 0 {
        lemma_paired(same, orientation, (n - 1) as nat);
        lemma_partners(same, orientation, n - 1, same.len());
        let before = paired(same, (n - 1) as nat);
        let here = partners(same, n - 1, same.len());
        let all = paired(same, n);
        assert forall|k: int| 0 <= k < all.len() implies {
            let pair = #[trigger] all[k];
            opposite(pair, orientation) && same.contains(pair.0) && same.contains(pair.1)
        } by {
            if k < before.len() {
                assert(all[k] == before[k]);
            } else {
                assert(all[k] == here[k - before.len()]);
            }
        }
    }
}

/// Every pair is made of two given segments that can be opposite sides of a box: a segment without
/// a partner of its length is in none.
pub proof fn pairs_are_opposite_sides(segments: Seq<Segment>, orientation: Orientation)
    ensures
        forall|k: int|
            0 <= k < matched_pairs(segments, orientation).len() ==> {
                let pair = #[trigger] matched_pairs(segments, orientation)[k];
                &&& opposite(pair, orientation)
                &&& segments.contains(pair.0)
                &&& segments.contains(pair.1)
            },
{
    let same = oriented(segments, orientation);
    lemma_oriented(segments, orientation);
    lemma_paired(same, orientation, same.len());
    assert forall|k: int| 0 <= k < matched_pairs(segments, orientation).len() implies {
        let pair = #[trigger] matched_pairs(segments, orientation)[k];
        &&& opposite(pair, orientation)
        &&& segments.contains(pair.0)
        &&& segments.contains(pair.1)
    } by {
        let pair = matched_pairs(segments, orientation)[k];
        let i = choose|i: int| 0 <= i < same.len() && same[i] == pair.0;
        let j = choose|j: int| 0 <= j < same.len() && same[j] == pair.1;
        assert(segments.contains(same[i]) && segments.contains(same[j]));
    }
}

/// Whether two coordinates are close enough for a corner.
pub open spec fn corner(a: int, b: int) -> bool {
    edges::distance(a, b) <= SEGMENT_MERGE_GAP * 2
}

/// Whether two coordinates are close enough for a corner.
pub fn coord_matches(a: i32, b: i32) -> (r: bool)
    ensures
        r == corner(a as int, b as int),
{
    let d: i64 = a as i64 - b as i64;
    -(SEGMENT_MERGE_GAP as i64 * 2) <= d && d <= SEGMENT_MERGE_GAP as i64 * 2
}

/// The size of a picture across lines of `orientation`.
pub open spec fn size_across(p: Picture, orientation: Orientation) -> int {
    match orientation {
        Orientation::Vertical => edges::signed(p.width),
        Orientation::Horizontal => edges::signed(p.height),
    }
}

/// The size of a picture along lines of `orientation`.
pub open spec fn size_along(p: Picture, orientation: Orientation) -> int {
    match orientation {
        Orientation::Vertical => edges::signed(p.height),
        Orientation::Horizontal => edges::signed(p.width),
    }
}

/// How many edge pixels the line at `fixed` has between `range.0` and `range.1`.
pub open spec fn edges_on(
    p: Picture,
    orientation: Orientation,
    fixed: int,
    range: (i32, i32),
) -> nat {
    let lo = boxes::max(range.0 as int, 0);
    let hi = boxes::min(range.1 as int, size_along(p, orientation));
    lines::tally(|i: int| on_line(p, orientation, fixed, lo + i), ahead(lo, hi))
}

/// The best of the first `n` positions around `rough`: the one with the most edge pixels, and the
/// last of several. Positions off the picture do not count.
pub open spec fn best_position(
    p: Picture,
    orientation: Orientation,
    rough: int,
    range: (i32, i32),
    n: nat,
) -> Option<int>
    decreases n,
{
    if n == 0 {
        None
    } else {
        let at = rough - REFINE_MARGIN + n - 1;
        match best_position(p, orientation, rough, range, (n - 1) as nat) {
            _ if !(0 < at < size_across(p, orientation)) => best_position(
                p,
                orientation,
                rough,
                range,
                (n - 1) as nat,
            ),
            Some(b) if edges_on(p, orientation, at, range) < edges_on(p, orientation, b, range)
                => Some(b),
            _ => Some(at),
        }
    }
}

/// The position within [`REFINE_MARGIN`] of `rough` with the most edge pixels; `rough` itself if
/// there is none on the picture.
pub open spec fn refined(
    p: Picture,
    orientation: Orientation,
    rough: int,
    range: (i32, i32),
) -> int {
    match best_position(p, orientation, rough, range, (2 * REFINE_MARGIN + 1) as nat) {
        Some(at) => at,
        None => rough,
    }
}

fn count_edges(
    gray: &[u8],
    img_w: u32,
    img_h: u32,
    orientation: Orientation,
    fixed: i32,
    range: (i32, i32),
) -> (count: u32)
    requires
        edges::picture(gray@, img_w, img_h).complete(),
    ensures
        count == edges_on(
            edges::picture(gray@, img_w, img_h),
            orientation,
            fixed as int,
            range,
        ),
{
    let ghost p = edges::picture(gray@, img_w, img_h);
    let size: i32 = match orientation {
        Orientation::Vertical => edges::as_signed(img_h),
        Orientation::Horizontal => edges::as_signed(img_w),
    };
    let lo: i32 = if range.0 >= 0 {
        range.0
    } else {
        0
    };
    let hi: i32 = if range.1 <= size {
        range.1
    } else {
        size
    };
    let ghost test = |i: int| on_line(p, orientation, fixed as int, lo + i);
    let mut count: u32 = 0;
    let mut at: i32 = lo;
    while at < hi
        invariant
            p == edges::picture(gray@, img_w, img_h),
            p.complete(),
            0 <= lo <= at,
            at <= hi || at == lo,
            test == (|i: int| on_line(p, orientation, fixed as int, lo + i)),
            count == lines::tally(test, (at - lo) as nat),
            count <= at - lo,
        decreases hi - at,
    {
        let (x, y) = match orientation {
            Orientation::Vertical => (fixed, at),
            Orientation::Horizontal => (at, fixed),
        };
        assert(test(at - lo) == on_line(p, orientation, fixed as int, at as int));
        if edges::is_edge_pixel(gray, img_w, img_h, x, y, orientation) {
            count = count + 1;
        }
        at = at + 1;
    }
    assert((at - lo) as nat == ahead(lo as int, hi as int));
    count
}

fn refine_edge(
    gray: &[u8],
    img_w: u32,
    img_h: u32,
    orientation: Orientation,
    rough: i32,
    range: (i32, i32),
) -> (r: i32)
    requires
        edges::picture(gray@, img_w, img_h).complete(),
    ensures
        r == refined(edges::picture(gray@, img_w, img_h), orientation, rough as int, range),
        r == rough || 0 < r <= rough + REFINE_MARGIN,
{
    let ghost p = edges::picture(gray@, img_w, img_h);
    let size: i32 = match orientation {
        Orientation::Vertical => edges::as_signed(img_w),
        Orientation::Horizontal => edges::as_signed(img_h),
    };
    let mut best: Option<i32> = None;
    let mut most: u32 = 0;
    let mut k: i64 = 0;
    while k <= 2 * REFINE_MARGIN as i64
        invariant
            p == edges::picture(gray@, img_w, img_h),
            p.complete(),
            size == size_across(p, orientation),
            0 <= k <= 2 * REFINE_MARGIN + 1,
            match best {
                Some(b) => best_position(p, orientation, rough as int, range, k as nat) == Some(
                    b as int,
                ) && most == edges_on(p, orientation, b as int, range) && 0 < b <= rough
                    + REFINE_MARGIN,
                None => best_position(p, orientation, rough as int, range, k as nat) is None,
            },
        decreases 2 * REFINE_MARGIN + 1 - k,
    {
        let at: i64 = rough as i64 - REFINE_MARGIN as i64 + k;
        if 0 < at && at < size as i64 {
            let count: u32 = count_edges(gray, img_w, img_h, orientation, at as i32, range);
            if best.is_none() || count >= most {
                best = Some(at as i32);
                most = count;
            }
        }
        k = k + 1;
    }
    match best {
        Some(at) => at,
        None => rough,
    }
}

/// Moves a rough vertical edge to where, up to [`REFINE_MARGIN`] away, most edge pixels are.
pub fn refine_vertical_edge(
    gray: &[u8],
    img_w: u32,
    img_h: u32,
    x_rough: i32,
    y_range: (i32, i32),
) -> (x: i32)
    requires
        edges::picture(gray@, img_w, img_h).complete(),
    ensures
        x == refined(
            edges::picture(gray@, img_w, img_h),
            Orientation::Vertical,
            x_rough as int,
            y_range,
        ),
        x == x_rough || 0 < x <= x_rough + REFINE_MARGIN,
{
    refine_edge(gray, img_w, img_h, Orientation::Vertical, x_rough, y_range)
}

/// Moves a rough horizontal edge to where, up to [`REFINE_MARGIN`] away, most edge pixels are.
pub fn refine_horizontal_edge(
    gray: &[u8],
    img_w: u32,
    img_h: u32,
    y_rough: i32,
    x_range: (i32, i32),
) -> (y: i32)
    requires
        edges::picture(gray@, img_w, img_h).complete(),
    ensures
        y == refined(
            edges::picture(gray@, img_w, img_h),
            Orientation::Horizontal,
            y_rough as int,
            x_range,
        ),
        y == y_rough || 0 < y <= y_rough + REFINE_MARGIN,
{
    refine_edge(gray, img_w, img_h, Orientation::Horizontal, y_rough, x_range)
}

/// Whether a line at `at` has pixels on both of its sides.
pub open spec fn inside(p: Picture, orientation: Orientation, at: int) -> bool {
    0 < at < size_across(p, orientation)
}

pub(crate) proof fn lemma_best(p: Picture, orientation: Orientation, rough: int, range: (i32, i32), n: nat)
    ensures
        match best_position(p, orientation, rough, range, n) {
            Some(b) => {
                &&& rough - REFINE_MARGIN <= b < rough - REFINE_MARGIN + n
                &&& inside(p, orientation, b)
                &&& forall|at: int|
                    rough - REFINE_MARGIN <= at < rough - REFINE_MARGIN + n && #[trigger] inside(
                        p,
                        orientation,
                        at,
                    ) ==> edges_on(p, orientation, at, range) <= edges_on(p, orientation, b, range)
            },
            None => forall|at: int|
                rough - REFINE_MARGIN <= at < rough - REFINE_MARGIN + n ==> !#[trigger] inside(
                    p,
                    orientation,
                    at,
                ),
        },
    decreases n,
{
    if n > 0 {
        lemma_best(p, orientation, rough, range, (n - 1) as nat);
    }
}

/// Refining moves an edge by at most [`REFINE_MARGIN`], and no line as near has more edge pixels.
pub proof fn refining_finds_the_densest_line(
    p: Picture,
    orientation: Orientation,
    rough: int,
    range: (i32, i32),
)
    ensures
        edges::distance(refined(p, orientation, rough, range), rough) <= REFINE_MARGIN,
        forall|at: int|
            edges::distance(at, rough) <= REFINE_MARGIN && #[trigger] inside(p, orientation, at)
                ==> edges_on(p, orientation, at, range) <= edges_on(
                p,
                orientation,
                refined(p, orientation, rough, range),
                range,
            ),
{
    lemma_best(p, orientation, rough, range, (2 * REFINE_MARGIN + 1) as nat);
}

/// The box of which a vertical pair are the left and the right side and a horizontal pair the top
/// and the bottom, if the four fit together: it has the size of a panel, the horizontal pair lies
/// at the ends of the vertical one, and the other way round.
pub open spec fn box_of(
    p: Picture,
    v: (Segment, Segment),
    h: (Segment, Segment),
) -> Option<Region> {
    let (x0, x1) = (v.0.fixed as int, v.1.fixed as int);
    let y0 = boxes::max(v.0.start as int, v.1.start as int);
    let y1 = boxes::min(v.0.end as int, v.1.end as int);
    let hx0 = boxes::min(h.0.start as int, h.1.start as int);
    let hx1 = boxes::max(h.0.end as int, h.1.end as int);
    let rx0 = refined(p, Orientation::Vertical, x0, (y0 as i32, y1 as i32));
    let rx1 = refined(p, Orientation::Vertical, x1, (y0 as i32, y1 as i32));
    let ry0 = refined(p, Orientation::Horizontal, y0, (rx0 as i32, rx1 as i32));
    let ry1 = refined(p, Orientation::Horizontal, y1, (rx0 as i32, rx1 as i32));
    if x1 - x0 >= MIN_PANEL_SIZE && y1 - y0 >= MIN_PANEL_SIZE && corner(h.0.fixed as int, y0)
        && corner(h.1.fixed as int, y1) && corner(hx0, x0) && corner(hx1, x1) && rx1 > rx0 && ry1
        > ry0 {
        Some((rx0 as i32, ry0 as i32, (rx1 - rx0) as i32, (ry1 - ry0) as i32))
    } else {
        None
    }
}

/// The boxes of a vertical pair with the first `n` horizontal ones.
pub open spec fn boxes_of(
    p: Picture,
    v: (Segment, Segment),
    hs: Seq<(Segment, Segment)>,
    n: nat,
) -> Seq<Region>
    decreases n,
{
    if n == 0 {
        Seq::empty()
    } else {
        let before = boxes_of(p, v, hs, (n - 1) as nat);
        match box_of(p, v, hs[n - 1]) {
            Some(b) => before.push(b),
            None => before,
        }
    }
}

/// The boxes of the first `n` vertical pairs with the horizontal ones.
pub open spec fn all_boxes(
    p: Picture,
    vs: Seq<(Segment, Segment)>,
    hs: Seq<(Segment, Segment)>,
    n: nat,
) -> Seq<Region>
    decreases n,
{
    if n == 0 {
        Seq::empty()
    } else {
        all_boxes(p, vs, hs, (n - 1) as nat) + boxes_of(p, vs[n - 1], hs, hs.len())
    }
}

/// Whether the segments of all pairs lie on a picture.
pub open spec fn pairs_on_picture(pairs: Seq<(Segment, Segment)>) -> bool {
    forall|i: int|
        0 <= i < pairs.len() ==> on_picture((#[trigger] pairs[i]).0) && on_picture(pairs[i].1)
}

/// Whether the distances between two vertical segments, once these are refined, can be counted: a
/// box that starts on a picture is never too large.
pub open spec fn measurable(v: (Segment, Segment)) -> bool {
    let y0 = boxes::max(v.0.start as int, v.1.start as int);
    let y1 = boxes::min(v.0.end as int, v.1.end as int);
    &&& v.0.fixed >= 0 || v.1.fixed - v.0.fixed <= i32::MAX - REFINE_MARGIN
    &&& y0 >= 0 || y1 - y0 <= i32::MAX - REFINE_MARGIN
}

/// Whether this holds of all pairs.
pub open spec fn all_measurable(pairs: Seq<(Segment, Segment)>) -> bool {
    forall|i: int| 0 <= i < pairs.len() ==> measurable(#[trigger] pairs[i])
}

fn fit_box(
    gray: &[u8],
    img_w: u32,
    img_h: u32,
    v: (Segment, Segment),
    h: (Segment, Segment),
) -> (b: Option<Region>)
    requires
        edges::picture(gray@, img_w, img_h).complete(),
        measurable(v),
    ensures
        b == box_of(edges::picture(gray@, img_w, img_h), v, h),
{
    let (vl, vr) = v;
    let (ht, hb) = h;
    let (x0, x1): (i32, i32) = (vl.fixed, vr.fixed);
    let y0: i32 = if vl.start >= vr.start {
        vl.start
    } else {
        vr.start
    };
    let y1: i32 = if vl.end <= vr.end {
        vl.end
    } else {
        vr.end
    };
    if x1 as i64 - (x0 as i64) < MIN_PANEL_SIZE as i64 || y1 as i64 - (y0 as i64)
        < MIN_PANEL_SIZE as i64 {
        return None;
    }
    if !coord_matches(ht.fixed, y0) || !coord_matches(hb.fixed, y1) {
        return None;
    }
    let hx0: i32 = if ht.start <= hb.start {
        ht.start
    } else {
        hb.start
    };
    let hx1: i32 = if ht.end >= hb.end {
        ht.end
    } else {
        hb.end
    };
    if !coord_matches(hx0, x0) || !coord_matches(hx1, x1) {
        return None;
    }
    let rx0: i32 = refine_vertical_edge(gray, img_w, img_h, x0, (y0, y1));
    let rx1: i32 = refine_vertical_edge(gray, img_w, img_h, x1, (y0, y1));
    let ry0: i32 = refine_horizontal_edge(gray, img_w, img_h, y0, (rx0, rx1));
    let ry1: i32 = refine_horizontal_edge(gray, img_w, img_h, y1, (rx0, rx1));
    if rx1 > rx0 && ry1 > ry0 {
        Some((rx0, ry0, rx1 - rx0, ry1 - ry0))
    } else {
        None
    }
}

/// The boxes that four mutually consistent sides make: a coincidence of lengths along one axis,
/// with nothing along the other, makes none.
pub fn boxes_from_pairs(
    gray: &[u8],
    img_w: u32,
    img_h: u32,
    v_pairs: &[(Segment, Segment)],
    h_pairs: &[(Segment, Segment)],
) -> (found: Vec<Region>)
    requires
        edges::picture(gray@, img_w, img_h).complete(),
        all_measurable(v_pairs@),
    ensures
        found@ == all_boxes(
            edges::picture(gray@, img_w, img_h),
            v_pairs@,
            h_pairs@,
            v_pairs@.len(),
        ),
{
    let ghost p = edges::picture(gray@, img_w, img_h);
    let mut found: Vec<Region> = Vec::new();
    let mut i: usize = 0;
    while i < v_pairs.len()
        invariant
            p == edges::picture(gray@, img_w, img_h),
            p.complete(),
            all_measurable(v_pairs@),
            i <= v_pairs@.len(),
            found@ == all_boxes(p, v_pairs@, h_pairs@, i as nat),
        decreases v_pairs.len() - i,
    {
        let ghost before = found@;
        let v: (Segment, Segment) = v_pairs[i];
        assert(measurable(v_pairs@[i as int]));
        assert(before + boxes_of(p, v, h_pairs@, 0) =~= before);
        let mut j: usize = 0;
        while j < h_pairs.len()
            invariant
                p == edges::picture(gray@, img_w, img_h),
                p.complete(),
                measurable(v),
                j <= h_pairs@.len(),
                found@ == before + boxes_of(p, v, h_pairs@, j as nat),
            decreases h_pairs.len() - j,
        {
            if let Some(b) = fit_box(gray, img_w, img_h, v, h_pairs[j]) {
                found.push(b);
                assert(found@ =~= before + boxes_of(p, v, h_pairs@, (j + 1) as nat));
            }
            j = j + 1;
        }
        i = i + 1;
    }
    found
}

/// Whether `b` is the box of a vertical and a horizontal pair: of the size of a panel, with a side
/// near each of the four segments, whose ends meet in its corners.
pub open spec fn enclosed(b: Region, v: (Segment, Segment), h: (Segment, Segment)) -> bool {
    let y0 = boxes::max(v.0.start as int, v.1.start as int);
    let y1 = boxes::min(v.0.end as int, v.1.end as int);
    &&& b.2 > 0
    &&& b.3 > 0
    &&& v.1.fixed - v.0.fixed >= MIN_PANEL_SIZE
    &&& y1 - y0 >= MIN_PANEL_SIZE
    &&& corner(h.0.fixed as int, y0)
    &&& corner(h.1.fixed as int, y1)
    &&& corner(boxes::min(h.0.start as int, h.1.start as int), v.0.fixed as int)
    &&& corner(boxes::max(h.0.end as int, h.1.end as int), v.1.fixed as int)
    &&& edges::distance(b.0 as int, v.0.fixed as int) <= REFINE_MARGIN
    &&& edges::distance(b.0 + b.2, v.1.fixed as int) <= REFINE_MARGIN
    &&& edges::distance(b.1 as int, y0) <= REFINE_MARGIN
    &&& edges::distance(b.1 + b.3, y1) <= REFINE_MARGIN
}

/// Whether `b` is the box of some of the pairs.
pub open spec fn enclosed_by_some(
    b: Region,
    vs: Seq<(Segment, Segment)>,
    hs: Seq<(Segment, Segment)>,
) -> bool {
    exists|i: int, j: int|
        0 <= i < vs.len() && 0 <= j < hs.len() && #[trigger] enclosed(b, vs[i], hs[j])
}

proof fn lemma_refined_nearby(p: Picture, orientation: Orientation, rough: i32, range: (i32, i32))
    ensures
        ({
            let r = refined(p, orientation, rough as int, range);
            &&& i32::MIN <= r <= i32::MAX
            &&& r == rough || 0 < r
            &&& edges::distance(r, rough as int) <= REFINE_MARGIN
        }),
{
    lemma_best(p, orientation, rough as int, range, (2 * REFINE_MARGIN + 1) as nat);
}

proof fn lemma_box_enclosed(p: Picture, v: (Segment, Segment), h: (Segment, Segment))
    requires
        measurable(v),
    ensures
        box_of(p, v, h) matches Some(b) ==> enclosed(b, v, h),
{
    let (x0, x1) = (v.0.fixed, v.1.fixed);
    let y0 = boxes::max(v.0.start as int, v.1.start as int) as i32;
    let y1 = boxes::min(v.0.end as int, v.1.end as int) as i32;
    lemma_refined_nearby(p, Orientation::Vertical, x0, (y0, y1));
    lemma_refined_nearby(p, Orientation::Vertical, x1, (y0, y1));
    let rx0 = refined(p, Orientation::Vertical, x0 as int, (y0, y1)) as i32;
    let rx1 = refined(p, Orientation::Vertical, x1 as int, (y0, y1)) as i32;
    lemma_refined_nearby(p, Orientation::Horizontal, y0, (rx0, rx1));
    lemma_refined_nearby(p, Orientation::Horizontal, y1, (rx0, rx1));
}

proof fn lemma_boxes_enclosed(
    p: Picture,
    v: (Segment, Segment),
    hs: Seq<(Segment, Segment)>,
    n: nat,
    k: int,
) -> (j: int)
    requires
        measurable(v),
        n <= hs.len(),
        0 <= k < boxes_of(p, v, hs, n).len(),
    ensures
        0 <= j < n,
        enclosed(boxes_of(p, v, hs, n)[k], v, hs[j]),
    decreases n,
{
    if n == 0 {
        0
    } else {
        let before = boxes_of(p, v, hs, (n - 1) as nat);
        lemma_box_enclosed(p, v, hs[n - 1]);
        if k < before.len() {
            lemma_boxes_enclosed(p, v, hs, (n - 1) as nat, k)
        } else {
            n - 1
        }
    }
}

/// A box comes from four sides that fit together, and refining moves none of them far. Without pairs
/// in either direction there is none.
pub proof fn boxes_have_four_sides(
    p: Picture,
    vs: Seq<(Segment, Segment)>,
    hs: Seq<(Segment, Segment)>,
    n: nat,
)
    requires
        n <= vs.len(),
        all_measurable(vs),
    ensures
        forall|k: int|
            0 <= k < all_boxes(p, vs, hs, n).len() ==> enclosed_by_some(
                #[trigger] all_boxes(p, vs, hs, n)[k],
                vs,
                hs,
            ),
        vs.len() == 0 || hs.len() == 0 ==> all_boxes(p, vs, hs, n).len() == 0,
    decreases n,
{
    if n > 0 {
        boxes_have_four_sides(p, vs, hs, (n - 1) as nat);
        let before = all_boxes(p, vs, hs, (n - 1) as nat);
        let here = boxes_of(p, vs[n - 1], hs, hs.len());
        let all = all_boxes(p, vs, hs, n);
        assert(measurable(vs[n - 1]));
        assert forall|k: int| 0 <= k < all.len() implies enclosed_by_some(
            #[trigger] all[k],
            vs,
            hs,
        ) by {
            if k < before.len() {
                assert(all[k] == before[k]);
            } else {
                let j = lemma_boxes_enclosed(p, vs[n - 1], hs, hs.len(), k - before.len());
                assert(all[k] == here[k - before.len()]);
                assert(enclosed(all[k], vs[n - 1], hs[j]));
            }
        }
    }
}

/// `s` without the items that equal the one before them.
pub open spec fn without_repeats(s: Seq<Region>) -> Seq<Region>
    decreases s.len(),
{
    if s.len() == 0 {
        Seq::empty()
    } else {
        let before = without_repeats(s.drop_last());
        if before.len() > 0 && before.last() == s.last() {
            before
        } else {
            before.push(s.last())
        }
    }
}

/// Drops the items that equal the one before them.
fn drop_repeats(s: &Vec<Region>) -> (kept: Vec<Region>)
    ensures
        kept@ == without_repeats(s@),
{
    let mut kept: Vec<Region> = Vec::new();
    let mut i: usize = 0;
    while i < s.len()
        invariant
            i <= s@.len(),
            kept@ == without_repeats(s@.take(i as int)),
        decreases s.len() - i,
    {
        proof {
            assert(s@.take(i + 1).drop_last() =~= s@.take(i as int));
        }
        let b: Region = s[i];
        let n: usize = kept.len();
        let repeated: bool = n > 0 && kept[n - 1].0 == b.0 && kept[n - 1].1 == b.1 && kept[n - 1].2
            == b.2 && kept[n - 1].3 == b.3;
        if !repeated {
            kept.push(b);
        }
        i = i + 1;
    }
    assert(s@.take(i as int) =~= s@);
    kept
}

/// The boxes that growth finds in a window of the size of a panel, before they are sorted.
pub open spec fn grown_boxes(p: Picture, window: Region) -> Seq<Region> {
    let m = merged(grown_all(p, seeds(window), window, seeds(window).len()));
    let vs = matched_pairs(m, Orientation::Vertical);
    let hs = matched_pairs(m, Orientation::Horizontal);
    all_boxes(p, vs, hs, vs.len())
}

/// The boxes that growth finds in a window, by left, top, width and height, each of them once.
pub open spec fn regions_by_growth(p: Picture, window: Region) -> Seq<Region> {
    if window.2 < MIN_PANEL_SIZE || window.3 < MIN_PANEL_SIZE {
        Seq::empty()
    } else {
        without_repeats(sorting::stable_sorted::<Region, ByCorner>(grown_boxes(p, window)))
    }
}

/// Finds boxes in a window by growing outward from a field of seeds, in place of a scan of every row
/// and column.
pub fn detect_regions_by_growth(
    gray: &[u8],
    img_w: u32,
    img_h: u32,
    window: Region,
) -> (found: Vec<Region>)
    requires
        edges::picture(gray@, img_w, img_h).complete(),
        framed(window),
    ensures
        found@ == regions_by_growth(edges::picture(gray@, img_w, img_h), window),
{
    let (_, _, ww, wh) = window;
    if ww < MIN_PANEL_SIZE || wh < MIN_PANEL_SIZE {
        return Vec::new();
    }
    let segments: Vec<Segment> = grow_segments(gray, img_w, img_h, window);
    proof {
        merging_covers_every_segment(segments@);
    }
    let merged_segments: Vec<Segment> = merge_segments(segments);
    let v_pairs: Vec<(Segment, Segment)> = length_matched_pairs(
        merged_segments.as_slice(),
        Orientation::Vertical,
    );
    let h_pairs: Vec<(Segment, Segment)> = length_matched_pairs(
        merged_segments.as_slice(),
        Orientation::Horizontal,
    );
    proof {
        let m = merged_segments@;
        pairs_are_opposite_sides(m, Orientation::Vertical);
        assert forall|i: int| 0 <= i < v_pairs@.len() implies measurable(
            #[trigger] v_pairs@[i],
        ) by {
            assert(opposite(v_pairs@[i], Orientation::Vertical));
            let a = choose|a: int| 0 <= a < m.len() && m[a] == v_pairs@[i].0;
            let b = choose|b: int| 0 <= b < m.len() && m[b] == v_pairs@[i].1;
            assert(on_picture(m[a]) && on_picture(m[b]));
        }
    }
    let mut found: Vec<Region> = boxes_from_pairs(
        gray,
        img_w,
        img_h,
        v_pairs.as_slice(),
        h_pairs.as_slice(),
    );
    sorting::stable_sort::<Region, ByCorner>(&mut found);
    drop_repeats(&found)
}

proof fn lemma_grown(p: Picture, s: (i32, i32), dir: RayDirection, window: Region)
    requires
        framed(window),
    ensures
        all_on_picture(grown(p, s, dir, window)),
{
    a_ray_hits_the_nearest_edge(p, s, dir, reach(s, dir, window));
    if let Some((hx, hy, orientation)) = ray_hit(p, s, dir, window) {
        a_trace_passes_through_the_hit(p, (hx, hy), orientation, window);
    }
}

proof fn lemma_grown_all(p: Picture, seeds: Seq<(i32, i32)>, window: Region, n: nat)
    requires
        framed(window),
    ensures
        all_on_picture(grown_all(p, seeds, window, n)),
    decreases n,
{
    if n > 0 {
        lemma_grown_all(p, seeds, window, (n - 1) as nat);
        let s = seeds[n - 1];
        lemma_grown(p, s, RayDirection::Left, window);
        lemma_grown(p, s, RayDirection::Right, window);
        lemma_grown(p, s, RayDirection::Up, window);
        lemma_grown(p, s, RayDirection::Down, window);
        let before = grown_all(p, seeds, window, (n - 1) as nat);
        let left = grown(p, s, RayDirection::Left, window);
        let right = grown(p, s, RayDirection::Right, window);
        let up = grown(p, s, RayDirection::Up, window);
        let down = grown(p, s, RayDirection::Down, window);
        lemma_on_picture_concat(left, right);
        lemma_on_picture_concat(left + right, up);
        lemma_on_picture_concat(left + right + up, down);
        lemma_on_picture_concat(before, grown_from(p, s, window));
    }
}

proof fn lemma_on_picture_concat(a: Seq<Segment>, b: Seq<Segment>)
    requires
        all_on_picture(a),
        all_on_picture(b),
    ensures
        all_on_picture(a + b),
{
    assert forall|i: int| 0 <= i < (a + b).len() implies on_picture(#[trigger] (a + b)[i]) by {
        if i < a.len() {
            assert((a + b)[i] == a[i]);
        } else {
            assert((a + b)[i] == b[i - a.len()]);
        }
    }
}

proof fn lemma_box_extends(p: Picture, v: (Segment, Segment), h: (Segment, Segment))
    requires
        on_picture(v.0),
        on_picture(v.1),
    ensures
        box_of(p, v, h) matches Some(b) ==> extends(b),
{
    let y0 = boxes::max(v.0.start as int, v.1.start as int);
    let y1 = boxes::min(v.0.end as int, v.1.end as int);
    let n = (2 * REFINE_MARGIN + 1) as nat;
    let range = (y0 as i32, y1 as i32);
    lemma_best(p, Orientation::Vertical, v.0.fixed as int, range, n);
    lemma_best(p, Orientation::Vertical, v.1.fixed as int, range, n);
    let rx0 = refined(p, Orientation::Vertical, v.0.fixed as int, range);
    let rx1 = refined(p, Orientation::Vertical, v.1.fixed as int, range);
    lemma_best(p, Orientation::Horizontal, y0, (rx0 as i32, rx1 as i32), n);
    lemma_best(p, Orientation::Horizontal, y1, (rx0 as i32, rx1 as i32), n);
}

/// Whether a box lies on a picture and is not empty.
pub open spec fn extends(b: Region) -> bool {
    b.0 >= 0 && b.1 >= 0 && b.2 > 0 && b.3 > 0
}

proof fn lemma_boxes_extend(
    p: Picture,
    v: (Segment, Segment),
    hs: Seq<(Segment, Segment)>,
    n: nat,
)
    requires
        on_picture(v.0),
        on_picture(v.1),
    ensures
        forall|i: int| 0 <= i < boxes_of(p, v, hs, n).len() ==> extends(
            #[trigger] boxes_of(p, v, hs, n)[i],
        ),
    decreases n,
{
    if n > 0 {
        lemma_boxes_extend(p, v, hs, (n - 1) as nat);
        lemma_box_extends(p, v, hs[n - 1]);
        let before = boxes_of(p, v, hs, (n - 1) as nat);
        let all = boxes_of(p, v, hs, n);
        assert forall|i: int| 0 <= i < all.len() implies extends(#[trigger] all[i]) by {
            if i < before.len() {
                assert(all[i] == before[i]);
            }
        }
    }
}

proof fn lemma_all_extend(
    p: Picture,
    vs: Seq<(Segment, Segment)>,
    hs: Seq<(Segment, Segment)>,
    n: nat,
)
    requires
        n <= vs.len(),
        pairs_on_picture(vs),
    ensures
        forall|i: int| 0 <= i < all_boxes(p, vs, hs, n).len() ==> extends(
            #[trigger] all_boxes(p, vs, hs, n)[i],
        ),
    decreases n,
{
    if n > 0 {
        lemma_all_extend(p, vs, hs, (n - 1) as nat);
        assert(on_picture(vs[n - 1].0));
        lemma_boxes_extend(p, vs[n - 1], hs, hs.len());
        let before = all_boxes(p, vs, hs, (n - 1) as nat);
        let here = boxes_of(p, vs[n - 1], hs, hs.len());
        let all = all_boxes(p, vs, hs, n);
        assert forall|i: int| 0 <= i < all.len() implies extends(#[trigger] all[i]) by {
            if i < before.len() {
                assert(all[i] == before[i]);
            } else {
                assert(all[i] == here[i - before.len()]);
            }
        }
    }
}

/// The items come in strictly ascending order.
pub open spec fn strictly_ascending(s: Seq<Region>) -> bool {
    forall|i: int, j: int|
        0 <= i < j < s.len() ==> ByCorner::key(#[trigger] s[i]) < ByCorner::key(#[trigger] s[j])
}

#[verifier::spinoff_prover]
proof fn lemma_without_repeats(s: Seq<Region>)
    requires
        sorting::ascending::<Region, ByCorner>(s),
    ensures
        strictly_ascending(without_repeats(s)),
        s.len() > 0 ==> without_repeats(s).len() > 0 && without_repeats(s).last() == s.last(),
        forall|b: Region| #[trigger] without_repeats(s).contains(b) <==> s.contains(b),
    decreases s.len(),
{
    if s.len() > 0 {
        let front = s.drop_last();
        let kept = without_repeats(front);
        let all = without_repeats(s);
        lemma_without_repeats(front);
        if front.len() > 0 {
            assert(ByCorner::key(s[front.len() - 1]) <= ByCorner::key(s[s.len() - 1]));
        }
        if all.len() > kept.len() {
            assert forall|i: int, j: int| 0 <= i < j < all.len() implies ByCorner::key(
                #[trigger] all[i],
            ) < ByCorner::key(#[trigger] all[j]) by {
                if j == kept.len() {
                    assert(ByCorner::key(kept[kept.len() - 1]) < ByCorner::key(s.last()));
                    if i < kept.len() - 1 {
                        assert(ByCorner::key(kept[i]) < ByCorner::key(kept[kept.len() - 1]));
                    }
                } else {
                    assert(all[i] == kept[i] && all[j] == kept[j]);
                }
            }
        }
        assert(all.last() == s.last());
        assert forall|b: Region| #[trigger] all.contains(b) implies s.contains(b) by {
            let i = choose|i: int| 0 <= i < all.len() && all[i] == b;
            if i < kept.len() {
                assert(kept[i] == b);
                assert(kept.contains(b));
                let k = choose|k: int| 0 <= k < front.len() && front[k] == b;
                assert(s[k] == b);
            } else {
                assert(s[s.len() - 1] == b);
            }
        }
        assert forall|b: Region| #[trigger] s.contains(b) implies all.contains(b) by {
            let k = choose|k: int| 0 <= k < s.len() && s[k] == b;
            if k < front.len() {
                assert(front[k] == b);
                assert(kept.contains(b));
                let i = choose|i: int| 0 <= i < kept.len() && kept[i] == b;
                assert(all[i] == b);
            } else {
                assert(all[all.len() - 1] == b);
            }
        }
        assert forall|b: Region| #[trigger] all.contains(b) <==> s.contains(b) by {}
    } else {
        assert(without_repeats(s) =~= s);
    }
}

/// The boxes that growth reports are those that four sides make, in ascending order and without
/// repetition, and none of them is empty.
pub proof fn grown_regions_are_distinct_boxes(p: Picture, window: Region)
    requires
        framed(window),
        window.2 >= MIN_PANEL_SIZE,
        window.3 >= MIN_PANEL_SIZE,
    ensures
        strictly_ascending(regions_by_growth(p, window)),
        forall|b: Region|
            #[trigger] regions_by_growth(p, window).contains(b) <==> grown_boxes(
                p,
                window,
            ).contains(b),
        forall|i: int|
            0 <= i < regions_by_growth(p, window).len() ==> extends(
                #[trigger] regions_by_growth(p, window)[i],
            ),
{
    let found = grown_boxes(p, window);
    let sorted = sorting::stable_sorted::<Region, ByCorner>(found);
    let kept = regions_by_growth(p, window);
    sorting::sorting_orders_and_permutes::<Region, ByCorner>(found);
    lemma_without_repeats(sorted);
    assert forall|b: Region| #[trigger] kept.contains(b) <==> found.contains(b) by {
        found.to_multiset_ensures();
        sorted.to_multiset_ensures();
        assert(sorted.to_multiset().count(b) == found.to_multiset().count(b));
    }
    let g = grown_all(p, seeds(window), window, seeds(window).len());
    let m = merged(g);
    let vs = matched_pairs(m, Orientation::Vertical);
    lemma_grown_all(p, seeds(window), window, seeds(window).len());
    merging_covers_every_segment(g);
    pairs_are_opposite_sides(m, Orientation::Vertical);
    assert forall|i: int| 0 <= i < vs.len() implies on_picture((#[trigger] vs[i]).0) && on_picture(
        vs[i].1,
    ) by {
        assert(opposite(vs[i], Orientation::Vertical));
        let a = choose|a: int| 0 <= a < m.len() && m[a] == vs[i].0;
        let b = choose|b: int| 0 <= b < m.len() && m[b] == vs[i].1;
        assert(on_picture(m[a]) && on_picture(m[b]));
    }
    lemma_all_extend(p, vs, matched_pairs(m, Orientation::Horizontal), vs.len());
    assert forall|i: int| 0 <= i < kept.len() implies extends(#[trigger] kept[i]) by {
        assert(kept.contains(kept[i]));
        let k = choose|k: int| 0 <= k < found.len() && found[k] == kept[i];
        assert(extends(found[k]));
    }
}

} // verus!
