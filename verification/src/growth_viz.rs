//! An animation of how boxes are grown from seeds: the seeds and their rays, the lines that are
//! found, the lines after merging, those of matching lengths, and the boxes.

use vstd::prelude::*;

use crate::canvas::{self, Canvas, Frame, FrameView, Pixels, Rgba, MAX_COORDINATE};
use crate::vision::dividers::Region;
use crate::vision::edges::{self, Orientation, Picture};
use crate::vision::growth::{self, RayDirection, Segment, REFINE_MARGIN};
use crate::vision::growth_bounds;

verus! {

/// The seeds are shown in this many frames, however many there are; in fewer only if there are fewer
/// seeds.
pub const SEED_REVEAL_FRAMES: usize = 14;

/// How often a frame is repeated once the seeds are through, and the last one.
pub const HOLD_FRAME_COUNT: usize = 5;

pub const FINAL_HOLD_FRAME_COUNT: usize = 10;

/// How long a frame is shown while seeds come in, and after that.
pub const REVEAL_DELAY_MS: u64 = 90;

pub const HOLD_DELAY_MS: u64 = 140;

pub const HISTORICAL_SEED: Rgba = (60, 60, 160, 255);

pub const ACTIVE_SEED: Rgba = (255, 220, 0, 255);

pub const RAY: Rgba = (255, 140, 0, 255);

pub const HIT: Rgba = (255, 60, 60, 255);

pub const RAW_SEGMENT: Rgba = (60, 220, 90, 255);

pub const MERGED_SEGMENT: Rgba = (0, 220, 220, 255);

pub const SURVIVING_SEGMENT: Rgba = (255, 60, 220, 255);

pub const DISCARDED_SEGMENT: Rgba = (90, 90, 90, 255);

pub const FINAL_BOX: Rgba = (255, 255, 0, 255);

pub const BLANK: Rgba = (0, 0, 0, 0);

/// A point of the screen in a window.
pub open spec fn local(at: (int, int), window: Region) -> (int, int) {
    (at.0 - window.0, at.1 - window.1)
}

/// Whether a window has a size that can be drawn on, with what is drawn about its border.
pub open spec fn drawable(window: Region) -> bool {
    &&& 0 <= window.0 && 0 <= window.1
    &&& 0 <= window.2 < MAX_COORDINATE - 2 * REFINE_MARGIN
    &&& 0 <= window.3 < MAX_COORDINATE - 2 * REFINE_MARGIN
    &&& window.0 + window.2 <= i32::MAX
    &&& window.1 + window.3 <= i32::MAX
}

fn to_local(at: (i32, i32), window: Region) -> (r: (i32, i32))
    requires
        drawable(window),
        -MAX_COORDINATE <= at.0 - window.0 <= MAX_COORDINATE,
        -MAX_COORDINATE <= at.1 - window.1 <= MAX_COORDINATE,
    ensures
        (r.0 as int, r.1 as int) == local((at.0 as int, at.1 as int), window),
{
    (at.0 - window.0, at.1 - window.1)
}

/// A picture of a window with one of the lines that make up a segment, `t` beside it.
pub open spec fn with_line(p: Pixels, s: Segment, c: Rgba, window: Region, t: int) -> Pixels {
    match s.orientation {
        Orientation::Vertical => canvas::lined(
            p,
            local((s.fixed + t, s.start as int), window),
            local((s.fixed + t, s.end as int), window),
            c,
        ),
        Orientation::Horizontal => canvas::lined(
            p,
            local((s.start as int, s.fixed + t), window),
            local((s.end as int, s.fixed + t), window),
            c,
        ),
    }
}

/// A picture of a window with the first `n` lines of a segment, from `-reach` beside it on.
pub open spec fn with_lines(
    p: Pixels,
    s: Segment,
    c: Rgba,
    window: Region,
    reach: int,
    n: nat,
) -> Pixels
    decreases n,
{
    if n == 0 {
        p
    } else {
        with_line(with_lines(p, s, c, window, reach, (n - 1) as nat), s, c, window, n - 1 - reach)
    }
}

/// A picture of a window with a segment.
pub open spec fn with_segment(p: Pixels, s: Segment, c: Rgba, window: Region, thickness: int) -> Pixels {
    with_lines(p, s, c, window, thickness / 2, (2 * (thickness / 2) + 1) as nat)
}

fn draw_segment(canvas: &mut Canvas, s: &Segment, c: Rgba, window: Region, thickness: i32)
    requires
        drawable(window),
        1 <= thickness <= 2,
        growth_bounds::within(*s, window),
        canvas::sized(canvas::pixels(*old(canvas)), window.2 as int, window.3 as int),
    ensures
        canvas::pixels(*final(canvas)) == with_segment(
            canvas::pixels(*old(canvas)),
            *s,
            c,
            window,
            thickness as int,
        ),
        canvas::sized(canvas::pixels(*final(canvas)), window.2 as int, window.3 as int),
{
    let ghost before = canvas::pixels(*canvas);
    let reach: i32 = thickness / 2;
    let mut t: i32 = -reach;
    while t <= reach
        invariant
            drawable(window),
            0 <= reach <= 1,
            growth_bounds::within(*s, window),
            canvas::sized(canvas::pixels(*canvas), window.2 as int, window.3 as int),
            -reach <= t <= reach + 1,
            canvas::pixels(*canvas) == with_lines(
                before,
                *s,
                c,
                window,
                reach as int,
                (t + reach) as nat,
            ),
        decreases reach + 1 - t,
    {
        let fixed: i32 = match s.orientation {
            Orientation::Vertical => s.fixed - window.0 + t,
            Orientation::Horizontal => s.fixed - window.1 + t,
        };
        let (from, to): ((i32, i32), (i32, i32)) = match s.orientation {
            Orientation::Vertical => ((fixed, s.start - window.1), (fixed, s.end - window.1)),
            Orientation::Horizontal => ((s.start - window.0, fixed), (s.end - window.0, fixed)),
        };
        canvas.line(from, to, c);
        t = t + 1;
    }
}

/// A picture of a window with a dot: a square about the point, moved so as not to begin outside.
pub open spec fn with_dot(p: Pixels, at: (int, int), window: Region, c: Rgba, size: int) -> Pixels {
    let (x, y) = local(at, window);
    if 0 <= x < window.2 && 0 <= y < window.3 {
        canvas::filled(p, from_zero(x - size / 2), from_zero(y - size / 2), size, size, c)
    } else {
        p
    }
}

/// A coordinate, but not below zero.
pub open spec fn from_zero(v: int) -> int {
    if v < 0 {
        0
    } else {
        v
    }
}

fn draw_dot(canvas: &mut Canvas, at: (i32, i32), window: Region, c: Rgba, size: i32)
    requires
        drawable(window),
        1 <= size <= 4,
        canvas::sized(canvas::pixels(*old(canvas)), window.2 as int, window.3 as int),
    ensures
        canvas::pixels(*final(canvas)) == with_dot(
            canvas::pixels(*old(canvas)),
            (at.0 as int, at.1 as int),
            window,
            c,
            size as int,
        ),
        canvas::sized(canvas::pixels(*final(canvas)), window.2 as int, window.3 as int),
{
    let (wx, wy, ww, wh): (i32, i32, i32, i32) = window;
    if at.0 < wx || at.1 < wy || at.0 >= wx + ww || at.1 >= wy + wh {
        return;
    }
    let (x, y): (i32, i32) = to_local(at, window);
    let (left, top): (i32, i32) = (x - size / 2, y - size / 2);
    canvas.fill(
        if left < 0 {
            0
        } else {
            left
        },
        if top < 0 {
            0
        } else {
            top
        },
        size as u32,
        size as u32,
        c,
    );
}

/// A picture of a window with the first `n` segments of some.
pub open spec fn with_segments(
    p: Pixels,
    s: Seq<Segment>,
    colors: spec_fn(Segment) -> Rgba,
    window: Region,
    thickness: int,
    n: nat,
) -> Pixels
    decreases n,
{
    if n == 0 {
        p
    } else {
        with_segment(
            with_segments(p, s, colors, window, thickness, (n - 1) as nat),
            s[n - 1],
            colors(s[n - 1]),
            window,
            thickness,
        )
    }
}

fn draw_segments(canvas: &mut Canvas, s: &Vec<Segment>, c: Rgba, window: Region, thickness: i32)
    requires
        drawable(window),
        1 <= thickness <= 2,
        growth_bounds::all_within(s@, window),
        canvas::sized(canvas::pixels(*old(canvas)), window.2 as int, window.3 as int),
    ensures
        canvas::pixels(*final(canvas)) == with_segments(
            canvas::pixels(*old(canvas)),
            s@,
            |s: Segment| c,
            window,
            thickness as int,
            s@.len(),
        ),
        canvas::sized(canvas::pixels(*final(canvas)), window.2 as int, window.3 as int),
{
    let ghost before = canvas::pixels(*canvas);
    let ghost colors = |s: Segment| c;
    let mut i: usize = 0;
    while i < s.len()
        invariant
            drawable(window),
            1 <= thickness <= 2,
            growth_bounds::all_within(s@, window),
            canvas::sized(canvas::pixels(*canvas), window.2 as int, window.3 as int),
            i <= s@.len(),
            colors == (|s: Segment| c),
            canvas::pixels(*canvas) == with_segments(
                before,
                s@,
                colors,
                window,
                thickness as int,
                i as nat,
            ),
        decreases s.len() - i,
    {
        assert(growth_bounds::within(s@[i as int], window));
        draw_segment(canvas, &s[i], c, window, thickness);
        i = i + 1;
    }
}

/// A picture of a window with the first `n` seeds as dots.
pub open spec fn with_seeds(p: Pixels, seeds: Seq<(i32, i32)>, window: Region, n: nat) -> Pixels
    decreases n,
{
    if n == 0 {
        p
    } else {
        let s = seeds[n - 1];
        with_dot(
            with_seeds(p, seeds, window, (n - 1) as nat),
            (s.0 as int, s.1 as int),
            window,
            HISTORICAL_SEED,
            2,
        )
    }
}

/// A picture of a window with a ray of a seed, if it hits anything, and what it hits.
pub open spec fn with_ray(
    p: Pixels,
    picture: Picture,
    seed: (i32, i32),
    dir: RayDirection,
    window: Region,
) -> Pixels {
    match growth::ray_hit(picture, seed, dir, window) {
        Some((x, y, _)) => with_dot(
            canvas::lined(
                p,
                local((seed.0 as int, seed.1 as int), window),
                local((x as int, y as int), window),
                RAY,
            ),
            (x as int, y as int),
            window,
            HIT,
            3,
        ),
        None => p,
    }
}

/// A picture of a window with a seed and its four rays.
pub open spec fn with_active(
    p: Pixels,
    picture: Picture,
    seed: (i32, i32),
    window: Region,
) -> Pixels {
    let dotted = with_dot(p, (seed.0 as int, seed.1 as int), window, ACTIVE_SEED, 4);
    let level = with_ray(
        with_ray(dotted, picture, seed, RayDirection::Left, window),
        picture,
        seed,
        RayDirection::Right,
        window,
    );
    with_ray(
        with_ray(level, picture, seed, RayDirection::Up, window),
        picture,
        seed,
        RayDirection::Down,
        window,
    )
}

/// A picture of a window with the seeds from `from` up to `to` and their rays.
pub open spec fn with_batch(
    p: Pixels,
    picture: Picture,
    seeds: Seq<(i32, i32)>,
    window: Region,
    from: int,
    to: int,
) -> Pixels
    decreases to - from,
{
    if to <= from {
        p
    } else {
        with_active(
            with_batch(p, picture, seeds, window, from, to - 1),
            picture,
            seeds[to - 1],
            window,
        )
    }
}

fn draw_seeds(canvas: &mut Canvas, seeds: &Vec<(i32, i32)>, window: Region, n: usize)
    requires
        drawable(window),
        n <= seeds@.len(),
        canvas::sized(canvas::pixels(*old(canvas)), window.2 as int, window.3 as int),
    ensures
        canvas::pixels(*final(canvas)) == with_seeds(
            canvas::pixels(*old(canvas)),
            seeds@,
            window,
            n as nat,
        ),
        canvas::sized(canvas::pixels(*final(canvas)), window.2 as int, window.3 as int),
{
    let ghost before = canvas::pixels(*canvas);
    let mut i: usize = 0;
    while i < n
        invariant
            drawable(window),
            i <= n <= seeds@.len(),
            canvas::sized(canvas::pixels(*canvas), window.2 as int, window.3 as int),
            canvas::pixels(*canvas) == with_seeds(before, seeds@, window, i as nat),
        decreases n - i,
    {
        let seed: (i32, i32) = seeds[i];
        draw_dot(canvas, seed, window, HISTORICAL_SEED, 2);
        i = i + 1;
    }
}

fn draw_ray(
    canvas: &mut Canvas,
    gray: &[u8],
    img_w: u32,
    img_h: u32,
    seed: (i32, i32),
    dir: RayDirection,
    window: Region,
    found: &mut Vec<Segment>,
)
    requires
        edges::picture(gray@, img_w, img_h).complete(),
        drawable(window),
        growth::in_window(seed, window),
        canvas::sized(canvas::pixels(*old(canvas)), window.2 as int, window.3 as int),
    ensures
        canvas::pixels(*final(canvas)) == with_ray(
            canvas::pixels(*old(canvas)),
            edges::picture(gray@, img_w, img_h),
            seed,
            dir,
            window,
        ),
        canvas::sized(canvas::pixels(*final(canvas)), window.2 as int, window.3 as int),
        final(found)@ == old(found)@ + growth::grown(
            edges::picture(gray@, img_w, img_h),
            seed,
            dir,
            window,
        ),
{
    let ghost p = edges::picture(gray@, img_w, img_h);
    let ghost before = found@;
    if let Some((x, y, orientation)) = growth::ray_cast(gray, img_w, img_h, seed, dir, window) {
        proof {
            growth_bounds::hits_lie_in_the_window(p, seed, dir, window);
        }
        canvas.line(to_local(seed, window), to_local((x, y), window), RAY);
        draw_dot(canvas, (x, y), window, HIT, 3);
        found.push(growth::trace_edge(gray, img_w, img_h, (x, y), orientation, window));
    }
    assert(found@ =~= before + growth::grown(p, seed, dir, window));
}

fn draw_active(
    canvas: &mut Canvas,
    gray: &[u8],
    img_w: u32,
    img_h: u32,
    seed: (i32, i32),
    window: Region,
    found: &mut Vec<Segment>,
)
    requires
        edges::picture(gray@, img_w, img_h).complete(),
        drawable(window),
        growth::in_window(seed, window),
        canvas::sized(canvas::pixels(*old(canvas)), window.2 as int, window.3 as int),
    ensures
        canvas::pixels(*final(canvas)) == with_active(
            canvas::pixels(*old(canvas)),
            edges::picture(gray@, img_w, img_h),
            seed,
            window,
        ),
        canvas::sized(canvas::pixels(*final(canvas)), window.2 as int, window.3 as int),
        final(found)@ == old(found)@ + growth::grown_from(
            edges::picture(gray@, img_w, img_h),
            seed,
            window,
        ),
{
    let ghost p = edges::picture(gray@, img_w, img_h);
    let ghost before = found@;
    draw_dot(canvas, seed, window, ACTIVE_SEED, 4);
    draw_ray(canvas, gray, img_w, img_h, seed, RayDirection::Left, window, found);
    draw_ray(canvas, gray, img_w, img_h, seed, RayDirection::Right, window, found);
    draw_ray(canvas, gray, img_w, img_h, seed, RayDirection::Up, window, found);
    draw_ray(canvas, gray, img_w, img_h, seed, RayDirection::Down, window, found);
    assert(found@ =~= before + growth::grown_from(p, seed, window));
}

/// A window of a picture that boxes are grown in.
pub struct Growth {
    pub picture: Picture,
    pub window: Region,
}

/// Whether a segment is one of some pairs.
pub open spec fn is_paired(s: Segment, pairs: Seq<(Segment, Segment)>) -> bool {
    exists|i: int| 0 <= i < pairs.len() && ((#[trigger] pairs[i]).0 == s || pairs[i].1 == s)
}

/// A picture of a window with a box: its outline, and a second one inside, if there is room, since a
/// thin one is easily missed.
pub open spec fn with_box(p: Pixels, b: Region, window: Region) -> Pixels {
    let (x, y) = local((b.0 as int, b.1 as int), window);
    let outer = canvas::framed(p, x, y, b.2 as int, b.3 as int, FINAL_BOX);
    if b.2 > 4 && b.3 > 4 {
        canvas::framed(outer, x + 1, y + 1, b.2 - 2, b.3 - 2, FINAL_BOX)
    } else {
        outer
    }
}

/// A picture of a window with the first `n` of some boxes.
pub open spec fn with_boxes(p: Pixels, found: Seq<Region>, window: Region, n: nat) -> Pixels
    decreases n,
{
    if n == 0 {
        p
    } else {
        with_box(with_boxes(p, found, window, (n - 1) as nat), found[n - 1], window)
    }
}

/// In how many frames `n` seeds are shown.
pub open spec fn reveal_frames(n: int) -> int {
    canvas::batches(n, SEED_REVEAL_FRAMES as int)
}

/// The first of the seeds in the `k`th of these frames.
pub open spec fn reveal_start(k: int, n: int) -> int {
    canvas::batch_start(k, n, SEED_REVEAL_FRAMES as int)
}

impl Growth {
    /// Whether the growth can be shown: its window lies over gray values, and has a size that can be
    /// drawn on and held in memory.
    pub open spec fn showable(self) -> bool {
        &&& self.picture.complete()
        &&& canvas::readable(self.picture.gray.len(), self.picture.width, self.window)
        &&& drawable(self.window)
        &&& 4 * self.window.2 * self.window.3 <= isize::MAX
    }

    /// The window in gray.
    pub open spec fn base(self) -> Pixels {
        canvas::cropped(self.picture.gray, self.picture.width, self.window, 0, BLANK)
    }

    /// The seeds.
    pub open spec fn seeds(self) -> Seq<(i32, i32)> {
        growth::seeds(self.window)
    }

    /// The lines that the first `n` seeds find.
    pub open spec fn raw(self, n: nat) -> Seq<Segment> {
        growth::grown_all(self.picture, self.seeds(), self.window, n)
    }

    /// The lines that all seeds find, after merging.
    pub open spec fn merged(self) -> Seq<Segment> {
        growth::merged(self.raw(self.seeds().len()))
    }

    /// The pairs of merged lines of matching lengths.
    pub open spec fn pairs(self, orientation: Orientation) -> Seq<(Segment, Segment)> {
        growth::matched_pairs(self.merged(), orientation)
    }

    /// The boxes.
    pub open spec fn boxes(self) -> Seq<Region> {
        let vs = self.pairs(Orientation::Vertical);
        growth::all_boxes(self.picture, vs, self.pairs(Orientation::Horizontal), vs.len())
    }

    /// The frame of some seeds: the seeds before them and the lines those have found, and their own
    /// rays.
    pub open spec fn seed_frame(self, from: int, to: int) -> FrameView {
        let raw = self.raw(from as nat);
        let past = with_segments(
            with_seeds(self.base(), self.seeds(), self.window, from as nat),
            raw,
            |s: Segment| RAW_SEGMENT,
            self.window,
            1,
            raw.len(),
        );
        FrameView {
            pixels: with_batch(past, self.picture, self.seeds(), self.window, from, to),
            delay_ms: REVEAL_DELAY_MS,
        }
    }

    /// The frames of the seeds, from the `k`th on.
    pub open spec fn seed_frames(self, k: int) -> Seq<FrameView>
        decreases reveal_frames(self.seeds().len() as int) - k,
    {
        let n = self.seeds().len() as int;
        if k >= reveal_frames(n) {
            Seq::empty()
        } else {
            seq![self.seed_frame(reveal_start(k, n), reveal_start(k + 1, n))] + self.seed_frames(
                k + 1,
            )
        }
    }

    /// All lines that were found.
    pub open spec fn raw_picture(self) -> Pixels {
        let raw = self.raw(self.seeds().len());
        with_segments(self.base(), raw, |s: Segment| RAW_SEGMENT, self.window, 1, raw.len())
    }

    /// All merged lines.
    pub open spec fn merged_picture(self) -> Pixels {
        let merged = self.merged();
        with_segments(
            self.base(),
            merged,
            |s: Segment| MERGED_SEGMENT,
            self.window,
            2,
            merged.len(),
        )
    }

    /// The color of a line by whether another one has its length.
    pub open spec fn pair_color(self, s: Segment) -> Rgba {
        if is_paired(s, self.pairs(Orientation::Vertical)) || is_paired(
            s,
            self.pairs(Orientation::Horizontal),
        ) {
            SURVIVING_SEGMENT
        } else {
            DISCARDED_SEGMENT
        }
    }

    /// All merged lines, those without a partner dimmed.
    pub open spec fn pairs_picture(self) -> Pixels {
        let merged = self.merged();
        with_segments(
            self.base(),
            merged,
            |s: Segment| self.pair_color(s),
            self.window,
            2,
            merged.len(),
        )
    }

    /// The boxes.
    pub open spec fn box_picture(self) -> Pixels {
        with_boxes(self.base(), self.boxes(), self.window, self.boxes().len())
    }

    /// The frames of the animation.
    pub open spec fn frames(self) -> Seq<FrameView> {
        self.seed_frames(0) + canvas::held(
            self.raw_picture(),
            HOLD_DELAY_MS,
            HOLD_FRAME_COUNT as nat,
        ) + canvas::held(self.merged_picture(), HOLD_DELAY_MS, HOLD_FRAME_COUNT as nat)
            + canvas::held(self.pairs_picture(), HOLD_DELAY_MS, HOLD_FRAME_COUNT as nat)
            + canvas::held(self.box_picture(), HOLD_DELAY_MS, FINAL_HOLD_FRAME_COUNT as nat)
    }
}

/// Whether a growth can be shown.
pub fn is_showable(gray: &[u8], img_w: u32, img_h: u32, window: Region) -> (r: bool)
    ensures
        r == (Growth { picture: edges::picture(gray@, img_w, img_h), window }).showable(),
{
    let (_, _, ww, wh): (i32, i32, i32, i32) = window;
    if !edges::is_complete(gray, img_w, img_h) || !canvas::is_readable(gray.len(), img_w, window) {
        return false;
    }
    let limit: i32 = MAX_COORDINATE - 2 * REFINE_MARGIN;
    if ww >= limit || wh >= limit {
        return false;
    }
    canvas::fits(ww as u32, wh as u32)
}

fn draw_batch(
    canvas: &mut Canvas,
    gray: &[u8],
    img_w: u32,
    img_h: u32,
    window: Region,
    seeds: &Vec<(i32, i32)>,
    from: usize,
    to: usize,
    found: &mut Vec<Segment>,
)
    requires
        edges::picture(gray@, img_w, img_h).complete(),
        drawable(window),
        from <= to <= seeds@.len(),
        forall|i: int| 0 <= i < seeds@.len() ==> growth::in_window(#[trigger] seeds@[i], window),
        canvas::sized(canvas::pixels(*old(canvas)), window.2 as int, window.3 as int),
        old(found)@ == growth::grown_all(
            edges::picture(gray@, img_w, img_h),
            seeds@,
            window,
            from as nat,
        ),
    ensures
        canvas::pixels(*final(canvas)) == with_batch(
            canvas::pixels(*old(canvas)),
            edges::picture(gray@, img_w, img_h),
            seeds@,
            window,
            from as int,
            to as int,
        ),
        final(found)@ == growth::grown_all(
            edges::picture(gray@, img_w, img_h),
            seeds@,
            window,
            to as nat,
        ),
{
    let ghost p = edges::picture(gray@, img_w, img_h);
    let ghost before = canvas::pixels(*canvas);
    let mut i: usize = from;
    while i < to
        invariant
            p == edges::picture(gray@, img_w, img_h),
            p.complete(),
            drawable(window),
            from <= i <= to <= seeds@.len(),
            forall|i: int|
                0 <= i < seeds@.len() ==> growth::in_window(#[trigger] seeds@[i], window),
            canvas::sized(canvas::pixels(*canvas), window.2 as int, window.3 as int),
            canvas::pixels(*canvas) == with_batch(
                before,
                p,
                seeds@,
                window,
                from as int,
                i as int,
            ),
            found@ == growth::grown_all(p, seeds@, window, i as nat),
        decreases to - i,
    {
        assert(growth::in_window(seeds@[i as int], window));
        let seed: (i32, i32) = seeds[i];
        draw_active(canvas, gray, img_w, img_h, seed, window, found);
        i = i + 1;
    }
}

fn reveal_seeds(
    gray: &[u8],
    img_w: u32,
    img_h: u32,
    window: Region,
    base: &Canvas,
    seeds: &Vec<(i32, i32)>,
    frames: &mut Vec<Frame>,
    Ghost(g): Ghost<Growth>,
) -> (found: Vec<Segment>)
    requires
        g == (Growth { picture: edges::picture(gray@, img_w, img_h), window }),
        g.showable(),
        canvas::pixels(*base) == g.base(),
        seeds@ == g.seeds(),
        forall|i: int| 0 <= i < seeds@.len() ==> growth::in_window(#[trigger] seeds@[i], window),
    ensures
        found@ == g.raw(seeds@.len()),
        canvas::shown(final(frames)@) == canvas::shown(old(frames)@) + g.seed_frames(0),
{
    let ghost goal = canvas::shown(frames@) + g.seed_frames(0);
    let mut found: Vec<Segment> = Vec::new();
    let count: usize = if seeds.len() < SEED_REVEAL_FRAMES {
        seeds.len()
    } else {
        SEED_REVEAL_FRAMES
    };
    let mut at: usize = 0;
    let mut k: usize = 0;
    proof {
        if seeds@.len() > 0 {
            canvas::lemma_batches(0, seeds@.len() as int, SEED_REVEAL_FRAMES as int);
        }
    }
    while k < count
        invariant
            g == (Growth { picture: edges::picture(gray@, img_w, img_h), window }),
            g.showable(),
            canvas::pixels(*base) == g.base(),
            seeds@ == g.seeds(),
            forall|i: int|
                0 <= i < seeds@.len() ==> growth::in_window(#[trigger] seeds@[i], window),
            count == reveal_frames(seeds@.len() as int),
            k <= count,
            count > 0 ==> at == reveal_start(k as int, seeds@.len() as int),
            count == 0 ==> at == 0,
            found@ == g.raw(at as nat),
            canvas::shown(frames@) + g.seed_frames(k as int) == goal,
        decreases count - k,
    {
        let ghost before = canvas::shown(frames@);
        let end: usize = canvas::next_batch(k, seeds.len(), SEED_REVEAL_FRAMES);
        let mut canvas: Canvas = base.duplicate();
        proof {
            growth_bounds::grown_lines_lie_in_the_window(g.picture, seeds@, window, at as nat);
        }
        draw_seeds(&mut canvas, seeds, window, at);
        draw_segments(&mut canvas, &found, RAW_SEGMENT, window, 1);
        draw_batch(&mut canvas, gray, img_w, img_h, window, seeds, at, end, &mut found);
        canvas::push_frame(frames, &canvas, REVEAL_DELAY_MS);
        proof {
            let frame = g.seed_frame(at as int, end as int);
            assert(canvas::shown(frames@) == before.push(frame));
            assert(before.push(frame) + g.seed_frames(k + 1) =~= before + (seq![frame]
                + g.seed_frames(k + 1)));
        }
        at = end;
        k = k + 1;
    }
    proof {
        if seeds@.len() > 0 {
            canvas::lemma_batches(count as int, seeds@.len() as int, SEED_REVEAL_FRAMES as int);
        }
        assert(canvas::shown(frames@) + g.seed_frames(k as int) =~= canvas::shown(frames@));
    }
    found
}

fn pairs_contain(pairs: &Vec<(Segment, Segment)>, s: &Segment) -> (r: bool)
    ensures
        r == is_paired(*s, pairs@),
{
    let mut i: usize = 0;
    while i < pairs.len()
        invariant
            i <= pairs@.len(),
            forall|k: int|
                0 <= k < i ==> (#[trigger] pairs@[k]).0 != *s && pairs@[k].1 != *s,
        decreases pairs.len() - i,
    {
        if segment_eq(&pairs[i].0, s) || segment_eq(&pairs[i].1, s) {
            return true;
        }
        i = i + 1;
    }
    false
}

fn segment_eq(a: &Segment, b: &Segment) -> (r: bool)
    ensures
        r == (*a == *b),
{
    a.orientation == b.orientation && a.fixed == b.fixed && a.start == b.start && a.end == b.end
}

fn draw_paired(
    canvas: &mut Canvas,
    merged: &Vec<Segment>,
    v_pairs: &Vec<(Segment, Segment)>,
    h_pairs: &Vec<(Segment, Segment)>,
    Ghost(g): Ghost<Growth>,
    window: Region,
)
    requires
        g.showable(),
        window == g.window,
        merged@ == g.merged(),
        v_pairs@ == g.pairs(Orientation::Vertical),
        h_pairs@ == g.pairs(Orientation::Horizontal),
        growth_bounds::all_within(merged@, window),
        canvas::pixels(*old(canvas)) == g.base(),
    ensures
        canvas::pixels(*final(canvas)) == g.pairs_picture(),
{
    let ghost colors = |s: Segment| g.pair_color(s);
    let mut i: usize = 0;
    while i < merged.len()
        invariant
            g.showable(),
            window == g.window,
            merged@ == g.merged(),
            v_pairs@ == g.pairs(Orientation::Vertical),
            h_pairs@ == g.pairs(Orientation::Horizontal),
            growth_bounds::all_within(merged@, window),
            canvas::sized(canvas::pixels(*canvas), window.2 as int, window.3 as int),
            i <= merged@.len(),
            colors == (|s: Segment| g.pair_color(s)),
            canvas::pixels(*canvas) == with_segments(
                g.base(),
                merged@,
                colors,
                window,
                2,
                i as nat,
            ),
        decreases merged.len() - i,
    {
        assert(growth_bounds::within(merged@[i as int], window));
        let s: Segment = merged[i];
        let c: Rgba = if pairs_contain(v_pairs, &s) || pairs_contain(h_pairs, &s) {
            SURVIVING_SEGMENT
        } else {
            DISCARDED_SEGMENT
        };
        draw_segment(canvas, &s, c, window, 2);
        i = i + 1;
    }
}

fn draw_boxes(canvas: &mut Canvas, found: &Vec<Region>, window: Region)
    requires
        drawable(window),
        growth_bounds::all_about(found@, window),
        canvas::sized(canvas::pixels(*old(canvas)), window.2 as int, window.3 as int),
    ensures
        canvas::pixels(*final(canvas)) == with_boxes(
            canvas::pixels(*old(canvas)),
            found@,
            window,
            found@.len(),
        ),
{
    let ghost before = canvas::pixels(*canvas);
    let mut i: usize = 0;
    while i < found.len()
        invariant
            drawable(window),
            growth_bounds::all_about(found@, window),
            canvas::sized(canvas::pixels(*canvas), window.2 as int, window.3 as int),
            i <= found@.len(),
            canvas::pixels(*canvas) == with_boxes(before, found@, window, i as nat),
        decreases found.len() - i,
    {
        assert(growth_bounds::about(found@[i as int], window));
        let (bx, by, bw, bh): (i32, i32, i32, i32) = found[i];
        let (x, y): (i32, i32) = to_local((bx, by), window);
        canvas.frame(x, y, bw as u32, bh as u32, FINAL_BOX);
        if bw > 4 && bh > 4 {
            canvas.frame(x + 1, y + 1, (bw - 2) as u32, (bh - 2) as u32, FINAL_BOX);
        }
        i = i + 1;
    }
}

/// An animation, and how much was found in each step.
pub struct Rendering {
    pub frames: Vec<Frame>,
    pub seeds: usize,
    pub raw_segments: usize,
    pub merged_segments: usize,
    pub boxes: usize,
}

/// Shows how boxes are grown in a window as an animation: the seeds and rays, batch by batch, above
/// the lines found so far; all lines; the lines after merging; those with a partner of their length
/// against the others; and the boxes.
pub fn render(gray: &[u8], img_w: u32, img_h: u32, window: Region) -> (r: Rendering)
    requires
        (Growth { picture: edges::picture(gray@, img_w, img_h), window }).showable(),
    ensures
        ({
            let g = Growth { picture: edges::picture(gray@, img_w, img_h), window };
            &&& canvas::shown(r.frames@) == g.frames()
            &&& r.seeds == g.seeds().len()
            &&& r.raw_segments == g.raw(g.seeds().len()).len()
            &&& r.merged_segments == g.merged().len()
            &&& r.boxes == g.boxes().len()
        }),
{
    let ghost g = Growth { picture: edges::picture(gray@, img_w, img_h), window };
    let base: Canvas = canvas::crop(gray, img_w, window, 0, BLANK);
    let mut frames: Vec<Frame> = Vec::new();
    assert(canvas::shown(frames@) =~= Seq::<FrameView>::empty());
    let seeds: Vec<(i32, i32)> = growth::seed_positions(window);
    proof {
        growth::seeds_lie_in_the_window(window);
    }
    let found: Vec<Segment> = reveal_seeds(
        gray,
        img_w,
        img_h,
        window,
        &base,
        &seeds,
        &mut frames,
        Ghost(g),
    );
    proof {
        growth_bounds::grown_lines_lie_in_the_window(
            g.picture,
            seeds@,
            window,
            seeds@.len(),
        );
        growth_bounds::merged_lines_lie_in_the_window(found@, window);
        growth_bounds::pairs_lie_in_the_window(g.merged(), Orientation::Vertical, window);
        growth::pairs_are_opposite_sides(g.merged(), Orientation::Vertical);
        growth_bounds::boxes_lie_about_the_window(
            g.picture,
            g.pairs(Orientation::Vertical),
            g.pairs(Orientation::Horizontal),
            g.pairs(Orientation::Vertical).len(),
            window,
        );
    }
    let mut raw_canvas: Canvas = base.duplicate();
    draw_segments(&mut raw_canvas, &found, RAW_SEGMENT, window, 1);
    canvas::hold_frame(&mut frames, &raw_canvas, HOLD_DELAY_MS, HOLD_FRAME_COUNT);

    let raw_segments: usize = found.len();
    let merged: Vec<Segment> = growth::merge_segments(found);
    let mut merged_canvas: Canvas = base.duplicate();
    draw_segments(&mut merged_canvas, &merged, MERGED_SEGMENT, window, 2);
    canvas::hold_frame(&mut frames, &merged_canvas, HOLD_DELAY_MS, HOLD_FRAME_COUNT);

    let v_pairs: Vec<(Segment, Segment)> = growth::length_matched_pairs(
        merged.as_slice(),
        Orientation::Vertical,
    );
    let h_pairs: Vec<(Segment, Segment)> = growth::length_matched_pairs(
        merged.as_slice(),
        Orientation::Horizontal,
    );
    let mut pairs_canvas: Canvas = base.duplicate();
    draw_paired(&mut pairs_canvas, &merged, &v_pairs, &h_pairs, Ghost(g), window);
    canvas::hold_frame(&mut frames, &pairs_canvas, HOLD_DELAY_MS, HOLD_FRAME_COUNT);

    assert forall|i: int| 0 <= i < v_pairs@.len() implies growth::measurable(
        #[trigger] v_pairs@[i],
    ) by {
        assert(growth_bounds::within(v_pairs@[i].0, window));
    }
    let boxes: Vec<Region> = growth::boxes_from_pairs(
        gray,
        img_w,
        img_h,
        v_pairs.as_slice(),
        h_pairs.as_slice(),
    );
    let mut box_canvas: Canvas = base;
    draw_boxes(&mut box_canvas, &boxes, window);
    canvas::hold_frame(&mut frames, &box_canvas, HOLD_DELAY_MS, FINAL_HOLD_FRAME_COUNT);
    assert(canvas::shown(frames@) =~= g.frames());
    Rendering {
        frames,
        seeds: seeds.len(),
        raw_segments,
        merged_segments: merged.len(),
        boxes: boxes.len(),
    }
}

proof fn lemma_segment_sized(
    p: Pixels,
    s: Segment,
    c: Rgba,
    window: Region,
    reach: int,
    n: nat,
    size: (int, int),
)
    requires
        canvas::sized(p, size.0, size.1),
    ensures
        canvas::sized(with_lines(p, s, c, window, reach, n), size.0, size.1),
    decreases n,
{
    if n > 0 {
        lemma_segment_sized(p, s, c, window, reach, (n - 1) as nat, size);
    }
}

proof fn lemma_segments_sized(
    p: Pixels,
    s: Seq<Segment>,
    colors: spec_fn(Segment) -> Rgba,
    window: Region,
    thickness: int,
    n: nat,
    size: (int, int),
)
    requires
        canvas::sized(p, size.0, size.1),
    ensures
        canvas::sized(with_segments(p, s, colors, window, thickness, n), size.0, size.1),
    decreases n,
{
    if n > 0 {
        let before = with_segments(p, s, colors, window, thickness, (n - 1) as nat);
        lemma_segments_sized(p, s, colors, window, thickness, (n - 1) as nat, size);
        lemma_segment_sized(
            before,
            s[n - 1],
            colors(s[n - 1]),
            window,
            thickness / 2,
            (2 * (thickness / 2) + 1) as nat,
            size,
        );
    }
}

proof fn lemma_seeds_sized(
    p: Pixels,
    seeds: Seq<(i32, i32)>,
    window: Region,
    n: nat,
    size: (int, int),
)
    requires
        canvas::sized(p, size.0, size.1),
    ensures
        canvas::sized(with_seeds(p, seeds, window, n), size.0, size.1),
    decreases n,
{
    if n > 0 {
        lemma_seeds_sized(p, seeds, window, (n - 1) as nat, size);
    }
}

proof fn lemma_batch_sized(
    p: Pixels,
    picture: Picture,
    seeds: Seq<(i32, i32)>,
    window: Region,
    from: int,
    to: int,
    size: (int, int),
)
    requires
        canvas::sized(p, size.0, size.1),
    ensures
        canvas::sized(with_batch(p, picture, seeds, window, from, to), size.0, size.1),
    decreases to - from,
{
    if from < to {
        let before = with_batch(p, picture, seeds, window, from, to - 1);
        lemma_batch_sized(p, picture, seeds, window, from, to - 1, size);
        lemma_active_sized(before, picture, seeds[to - 1], window, size);
    }
}

proof fn lemma_ray_sized(
    p: Pixels,
    picture: Picture,
    seed: (i32, i32),
    dir: RayDirection,
    window: Region,
    size: (int, int),
)
    requires
        canvas::sized(p, size.0, size.1),
    ensures
        canvas::sized(with_ray(p, picture, seed, dir, window), size.0, size.1),
{
}

proof fn lemma_active_sized(
    p: Pixels,
    picture: Picture,
    seed: (i32, i32),
    window: Region,
    size: (int, int),
)
    requires
        canvas::sized(p, size.0, size.1),
    ensures
        canvas::sized(with_active(p, picture, seed, window), size.0, size.1),
{
    let dotted = with_dot(p, (seed.0 as int, seed.1 as int), window, ACTIVE_SEED, 4);
    let left = with_ray(dotted, picture, seed, RayDirection::Left, window);
    let right = with_ray(left, picture, seed, RayDirection::Right, window);
    let up = with_ray(right, picture, seed, RayDirection::Up, window);
    assert(canvas::sized(dotted, size.0, size.1));
    lemma_ray_sized(dotted, picture, seed, RayDirection::Left, window, size);
    lemma_ray_sized(left, picture, seed, RayDirection::Right, window, size);
    lemma_ray_sized(right, picture, seed, RayDirection::Up, window, size);
    lemma_ray_sized(up, picture, seed, RayDirection::Down, window, size);
}

proof fn lemma_boxes_sized(
    p: Pixels,
    found: Seq<Region>,
    window: Region,
    n: nat,
    size: (int, int),
)
    requires
        canvas::sized(p, size.0, size.1),
    ensures
        canvas::sized(with_boxes(p, found, window, n), size.0, size.1),
    decreases n,
{
    if n > 0 {
        lemma_boxes_sized(p, found, window, (n - 1) as nat, size);
    }
}

proof fn lemma_seed_frames_sized(g: Growth, k: int)
    requires
        g.showable(),
        0 <= k <= reveal_frames(g.seeds().len() as int),
    ensures
        canvas::all_sized(g.seed_frames(k), g.window.2 as int, g.window.3 as int),
        g.seed_frames(k).len() == reveal_frames(g.seeds().len() as int) - k,
    decreases reveal_frames(g.seeds().len() as int) - k,
{
    let n = g.seeds().len() as int;
    if k < reveal_frames(n) {
        let size = (g.window.2 as int, g.window.3 as int);
        let (at, to) = (reveal_start(k, n), reveal_start(k + 1, n));
        let raw = g.raw(at as nat);
        let dotted = with_seeds(g.base(), g.seeds(), g.window, at as nat);
        let color = |s: Segment| RAW_SEGMENT;
        lemma_seed_frames_sized(g, k + 1);
        lemma_seeds_sized(g.base(), g.seeds(), g.window, at as nat, size);
        lemma_segments_sized(dotted, raw, color, g.window, 1, raw.len(), size);
        lemma_batch_sized(
            with_segments(dotted, raw, color, g.window, 1, raw.len()),
            g.picture,
            g.seeds(),
            g.window,
            at,
            to,
            size,
        );
    }
}

/// All frames of an animation have the size of the window. The seeds take [`SEED_REVEAL_FRAMES`] of
/// them, unless there are fewer seeds, and the last ones show the boxes.
pub proof fn frames_have_one_size(g: Growth)
    requires
        g.showable(),
    ensures
        canvas::all_sized(g.frames(), g.window.2 as int, g.window.3 as int),
        g.frames().len() == reveal_frames(g.seeds().len() as int) + 3 * HOLD_FRAME_COUNT
            + FINAL_HOLD_FRAME_COUNT,
        g.frames().last().pixels == g.box_picture(),
{
    let size = (g.window.2 as int, g.window.3 as int);
    let (raw, merged) = (g.raw(g.seeds().len()), g.merged());
    lemma_seed_frames_sized(g, 0);
    lemma_segments_sized(
        g.base(),
        raw,
        |s: Segment| RAW_SEGMENT,
        g.window,
        1,
        raw.len(),
        size,
    );
    lemma_segments_sized(
        g.base(),
        merged,
        |s: Segment| MERGED_SEGMENT,
        g.window,
        2,
        merged.len(),
        size,
    );
    lemma_segments_sized(
        g.base(),
        merged,
        |s: Segment| g.pair_color(s),
        g.window,
        2,
        merged.len(),
        size,
    );
    lemma_boxes_sized(g.base(), g.boxes(), g.window, g.boxes().len(), size);
}

} // verus!
