//! What holds of the regions of a screenshot: which are reported, and where they lie on the screen.

use vstd::prelude::*;

use crate::active_monitor::FocusedWindow;
use crate::pieces;
use crate::screencap::Capture;
use crate::units;
use crate::vision::boxes;
use crate::vision::dividers::{self, Region};
use crate::vision::edges::Picture;
use crate::vision::line_laws;
use crate::vision::regions::{self, VisionRegion};

verus! {

/// Whether the middle of a region lies in a window, its borders included.
pub open spec fn middle_lies_in(r: VisionRegion, w: FocusedWindow) -> bool {
    let (from_left, from_right) = (2 * r.x + r.w - 2 * w.x, 2 * w.x + 2 * w.w - 2 * r.x - r.w);
    let (from_top, from_bottom) = (2 * r.y + r.h - 2 * w.y, 2 * w.y + 2 * w.h - 2 * r.y - r.h);
    from_left >= 0 && from_right >= 0 && from_top >= 0 && from_bottom >= 0
}

/// Whether the middle of a region lies in one of the windows.
pub open spec fn lies_in_one(r: VisionRegion, windows: Seq<FocusedWindow>) -> bool {
    exists|i: int| 0 <= i < windows.len() && middle_lies_in(r, #[trigger] windows[i])
}

proof fn lemma_in_windows(found: Seq<VisionRegion>, windows: Seq<FocusedWindow>)
    ensures
        regions::in_windows(found, windows) == found.filter(
            |r: VisionRegion| regions::in_some_window(r, windows),
        ),
    decreases found.len(),
{
    reveal(Seq::filter);
    if found.len() > 0 {
        lemma_in_windows(found.drop_last(), windows);
    } else {
        assert(regions::in_windows(found, windows) =~= found);
    }
}

/// Of the regions, those with their middle in a window are kept, all of them in the given order, and
/// no others.
pub proof fn all_regions_in_windows_are_kept(
    found: Seq<VisionRegion>,
    windows: Seq<FocusedWindow>,
)
    ensures
        regions::in_windows(found, windows) == found.filter(
            |r: VisionRegion| lies_in_one(r, windows),
        ),
{
    lemma_in_windows(found, windows);
    let (f, g) = (
        |r: VisionRegion| regions::in_some_window(r, windows),
        |r: VisionRegion| lies_in_one(r, windows),
    );
    assert forall|r: VisionRegion| #[trigger] f(r) == g(r) by {
        if f(r) {
            let i = choose|i: int|
                0 <= i < windows.len() && regions::centered_in(r, #[trigger] windows[i]);
            assert(middle_lies_in(r, windows[i]));
        }
        if g(r) {
            let i = choose|i: int| 0 <= i < windows.len() && middle_lies_in(r, #[trigger] windows[i]);
            assert(regions::centered_in(r, windows[i]));
        }
    }
    assert(f =~= g);
}

/// The panels of all windows are looked for, one window after the other, two levels deep.
pub proof fn every_window_is_searched(p: Picture, windows: Seq<FocusedWindow>, n: nat)
    requires
        n <= windows.len(),
    ensures
        regions::window_panels(p, windows, n) == Seq::new(
            n,
            |i: int|
                dividers::panels(
                    p,
                    (
                        units::pixel(windows[i].x),
                        units::pixel(windows[i].y),
                        units::pixel(windows[i].w),
                        units::pixel(windows[i].h),
                    ),
                    2,
                ),
        ).flatten(),
    decreases n,
{
    let piece = |i: int|
        dividers::panels(
            p,
            (
                units::pixel(windows[i].x),
                units::pixel(windows[i].y),
                units::pixel(windows[i].w),
                units::pixel(windows[i].h),
            ),
            2,
        );
    if n > 0 {
        every_window_is_searched(p, windows, (n - 1) as nat);
        pieces::one_more_piece(piece, (n - 1) as nat);
    }
}

/// Whether a region stands for a box: it is that box, or one that mostly overlaps it and is no smaller.
pub open spec fn stands_for(reported: Seq<VisionRegion>, b: Region) -> bool {
    exists|c: Region| #[trigger]
        reported.contains(on_screen(c)) && (c == b || overlap_mostly(b, c)) && c.2 * c.3 >= b.2
            * b.3
}

/// Every box that was found is reported, or another one that stands for it.
pub proof fn every_box_is_reported(found: Seq<Region>, b: Region)
    requires
        found.contains(b),
    ensures
        stands_for(regions::regions_of(found), b),
{
    regions::reported_boxes_stand_for_all(found);
    let kept = regions::kept_boxes(found);
    let k = choose|k: int|
        0 <= k < kept.len() && (#[trigger] kept[k] == b || boxes::same_detection(b, kept[k]))
            && boxes::area(kept[k]) >= boxes::area(b);
    same_detections_overlap_mostly(b, kept[k]);
    assert(regions::regions_of(found)[k] == on_screen(kept[k]));
    assert(regions::regions_of(found).contains(on_screen(kept[k])));
}

/// A panel of a window in whole pixels.
pub open spec fn panel_of(p: Picture, w: FocusedWindow, b: Region) -> bool {
    dividers::panels(
        p,
        (units::pixel(w.x), units::pixel(w.y), units::pixel(w.w), units::pixel(w.h)),
        2,
    ).contains(b)
}

proof fn lemma_panel_found(p: Picture, windows: Seq<FocusedWindow>, n: nat, i: int, b: Region)
    requires
        0 <= i < n <= windows.len(),
        panel_of(p, windows[i], b),
    ensures
        regions::window_panels(p, windows, n).contains(b),
    decreases n,
{
    let before = regions::window_panels(p, windows, (n - 1) as nat);
    let all = regions::window_panels(p, windows, n);
    if i < n - 1 {
        lemma_panel_found(p, windows, (n - 1) as nat, i, b);
        let k = choose|k: int| 0 <= k < before.len() && before[k] == b;
        assert(all[k] == b);
    } else {
        let last = dividers::panels(p, regions::window_pixels(windows[i]), 2);
        let k = choose|k: int| 0 <= k < last.len() && last[k] == b;
        assert(all[before.len() + k] == b);
    }
}

/// Every panel of every window is reported, or a box that stands for it.
pub proof fn every_panel_is_reported(p: Picture, windows: Seq<FocusedWindow>, i: int, b: Region)
    requires
        0 <= i < windows.len(),
        panel_of(p, windows[i], b),
    ensures
        stands_for(
            regions::regions_of(regions::window_panels(p, windows, windows.len())),
            b,
        ),
{
    lemma_panel_found(p, windows, windows.len(), i, b);
    every_box_is_reported(regions::window_panels(p, windows, windows.len()), b);
}

/// A box in pixels as a region of the screen, with 450 subpixels to a pixel.
pub open spec fn on_screen(b: Region) -> VisionRegion {
    VisionRegion {
        x: (450 * b.0) as i64,
        y: (450 * b.1) as i64,
        w: (450 * b.2) as i64,
        h: (450 * b.3) as i64,
    }
}

/// The regions that are reported are the boxes that are kept, on the screen and in the same order.
pub proof fn boxes_are_reported_where_they_lie(found: Seq<Region>)
    ensures
        regions::regions_of(found) == regions::kept_boxes(found).map_values(
            |b: Region| on_screen(b),
        ),
{
    assert(regions::regions_of(found) =~= regions::kept_boxes(found).map_values(
        |b: Region| on_screen(b),
    ));
}

/// Whether what two boxes have in common is more than 70 per cent of what they cover together.
pub open spec fn overlap_mostly(a: Region, b: Region) -> bool {
    let right = boxes::min(a.0 + a.2, b.0 + b.2);
    let left = boxes::max(a.0 as int, b.0 as int);
    let bottom = boxes::min(a.1 + a.3, b.1 + b.3);
    let top = boxes::max(a.1 as int, b.1 as int);
    let shared = if right > left && bottom > top {
        (right - left) * (bottom - top)
    } else {
        0
    };
    let together = a.2 * a.3 + b.2 * b.3 - shared;
    together > 0 && 100 * shared > 70 * together
}

/// Boxes are the same detection if they overlap mostly.
pub proof fn same_detections_overlap_mostly(a: Region, b: Region)
    ensures
        boxes::same_detection(a, b) <==> overlap_mostly(a, b),
{
    let p = boxes::common(a.0 as int, a.2 as int, b.0 as int, b.2 as int);
    let q = boxes::common(a.1 as int, a.3 as int, b.1 as int, b.3 as int);
    if p == 0 || q == 0 {
        assert(p * q == 0) by (nonlinear_arith)
            requires
                p == 0 || q == 0,
        ;
    }
}

/// Boxes without a common point are not the same detection, and neither do two boxes of which one is
/// empty. A box that is not empty is the same detection as itself.
pub proof fn boxes_apart_are_not_the_same(a: Region, b: Region)
    requires
        a.2 >= 0,
        a.3 >= 0,
        b.2 >= 0,
        b.3 >= 0,
    ensures
        a.0 + a.2 <= b.0 || b.0 + b.2 <= a.0 || a.1 + a.3 <= b.1 || b.1 + b.3 <= a.1
            ==> !boxes::same_detection(a, b),
        a.2 > 0 && a.3 > 0 ==> boxes::same_detection(a, a),
{
    same_detections_overlap_mostly(a, b);
    same_detections_overlap_mostly(a, a);
    assert(0 <= a.2 * a.3 && 0 <= b.2 * b.3 && (a.2 > 0 && a.3 > 0 ==> a.2 * a.3 > 0)) by (
        nonlinear_arith)
        requires
            a.2 >= 0,
            a.3 >= 0,
            b.2 >= 0,
            b.3 >= 0,
    ;
}

/// Whether an outline is that of a control or of a panel, by its box `b`: from 14 pixels to 90 per cent
/// of the picture in both directions; if it is 150 pixels wide and high, its outline encloses at least
/// 85 per cent of the box, and otherwise the standard deviation of what is in it is no more than 45.
pub open spec fn looks_clickable(
    gray: Seq<u8>,
    width: u32,
    height: u32,
    points: Seq<(i32, i32)>,
    b: Region,
) -> bool {
    &&& b.2 >= 14
    &&& b.3 >= 14
    &&& 100 * b.2 <= 90 * width
    &&& 100 * b.3 <= 90 * height
    &&& if b.2 >= 150 && b.3 >= 150 {
        100 * boxes::doubled_area(points) >= 85 * (2 * (b.2 * b.3))
    } else {
        !line_laws::spread_of(line_laws::pixels_of(gray, width, b)).deviates(45)
    }
}

/// Whether a box is the tightest one around points: all of them lie in it, and one on each side.
pub open spec fn tightly_around(points: Seq<(i32, i32)>, b: Region) -> bool {
    &&& forall|i: int|
        0 <= i < points.len() ==> {
            let p = #[trigger] points[i];
            b.0 <= p.0 <= b.0 + b.2 && b.1 <= p.1 <= b.1 + b.3
        }
    &&& exists|i: int| 0 <= i < points.len() && (#[trigger] points[i]).0 == b.0
    &&& exists|i: int| 0 <= i < points.len() && (#[trigger] points[i]).1 == b.1
    &&& exists|i: int| 0 <= i < points.len() && (#[trigger] points[i]).0 == b.0 + b.2
    &&& exists|i: int| 0 <= i < points.len() && (#[trigger] points[i]).1 == b.1 + b.3
}

/// Whether an outline has points, all of them on the picture.
pub open spec fn drawn_on(points: Seq<(i32, i32)>, width: u32, height: u32) -> bool {
    &&& points.len() > 0
    &&& forall|i: int|
        0 <= i < points.len() ==> 0 <= (#[trigger] points[i]).0 < width && 0 <= points[i].1
            < height
}

/// The box around the points of an outline on a picture is the tightest one.
pub proof fn outlines_have_tight_boxes(points: Seq<(i32, i32)>, width: u32, height: u32)
    requires
        drawn_on(points, width, height),
        width <= i32::MAX,
        height <= i32::MAX,
    ensures
        tightly_around(points, boxes::bounds(points)),
        0 <= boxes::bounds(points).0,
        0 <= boxes::bounds(points).1,
        0 <= boxes::bounds(points).2,
        0 <= boxes::bounds(points).3,
        boxes::bounds(points).0 + boxes::bounds(points).2 < width,
        boxes::bounds(points).1 + boxes::bounds(points).3 < height,
{
    boxes::bounds_are_tight(points, true);
    boxes::bounds_are_tight(points, false);
    let b = boxes::bounds(points);
    let l = choose|i: int|
        0 <= i < points.len() && boxes::coordinate(#[trigger] points[i], true) == boxes::least(
            points,
            true,
        );
    let r = choose|i: int|
        0 <= i < points.len() && boxes::coordinate(#[trigger] points[i], true) == boxes::greatest(
            points,
            true,
        );
    let t = choose|i: int|
        0 <= i < points.len() && boxes::coordinate(#[trigger] points[i], false) == boxes::least(
            points,
            false,
        );
    let u = choose|i: int|
        0 <= i < points.len() && boxes::coordinate(#[trigger] points[i], false) == boxes::greatest(
            points,
            false,
        );
    assert(0 <= points[l].0 < width && 0 <= points[r].0 < width);
    assert(0 <= points[t].1 < height && 0 <= points[u].1 < height);
    assert(boxes::least(points, true) <= boxes::greatest(points, true)) by {
        assert(boxes::coordinate(points[l], true) <= boxes::greatest(points, true));
    }
    assert(boxes::least(points, false) <= boxes::greatest(points, false)) by {
        assert(boxes::coordinate(points[t], false) <= boxes::greatest(points, false));
    }
    assert forall|i: int| 0 <= i < points.len() implies {
        let p = #[trigger] points[i];
        b.0 <= p.0 <= b.0 + b.2 && b.1 <= p.1 <= b.1 + b.3
    } by {
        assert(boxes::coordinate(points[i], true) == points[i].0);
        assert(boxes::coordinate(points[i], false) == points[i].1);
    }
}

/// Which outlines are accepted.
pub proof fn outlines_are_accepted_by_their_looks(
    gray: Seq<u8>,
    width: u32,
    height: u32,
    points: Seq<(i32, i32)>,
)
    requires
        drawn_on(points, width, height),
        width <= i32::MAX,
        height <= i32::MAX,
        width * height <= gray.len(),
    ensures
        regions::accepted(gray, width, height, points) <==> looks_clickable(
            gray,
            width,
            height,
            points,
            boxes::bounds(points),
        ),
{
    let b = boxes::bounds(points);
    outlines_have_tight_boxes(points, width, height);
    assert((b.1 + b.3) * width <= gray.len()) by (nonlinear_arith)
        requires
            b.1 + b.3 < height,
            0 <= b.1,
            0 <= b.3,
            0 <= width,
            width * height <= gray.len(),
    ;
    line_laws::boxes_are_sampled_whole(gray, width, b);
    let area = b.2 * b.3;
    assert(0 <= area) by (nonlinear_arith)
        requires
            0 <= b.2,
            0 <= b.3,
            area == b.2 * b.3,
    ;
}

/// Every outline that is accepted is reported with its box, in the given order, and no other one is.
pub proof fn every_accepted_outline_is_reported(
    gray: Seq<u8>,
    width: u32,
    height: u32,
    contours: Seq<Seq<(i32, i32)>>,
    n: nat,
)
    requires
        n <= contours.len(),
    ensures
        regions::outline_boxes(gray, width, height, contours, n) == contours.take(n as int).filter(
            |points: Seq<(i32, i32)>| regions::accepted(gray, width, height, points),
        ).map_values(|points: Seq<(i32, i32)>| boxes::bounds(points)),
    decreases n,
{
    reveal(Seq::filter);
    let keep = |points: Seq<(i32, i32)>| regions::accepted(gray, width, height, points);
    let around = |points: Seq<(i32, i32)>| boxes::bounds(points);
    let given = contours.take(n as int);
    let all = regions::outline_boxes(gray, width, height, contours, n);
    if n > 0 {
        every_accepted_outline_is_reported(gray, width, height, contours, (n - 1) as nat);
        assert(given.drop_last() =~= contours.take(n - 1));
        assert(given.last() == contours[n - 1]);
        let before = regions::outline_boxes(gray, width, height, contours, (n - 1) as nat);
        assert(all =~= given.filter(keep).map_values(around));
    } else {
        assert(all =~= given.filter(keep).map_values(around));
    }
}

/// Every outline that looks clickable and every panel of every window is reported, or a box that stands
/// for it, whatever the edges of a screenshot are found to be.
pub proof fn outlines_and_panels_are_reported(
    capture: crate::screencap::Capture,
    windows: Seq<FocusedWindow>,
    map: Seq<u8>,
    reported: Seq<VisionRegion>,
    i: int,
    b: Region,
)
    requires
        regions::regions_from_edges(capture, windows, map, reported),
        capture.width <= i32::MAX,
        capture.height <= i32::MAX,
        capture.width * capture.height <= capture.gray@.len(),
    ensures
        ({
            let contours = regions::contours_of(map, capture.width, capture.height);
            &&& 0 <= i < contours.len() && looks_clickable(
                capture.gray@,
                capture.width,
                capture.height,
                contours[i],
                boxes::bounds(contours[i]),
            ) ==> stands_for(reported, boxes::bounds(contours[i]))
            &&& 0 <= i < windows.len() && panel_of(
                Picture {
                    gray: capture.gray@,
                    width: capture.width,
                    height: capture.height,
                },
                windows[i],
                b,
            ) ==> stands_for(reported, b)
        }),
{
    let (gray, width, height) = (capture.gray@, capture.width, capture.height);
    let contours = regions::contours_of(map, width, height);
    let p = Picture { gray, width, height };
    let outlines = regions::outline_boxes(gray, width, height, contours, contours.len());
    let panels = regions::window_panels(p, windows, windows.len());
    let found = outlines + panels;
    if 0 <= i < contours.len() {
        let points = contours[i];
        assert(drawn_on(points, width, height));
        outlines_are_accepted_by_their_looks(gray, width, height, points);
        if regions::accepted(gray, width, height, points) {
            lemma_outline_found(gray, width, height, contours, contours.len(), i);
            let k = choose|k: int| 0 <= k < outlines.len() && outlines[k] == boxes::bounds(points);
            assert(found[k] == boxes::bounds(points));
            every_box_is_reported(found, boxes::bounds(points));
        }
    }
    if 0 <= i < windows.len() && panel_of(p, windows[i], b) {
        lemma_panel_found(p, windows, windows.len(), i, b);
        let k = choose|k: int| 0 <= k < panels.len() && panels[k] == b;
        assert(found[outlines.len() + k] == b);
        every_box_is_reported(found, b);
    }
}

proof fn lemma_outline_found(
    gray: Seq<u8>,
    width: u32,
    height: u32,
    contours: Seq<Seq<(i32, i32)>>,
    n: nat,
    i: int,
)
    requires
        0 <= i < n <= contours.len(),
        regions::accepted(gray, width, height, contours[i]),
    ensures
        regions::outline_boxes(gray, width, height, contours, n).contains(
            boxes::bounds(contours[i]),
        ),
    decreases n,
{
    let before = regions::outline_boxes(gray, width, height, contours, (n - 1) as nat);
    let all = regions::outline_boxes(gray, width, height, contours, n);
    let b = boxes::bounds(contours[i]);
    if i < n - 1 {
        lemma_outline_found(gray, width, height, contours, (n - 1) as nat, i);
        let k = choose|k: int| 0 <= k < before.len() && before[k] == b;
        assert(all[k] == b);
    } else {
        assert(all[all.len() - 1] == b);
    }
}

/// The edges that regions are made from are those of the whole picture, taken up from a strength of 50
/// on and followed down to one of 20.
pub proof fn edges_are_followed_from_strong_to_weak(
    capture: Capture,
    windows: Seq<FocusedWindow>,
    map: Seq<u8>,
    found: Seq<VisionRegion>,
)
    requires
        regions::regions_from_edges(capture, windows, map, found),
    ensures
        regions::canny_gives(capture.gray@, capture.width, capture.height, 20, 50, map),
{
}

} // verus!
