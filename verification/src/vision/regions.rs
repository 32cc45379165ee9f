//! Candidate regions of a screenshot: outlines of controls and panels between dividers.

use vstd::prelude::*;

use crate::active_monitor::FocusedWindow;
use crate::screencap::Capture;
use crate::sorting::{self, Order};
use crate::units;
use crate::vision::boxes::{
    self, ByAreaDescending, MAX_STD_DEV, MIN_RECTANGULARITY_PERCENT,
};
use crate::vision::dividers::{self, Region, MAX_DIVIDER_DEPTH, MIN_PANEL_SIZE};
use crate::vision::edges;

verus! {

/// A region of the screen where something rectangular is, in subpixels of the monitor.
#[derive(Debug, Clone, Copy, PartialEq, Eq, Structural)]
pub struct VisionRegion {
    pub x: i64,
    pub y: i64,
    pub w: i64,
    pub h: i64,
}

/// Whether only the panels between dividers are reported, without the outlines of controls: a
/// screen full of small boxes makes it hard to see whether the large ones are right.
pub const DEBUG_SECTIONS_ONLY: bool = true;

/// A smaller outline is a piece of a glyph or of an icon.
pub const MIN_SIZE: i32 = 14;

/// A box that takes up more than this percentage of the screen along an axis is a background.
pub const MAX_SIZE_PERCENT: i64 = 90;

/// Thresholds of the edge detection: an edge stronger than the higher one is kept, and so is one
/// that is stronger than the lower one and connected to such an edge.
pub const EDGE_LOW: u8 = 20;

pub const EDGE_HIGH: u8 = 50;

/// What is asked of an edge map: a byte for each pixel, 255 on an edge and 0 elsewhere, with no edge
/// on the border of the picture.
pub open spec fn edge_map(map: Seq<u8>, width: u32, height: u32) -> bool {
    &&& map.len() == width * height
    &&& forall|i: int| 0 <= i < map.len() ==> #[trigger] map[i] == 0 || map[i] == 255
    &&& forall|x: int, y: int|
        0 <= x < width && 0 <= y < height && (x == 0 || y == 0 || x == width - 1 || y == height - 1)
            ==> #[trigger] map[y * width + x] == 0
}

/// Whether the first `n` gray values are all the same.
pub open spec fn single_gray(gray: Seq<u8>, n: int) -> bool {
    forall|i: int| 0 <= i < n ==> #[trigger] gray[i] == gray[0]
}

/// Whether no pixel is an edge.
pub open spec fn blank(map: Seq<u8>) -> bool {
    forall|i: int| 0 <= i < map.len() ==> #[trigger] map[i] == 0
}

/// What is known of the edge map of a picture: where there is a single gray value, there is no edge.
pub open spec fn edge_map_of(gray: Seq<u8>, map: Seq<u8>, width: u32, height: u32) -> bool {
    &&& edge_map(map, width, height)
    &&& single_gray(gray, width * height) ==> blank(map)
}

/// Whether edge detection can return `map` for a picture under these thresholds, on some machine. The
/// pixels of the map rest on the machine's `exp`, `hypot` and `atan2`, so there may be more than one.
pub uninterp spec fn canny_gives(gray: Seq<u8>, width: u32, height: u32, low: u8, high: u8, map: Seq<u8>) -> bool;

/// Calls `imageproc::edges::canny`, and what it returns is what [`canny_gives`] speaks of. It is a
/// picture of the same size whose pixels are 255 on an edge and 0 elsewhere; a pixel on the border of
/// the picture is never an edge, and a picture of a single gray value has none at all. Which of the
/// other pixels are edges is not said here. The call needs a picture that is not empty, coordinates
/// that stay within 31 bits when the six pixels of the blur are added to them, a number of pixels of
/// 32 bits of which four bytes each can be held in memory, and thresholds in order, the lower one
/// above zero.
#[verifier::external_body]
fn canny(gray: &Vec<u8>, width: u32, height: u32, low: u8, high: u8) -> (map: Vec<u8>)
    requires
        1 <= width <= i32::MAX - 5,
        1 <= height <= i32::MAX - 5,
        width * height <= u32::MAX,
        4 * (width * height) <= isize::MAX,
        width * height <= gray@.len(),
        1 <= low <= high,
    ensures
        canny_gives(gray@, width, height, low, high, map@),
        edge_map_of(gray@, map@, width, height),
{
    let image = image::GrayImage::from_raw(width, height, gray.clone()).unwrap();
    imageproc::edges::canny(&image, low.into(), high.into()).into_raw()
}

/// The outlines that border following finds in a picture, each as the points on it.
pub uninterp spec fn contours_of(map: Seq<u8>, width: u32, height: u32) -> Seq<Seq<(i32, i32)>>;

/// The points of each outline.
pub open spec fn outlines(contours: Seq<Vec<(i32, i32)>>) -> Seq<Seq<(i32, i32)>> {
    Seq::new(contours.len(), |i: int| contours[i]@)
}

/// Whether every outline has a point, and only points of a picture of the given size.
pub open spec fn on_the_picture(contours: Seq<Seq<(i32, i32)>>, width: u32, height: u32) -> bool {
    forall|i: int|
        0 <= i < contours.len() ==> {
            &&& (#[trigger] contours[i]).len() > 0
            &&& forall|k: int|
                0 <= k < contours[i].len() ==> {
                    let p = #[trigger] contours[i][k];
                    0 <= p.0 < width && 0 <= p.1 < height
                }
        }
}

/// Whether every outline runs over pixels that are not 0.
pub open spec fn on_the_edges(
    contours: Seq<Seq<(i32, i32)>>,
    map: Seq<u8>,
    width: u32,
    height: u32,
) -> bool {
    &&& on_the_picture(contours, width, height)
    &&& forall|i: int, k: int|
        0 <= i < contours.len() && 0 <= k < contours[i].len() ==> {
            let p = #[trigger] contours[i][k];
            map[p.1 * width + p.0] != 0
        }
}

/// Calls `imageproc::contours::find_contours`, which follows the borders of the regions of pixels
/// that are not 0. The outlines depend on the picture alone; each of them has at least one point,
/// and all points are pixels of the picture that are not 0. The call needs a picture whose
/// coordinates and whose borders can be counted in 31 bits, and of whose pixels four bytes each can
/// be held in memory.
#[verifier::external_body]
fn find_contours(map: Vec<u8>, width: u32, height: u32) -> (contours: Vec<Vec<(i32, i32)>>)
    requires
        map@.len() == width * height,
        width * height <= i32::MAX,
        4 * (width * height) <= isize::MAX,
        width <= i32::MAX,
        height <= i32::MAX,
    ensures
        outlines(contours@) == contours_of(map@, width, height),
        on_the_edges(outlines(contours@), map@, width, height),
{
    let image = image::GrayImage::from_raw(width, height, map).unwrap();
    imageproc::contours::find_contours::<i32>(&image)
        .into_iter()
        .map(|c| c.points.into_iter().map(|p| (p.x, p.y)).collect())
        .collect()
}

/// The greatest extent of an outline along an axis of the given size.
pub open spec fn max_extent(size: u32) -> int {
    size * MAX_SIZE_PERCENT / 100
}

/// Whether an outline is that of a control or of a panel: neither too small nor too big; a panel has
/// a clean rectangle for its outline, and a control is not busy inside. The inside of a panel is
/// busy by nature, and the outline of an icon is hardly ever a rectangle.
pub open spec fn accepted(gray: Seq<u8>, width: u32, height: u32, points: Seq<(i32, i32)>) -> bool {
    let b = boxes::bounds(points);
    &&& points.len() > 0
    &&& MIN_SIZE <= b.2 <= max_extent(width)
    &&& MIN_SIZE <= b.3 <= max_extent(height)
    &&& if dividers::panel_sized(b) {
        boxes::min(boxes::doubled_area(points), 2 * boxes::area(b)) * 100
            >= MIN_RECTANGULARITY_PERCENT * (2 * boxes::area(b))
    } else {
        !boxes::region_spread(gray, width, b).deviates(MAX_STD_DEV as int)
    }
}

/// The boxes of the accepted ones among the first `n` outlines.
pub open spec fn outline_boxes(
    gray: Seq<u8>,
    width: u32,
    height: u32,
    contours: Seq<Seq<(i32, i32)>>,
    n: nat,
) -> Seq<Region>
    decreases n,
{
    if n == 0 {
        Seq::empty()
    } else {
        let before = outline_boxes(gray, width, height, contours, (n - 1) as nat);
        if accepted(gray, width, height, contours[n - 1]) {
            before.push(boxes::bounds(contours[n - 1]))
        } else {
            before
        }
    }
}

fn accept_outline(
    gray: &Vec<u8>,
    width: u32,
    height: u32,
    points: &Vec<(i32, i32)>,
) -> (b: Option<Region>)
    requires
        width <= i32::MAX,
        height <= i32::MAX,
        forall|k: int|
            0 <= k < points@.len() ==> {
                let p = #[trigger] points@[k];
                0 <= p.0 < width && 0 <= p.1 < height
            },
    ensures
        b == if accepted(gray@, width, height, points@) {
            Some(boxes::bounds(points@))
        } else {
            None
        },
{
    proof {
        lemma_bounds_on_picture(points@, width, height);
    }
    let b: Region = match boxes::bounding_box(points.as_slice()) {
        Some(b) => b,
        None => {
            return None;
        },
    };
    let (_, _, w, h) = b;
    let max_w: i32 = (width as i64 * MAX_SIZE_PERCENT / 100) as i32;
    let max_h: i32 = (height as i64 * MAX_SIZE_PERCENT / 100) as i32;
    if w < MIN_SIZE || h < MIN_SIZE || w > max_w || h > max_h {
        return None;
    }
    proof {
        boxes::lemma_product(w as int, h as int);
        assert(w * h > 0) by (nonlinear_arith)
            requires
                w >= 14,
                h >= 14,
        ;
    }
    let is_panel_scale: bool = w >= MIN_PANEL_SIZE && h >= MIN_PANEL_SIZE;
    if is_panel_scale {
        if boxes::rectangularity(points.as_slice(), b).falls_short_of(MIN_RECTANGULARITY_PERCENT) {
            return None;
        }
    } else {
        proof {
            assert(w * h <= 150 * 0x8000_0000) by (nonlinear_arith)
                requires
                    0 <= w <= 0x8000_0000,
                    0 <= h <= 0x8000_0000,
                    w < 150 || h < 150,
            ;
        }
        if boxes::std_dev(gray.as_slice(), width, b).exceeds(MAX_STD_DEV) {
            return None;
        }
    }
    Some(b)
}

proof fn lemma_bounds_on_picture(points: Seq<(i32, i32)>, width: u32, height: u32)
    requires
        width <= i32::MAX,
        height <= i32::MAX,
        forall|k: int|
            0 <= k < points.len() ==> {
                let p = #[trigger] points[k];
                0 <= p.0 < width && 0 <= p.1 < height
            },
    ensures
        boxes::bounds_fit(points),
        points.len() > 0 ==> {
            let b = boxes::bounds(points);
            &&& 0 <= b.0
            &&& 0 <= b.1
            &&& 0 <= b.2
            &&& 0 <= b.3
            &&& b.0 + b.2 < width
            &&& b.1 + b.3 < height
        },
{
    if points.len() > 0 {
        boxes::bounds_are_tight(points, true);
        boxes::bounds_are_tight(points, false);
        let l = choose|i: int|
            0 <= i < points.len() && boxes::coordinate(#[trigger] points[i], true) == boxes::least(
                points,
                true,
            );
        let r = choose|i: int|
            0 <= i < points.len() && boxes::coordinate(#[trigger] points[i], true)
                == boxes::greatest(points, true);
        let t = choose|i: int|
            0 <= i < points.len() && boxes::coordinate(#[trigger] points[i], false) == boxes::least(
                points,
                false,
            );
        let b = choose|i: int|
            0 <= i < points.len() && boxes::coordinate(#[trigger] points[i], false)
                == boxes::greatest(points, false);
        assert(points[l].0 <= points[r].0 && points[t].1 <= points[b].1);
    }
}

/// The boxes of those outlines that are controls or panels.
pub fn boxes_from_outlines(
    gray: &Vec<u8>,
    width: u32,
    height: u32,
    contours: &Vec<Vec<(i32, i32)>>,
) -> (found: Vec<Region>)
    requires
        width <= i32::MAX,
        height <= i32::MAX,
        on_the_picture(outlines(contours@), width, height),
    ensures
        found@ == outline_boxes(
            gray@,
            width,
            height,
            outlines(contours@),
            contours@.len(),
        ),
{
    let ghost all = outlines(contours@);
    let mut found: Vec<Region> = Vec::new();
    let mut i: usize = 0;
    while i < contours.len()
        invariant
            width <= i32::MAX,
            height <= i32::MAX,
            all == outlines(contours@),
            on_the_picture(all, width, height),
            i <= contours@.len(),
            found@ == outline_boxes(gray@, width, height, all, i as nat),
        decreases contours.len() - i,
    {
        assert(all[i as int] == contours@[i as int]@);
        assert(all[i as int].len() > 0);
        if let Some(b) = accept_outline(gray, width, height, &contours[i]) {
            found.push(b);
        }
        i = i + 1;
    }
    found
}

/// A window in whole pixels.
pub open spec fn window_pixels(w: FocusedWindow) -> Region {
    (units::pixel(w.x), units::pixel(w.y), units::pixel(w.w), units::pixel(w.h))
}

/// The far corners of all windows have coordinates.
pub open spec fn windows_fit(windows: Seq<FocusedWindow>) -> bool {
    forall|i: int|
        0 <= i < windows.len() ==> dividers::window_fits(window_pixels(#[trigger] windows[i]))
}

/// Whether the far corners of all windows have coordinates.
pub fn all_windows_fit(windows: &[FocusedWindow]) -> (r: bool)
    ensures
        r == windows_fit(windows@),
{
    let mut i: usize = 0;
    while i < windows.len()
        invariant
            i <= windows@.len(),
            forall|k: int|
                0 <= k < i ==> dividers::window_fits(window_pixels(#[trigger] windows@[k])),
        decreases windows.len() - i,
    {
        let w: &FocusedWindow = &windows[i];
        let (x, y): (i32, i32) = (units::to_pixel(w.x), units::to_pixel(w.y));
        let (width, height): (i32, i32) = (units::to_pixel(w.w), units::to_pixel(w.h));
        if !dividers::fits_in_coordinates((x, y, width, height)) {
            assert(!dividers::window_fits(window_pixels(windows@[i as int])));
            return false;
        }
        i = i + 1;
    }
    true
}

/// The panels of the first `n` windows.
pub open spec fn window_panels(
    p: edges::Picture,
    windows: Seq<FocusedWindow>,
    n: nat,
) -> Seq<Region>
    decreases n,
{
    if n == 0 {
        Seq::empty()
    } else {
        window_panels(p, windows, (n - 1) as nat) + dividers::panels(
            p,
            window_pixels(windows[n - 1]),
            MAX_DIVIDER_DEPTH as nat,
        )
    }
}

/// A box as a region of the screen.
pub open spec fn as_region(b: Region) -> VisionRegion {
    VisionRegion {
        x: (b.0 * units::SUBPIXELS) as i64,
        y: (b.1 * units::SUBPIXELS) as i64,
        w: (b.2 * units::SUBPIXELS) as i64,
        h: (b.3 * units::SUBPIXELS) as i64,
    }
}

/// The boxes from the largest to the smallest, without those that are the same detection as a
/// larger one.
pub open spec fn kept_boxes(found: Seq<Region>) -> Seq<Region> {
    boxes::distinct(sorting::stable_sorted::<Region, ByAreaDescending>(found))
}

/// The regions of the screen that candidate boxes stand for.
pub open spec fn regions_of(found: Seq<Region>) -> Seq<VisionRegion> {
    Seq::new(kept_boxes(found).len(), |i: int| as_region(kept_boxes(found)[i]))
}

/// The regions of the screen that candidate boxes stand for: the largest first, so that of nearly
/// equal boxes the outermost stays.
pub fn merge_boxes(found: Vec<Region>) -> (regions: Vec<VisionRegion>)
    ensures
        regions@ == regions_of(found@),
{
    let mut sorted: Vec<Region> = found;
    sorting::stable_sort::<Region, ByAreaDescending>(&mut sorted);
    let kept: Vec<Region> = boxes::keep_distinct(&sorted);
    let mut regions: Vec<VisionRegion> = Vec::new();
    let mut i: usize = 0;
    while i < kept.len()
        invariant
            i <= kept@.len(),
            regions@.len() == i,
            forall|k: int| 0 <= k < i ==> #[trigger] regions@[k] == as_region(kept@[k]),
        decreases kept.len() - i,
    {
        let (x, y, w, h) = kept[i];
        regions.push(
            VisionRegion {
                x: units::from_px(x),
                y: units::from_px(y),
                w: units::from_px(w),
                h: units::from_px(h),
            },
        );
        i = i + 1;
    }
    assert(regions@ =~= regions_of(found@));
    regions
}

/// Whether `map` is an edge map of the screenshot from which these regions come, with the panels of
/// the windows.
pub open spec fn regions_from_edges(
    capture: Capture,
    windows: Seq<FocusedWindow>,
    map: Seq<u8>,
    regions: Seq<VisionRegion>,
) -> bool {
    let contours = contours_of(map, capture.width, capture.height);
    &&& canny_gives(capture.gray@, capture.width, capture.height, EDGE_LOW, EDGE_HIGH, map)
    &&& edge_map_of(capture.gray@, map, capture.width, capture.height)
    &&& on_the_edges(contours, map, capture.width, capture.height)
    &&& regions == regions_of(
        outline_boxes(capture.gray@, capture.width, capture.height, contours, contours.len())
            + window_panels(
            edges::picture(capture.gray@, capture.width, capture.height),
            windows,
            windows.len(),
        ),
    )
}

/// The pixels of a screenshot are few enough, and not none, for edges to be detected and outlines to
/// be followed.
pub open spec fn traceable(capture: Capture) -> bool {
    &&& 1 <= capture.width <= i32::MAX - 5
    &&& 1 <= capture.height <= i32::MAX - 5
    &&& capture.width * capture.height <= i32::MAX
    &&& 4 * (capture.width * capture.height) <= isize::MAX
}

fn append_panels(
    capture: &Capture,
    windows: &[FocusedWindow],
    found: &mut Vec<Region>,
)
    requires
        capture.complete(),
        windows_fit(windows@),
    ensures
        final(found)@ == old(found)@ + window_panels(
            edges::picture(capture.gray@, capture.width, capture.height),
            windows@,
            windows@.len(),
        ),
{
    let ghost p = edges::picture(capture.gray@, capture.width, capture.height);
    let ghost before = found@;
    let mut i: usize = 0;
    assert(before + window_panels(p, windows@, 0) =~= before);
    while i < windows.len()
        invariant
            p == edges::picture(capture.gray@, capture.width, capture.height),
            p.complete(),
            windows_fit(windows@),
            i <= windows@.len(),
            found@ == before + window_panels(p, windows@, i as nat),
        decreases windows.len() - i,
    {
        let w: &FocusedWindow = &windows[i];
        let window: Region = (
            units::to_pixel(w.x),
            units::to_pixel(w.y),
            units::to_pixel(w.w),
            units::to_pixel(w.h),
        );
        assert(window == window_pixels(windows@[i as int]));
        let mut panels: Vec<Region> = dividers::detect_dividers_as_grid(
            capture.gray.as_slice(),
            capture.width,
            capture.height,
            window,
        );
        found.append(&mut panels);
        assert(found@ =~= before + window_panels(p, windows@, (i + 1) as nat));
        i = i + 1;
    }
}

/// Finds regions of a screenshot: the panels between the dividers of each window, and, unless only
/// these are asked for, the controls and panels whose outline can be followed. A panel often has no
/// outline of its own: a single line divides it from its neighbor, and the rest of its border is
/// that of the window.
pub fn detect_regions_with(
    capture: &Capture,
    windows: &[FocusedWindow],
    sections_only: bool,
) -> (regions: Vec<VisionRegion>)
    requires
        windows_fit(windows@),
        sections_only ==> capture.complete(),
        !sections_only && capture.complete() ==> traceable(*capture),
    ensures
        sections_only ==> regions@ == regions_of(
            window_panels(
                edges::picture(capture.gray@, capture.width, capture.height),
                windows@,
                windows@.len(),
            ),
        ),
        !sections_only && !capture.complete() ==> regions@.len() == 0,
        !sections_only && capture.complete() ==> exists|map: Seq<u8>|
            #[trigger] regions_from_edges(*capture, windows@, map, regions@),
{
    let mut found: Vec<Region> = Vec::new();
    if !sections_only {
        assert(0 <= capture.width * capture.height <= 0xffff_ffff * 0xffff_ffff) by (
            nonlinear_arith)
            requires
                0 <= capture.width <= 0xffff_ffff,
                0 <= capture.height <= 0xffff_ffff,
        ;
        if (capture.gray.len() as u64) < capture.width as u64 * capture.height as u64 {
            return Vec::new();
        }
        let map: Vec<u8> = canny(
            &capture.gray,
            capture.width,
            capture.height,
            EDGE_LOW,
            EDGE_HIGH,
        );
        let ghost edge_pixels = map@;
        let contours: Vec<Vec<(i32, i32)>> = find_contours(map, capture.width, capture.height);
        let mut outlined: Vec<Region> = boxes_from_outlines(
            &capture.gray,
            capture.width,
            capture.height,
            &contours,
        );
        found.append(&mut outlined);
        append_panels(capture, windows, &mut found);
        let regions: Vec<VisionRegion> = merge_boxes(found);
        proof {
            assert(outlines(contours@).len() == contours@.len());
            assert(regions_from_edges(*capture, windows@, edge_pixels, regions@));
        }
        return regions;
    }
    append_panels(capture, windows, &mut found);
    proof {
        let panels = window_panels(
            edges::picture(capture.gray@, capture.width, capture.height),
            windows@,
            windows@.len(),
        );
        assert(Seq::<Region>::empty() + panels =~= panels);
    }
    merge_boxes(found)
}

/// Where there is nothing but a single gray value, no outline adds to the panels.
pub proof fn a_flat_picture_has_no_outlines(
    capture: Capture,
    windows: Seq<FocusedWindow>,
    map: Seq<u8>,
    regions: Seq<VisionRegion>,
)
    requires
        capture.complete(),
        single_gray(capture.gray@, capture.width * capture.height),
        regions_from_edges(capture, windows, map, regions),
    ensures
        regions == regions_of(
            window_panels(
                edges::picture(capture.gray@, capture.width, capture.height),
                windows,
                windows.len(),
            ),
        ),
{
    let contours = contours_of(map, capture.width, capture.height);
    let panels = window_panels(
        edges::picture(capture.gray@, capture.width, capture.height),
        windows,
        windows.len(),
    );
    if contours.len() > 0 {
        assert(contours[0].len() > 0);
        let p = contours[0][0];
        assert(0 <= p.1 * capture.width + p.0 < capture.width * capture.height)
            by (nonlinear_arith)
            requires
                0 <= p.0 < capture.width,
                0 <= p.1 < capture.height,
        ;
        assert(map[p.1 * capture.width + p.0] == 0);
    }
    assert(Seq::<Region>::empty() + panels =~= panels);
}

/// Finds the regions of a screenshot that hints are shown for.
pub fn detect_regions(capture: &Capture, windows: &[FocusedWindow]) -> (regions: Vec<VisionRegion>)
    requires
        windows_fit(windows@),
        capture.complete(),
    ensures
        regions@ == regions_of(
            window_panels(
                edges::picture(capture.gray@, capture.width, capture.height),
                windows@,
                windows@.len(),
            ),
        ),
{
    detect_regions_with(capture, windows, DEBUG_SECTIONS_ONLY)
}

/// Whether the middle of a region lies within a window, its borders included. The middle is half a
/// size from the corner; both sides are doubled.
pub open spec fn centered_in(r: VisionRegion, w: FocusedWindow) -> bool {
    &&& 2 * w.x <= 2 * r.x + r.w <= 2 * (w.x + w.w)
    &&& 2 * w.y <= 2 * r.y + r.h <= 2 * (w.y + w.h)
}

/// Whether the middle of a region lies within some window.
pub open spec fn in_some_window(r: VisionRegion, windows: Seq<FocusedWindow>) -> bool {
    exists|i: int| 0 <= i < windows.len() && centered_in(r, #[trigger] windows[i])
}

/// The regions among the given ones whose middle lies within a window.
pub open spec fn in_windows(
    regions: Seq<VisionRegion>,
    windows: Seq<FocusedWindow>,
) -> Seq<VisionRegion>
    decreases regions.len(),
{
    if regions.len() == 0 {
        Seq::empty()
    } else {
        let before = in_windows(regions.drop_last(), windows);
        if in_some_window(regions.last(), windows) {
            before.push(regions.last())
        } else {
            before
        }
    }
}

fn lies_in_some_window(r: VisionRegion, windows: &[FocusedWindow]) -> (b: bool)
    ensures
        b == in_some_window(r, windows@),
{
    let (cx, cy): (i128, i128) = (
        2 * r.x as i128 + r.w as i128,
        2 * r.y as i128 + r.h as i128,
    );
    let mut i: usize = 0;
    while i < windows.len()
        invariant
            i <= windows@.len(),
            cx == 2 * r.x + r.w,
            cy == 2 * r.y + r.h,
            forall|k: int| 0 <= k < i ==> !centered_in(r, #[trigger] windows@[k]),
        decreases windows.len() - i,
    {
        let w: &FocusedWindow = &windows[i];
        let (right, bottom): (i128, i128) = (
            2 * (w.x as i128 + w.w as i128),
            2 * (w.y as i128 + w.h as i128),
        );
        if cx >= 2 * w.x as i128 && cx <= right && cy >= 2 * w.y as i128 && cy <= bottom {
            assert(centered_in(r, windows@[i as int]));
            return true;
        }
        i = i + 1;
    }
    false
}

/// Drops the regions whose middle lies in no window: a wallpaper has edges, too, but nothing to
/// click on.
pub fn filter_to_windows(
    regions: Vec<VisionRegion>,
    windows: &[FocusedWindow],
) -> (kept: Vec<VisionRegion>)
    ensures
        kept@ == in_windows(regions@, windows@),
{
    let mut kept: Vec<VisionRegion> = Vec::new();
    let mut i: usize = 0;
    while i < regions.len()
        invariant
            i <= regions@.len(),
            kept@ == in_windows(regions@.take(i as int), windows@),
        decreases regions.len() - i,
    {
        proof {
            assert(regions@.take(i + 1).drop_last() =~= regions@.take(i as int));
        }
        if lies_in_some_window(regions[i], windows) {
            kept.push(regions[i]);
        }
        i = i + 1;
    }
    assert(regions@.take(i as int) =~= regions@);
    kept
}

/// The regions of a screenshot that hints are shown for: those that lie in a window. Without a
/// screenshot there are none.
pub fn hint_regions(
    capture: Option<&Capture>,
    windows: &[FocusedWindow],
) -> (regions: Vec<VisionRegion>)
    requires
        windows_fit(windows@),
        capture matches Some(c) ==> c.complete(),
    ensures
        regions@ == match capture {
            Some(c) => in_windows(
                regions_of(
                    window_panels(
                        edges::picture(c.gray@, c.width, c.height),
                        windows@,
                        windows@.len(),
                    ),
                ),
                windows@,
            ),
            None => Seq::empty(),
        },
{
    match capture {
        Some(c) => filter_to_windows(detect_regions(c, windows), windows),
        None => {
            let none: Vec<VisionRegion> = Vec::new();
            assert(none@ =~= Seq::empty());
            none
        },
    }
}

/// Whether a kept box is the same detection as `b` and no smaller.
pub open spec fn stands_for(kept: Seq<Region>, b: Region) -> bool {
    exists|i: int|
        0 <= i < kept.len() && (#[trigger] kept[i] == b || boxes::same_detection(b, kept[i]))
            && boxes::area(kept[i]) >= boxes::area(b)
}

proof fn lemma_larger_stays(s: Seq<Region>)
    requires
        sorting::ascending::<Region, ByAreaDescending>(s),
    ensures
        forall|b: Region| #[trigger] s.contains(b) ==> stands_for(boxes::distinct(s), b),
        sorting::ascending::<Region, ByAreaDescending>(boxes::distinct(s)),
        forall|i: int|
            0 <= i < boxes::distinct(s).len() ==> boxes::area(#[trigger] boxes::distinct(s)[i])
                >= boxes::area(s.last()),
    decreases s.len(),
{
    if s.len() > 0 {
        let front = s.drop_last();
        let last = s.last();
        let kept = boxes::distinct(front);
        let all = boxes::distinct(s);
        lemma_larger_stays(front);
        if front.len() > 0 {
            assert(ByAreaDescending::key(s[front.len() - 1]) <= ByAreaDescending::key(
                s[s.len() - 1],
            ));
        }
        assert forall|i: int| 0 <= i < kept.len() implies boxes::area(#[trigger] kept[i])
            >= boxes::area(last) by {
            assert(front.len() > 0);
        }
        assert forall|i: int, j: int| 0 <= i <= j < all.len() implies ByAreaDescending::key(
            #[trigger] all[i],
        ) <= ByAreaDescending::key(#[trigger] all[j]) by {
            if j < kept.len() {
                assert(all[i] == kept[i] && all[j] == kept[j]);
                assert(ByAreaDescending::key(kept[i]) <= ByAreaDescending::key(kept[j]));
            } else if i < kept.len() {
                assert(all[i] == kept[i]);
            }
        }
        assert forall|b: Region| #[trigger] s.contains(b) implies stands_for(all, b) by {
            let k = choose|k: int| 0 <= k < s.len() && s[k] == b;
            if k < front.len() {
                assert(front[k] == b);
                assert(front.contains(b));
                let i = choose|i: int|
                    0 <= i < kept.len() && (#[trigger] kept[i] == b || boxes::same_detection(
                        b,
                        kept[i],
                    )) && boxes::area(kept[i]) >= boxes::area(b);
                assert(all[i] == kept[i]);
            } else if boxes::detected(kept, last) {
                let i = choose|i: int|
                    0 <= i < kept.len() && boxes::same_detection(last, #[trigger] kept[i]);
                assert(all[i] == kept[i]);
            } else {
                assert(all[all.len() - 1] == b);
            }
        }
    }
}

/// The boxes that are reported come from the largest to the smallest, no two of them are the same
/// detection, and every candidate is reported or is the same detection as a reported box that is no
/// smaller.
pub proof fn reported_boxes_stand_for_all(found: Seq<Region>)
    ensures
        forall|i: int, j: int|
            0 <= i < j < kept_boxes(found).len() ==> {
                let (a, b) = (#[trigger] kept_boxes(found)[i], #[trigger] kept_boxes(found)[j]);
                boxes::area(a) >= boxes::area(b) && !boxes::same_detection(b, a)
            },
        forall|b: Region| #[trigger] found.contains(b) ==> stands_for(kept_boxes(found), b),
        forall|b: Region| #[trigger] kept_boxes(found).contains(b) ==> found.contains(b),
{
    let sorted = sorting::stable_sorted::<Region, ByAreaDescending>(found);
    let kept = kept_boxes(found);
    sorting::sorting_orders_and_permutes::<Region, ByAreaDescending>(found);
    lemma_larger_stays(sorted);
    boxes::distinct_boxes_represent_all(sorted);
    assert forall|b: Region| #[trigger] sorted.contains(b) <==> found.contains(b) by {
        found.to_multiset_ensures();
        sorted.to_multiset_ensures();
        assert(sorted.to_multiset().count(b) == found.to_multiset().count(b));
    }
    assert forall|i: int, j: int| 0 <= i < j < kept.len() implies {
        let (a, b) = (#[trigger] kept[i], #[trigger] kept[j]);
        boxes::area(a) >= boxes::area(b) && !boxes::same_detection(b, a)
    } by {
        assert(ByAreaDescending::key(kept[i]) <= ByAreaDescending::key(kept[j]));
    }
    assert forall|b: Region| #[trigger] found.contains(b) implies stands_for(kept, b) by {
        assert(sorted.contains(b));
    }
}

/// Only regions with their middle in a window are kept, and on an empty desktop none is.
pub proof fn kept_regions_lie_in_windows(
    regions: Seq<VisionRegion>,
    windows: Seq<FocusedWindow>,
)
    ensures
        forall|r: VisionRegion|
            #[trigger] in_windows(regions, windows).contains(r) <==> regions.contains(r)
                && in_some_window(r, windows),
        windows.len() == 0 ==> in_windows(regions, windows).len() == 0,
    decreases regions.len(),
{
    if regions.len() > 0 {
        let front = regions.drop_last();
        let before = in_windows(front, windows);
        let all = in_windows(regions, windows);
        kept_regions_lie_in_windows(front, windows);
        assert forall|r: VisionRegion| #[trigger] all.contains(r) implies regions.contains(r)
            && in_some_window(r, windows) by {
            let i = choose|i: int| 0 <= i < all.len() && all[i] == r;
            if i < before.len() {
                assert(before[i] == r);
                assert(before.contains(r));
                let k = choose|k: int| 0 <= k < front.len() && front[k] == r;
                assert(regions[k] == r);
            } else {
                assert(regions[regions.len() - 1] == r);
            }
        }
        assert forall|r: VisionRegion| #[trigger]
            regions.contains(r) && in_some_window(r, windows) implies all.contains(r) by {
            let k = choose|k: int| 0 <= k < regions.len() && regions[k] == r;
            if k < front.len() {
                assert(front[k] == r);
                assert(front.contains(r));
                assert(before.contains(r));
                let i = choose|i: int| 0 <= i < before.len() && before[i] == r;
                assert(all[i] == r);
            } else {
                assert(all[all.len() - 1] == r);
            }
        }
    }
}

} // verus!
