//! Lines by a full scan: every row and column is scanned, and the positions that enough of them
//! agree on are kept.

use vstd::prelude::*;

use crate::vision::boxes::Spread;
use crate::vision::dividers::Region;
use crate::vision::edges::{self, Orientation, Picture};
use crate::vision::growth;
use crate::vision::lines::{
    self, DIVIDER_MERGE_GAP, DIVIDER_PEAK_OFFSET_MAX, DIVIDER_PEAK_OFFSET_MIN,
    DIVIDER_PEAK_RATIO_DEN, DIVIDER_PEAK_RATIO_NUM,
};

verus! {

/// At least one in this many rows or columns has to agree on a line: a half.
pub const FULL_SCAN_MATCH_DIVISOR: u32 = 2;

/// A standard deviation of the step size along a line above this marks it as text: a divider is
/// drawn the same way throughout, while the strokes of glyphs differ.
pub const MAX_EDGE_MAGNITUDE_STD_DEV: u8 = 35;

/// Further checks on the lines that a scan finds.
#[derive(Debug, Clone, Copy, PartialEq, Eq, Structural)]
pub struct FullScanOptions {
    /// A line must stand out from its neighborhood.
    pub peak_check: bool,
    /// The step size must be much the same along a line.
    pub uniformity_check: bool,
}

impl Default for FullScanOptions {
    fn default() -> (o: FullScanOptions)
        ensures
            !o.peak_check,
            !o.uniformity_check,
    {
        FullScanOptions { peak_check: false, uniformity_check: false }
    }
}

/// A size, or nothing if it is negative.
pub open spec fn extent(size: i32) -> nat {
    if size < 0 {
        0
    } else {
        size as nat
    }
}

fn as_extent(size: i32) -> (r: u32)
    ensures
        r == extent(size),
        r <= i32::MAX,
{
    if size < 0 {
        0
    } else {
        size as u32
    }
}

/// Position and extent of the lines of `orientation` across a window: where the first of them lies,
/// how many there are, where each of them starts and how long it is.
pub open spec fn layout(window: Region, orientation: Orientation) -> (i32, nat, i32, nat) {
    match orientation {
        Orientation::Vertical => (window.0, extent(window.2), window.1, extent(window.3)),
        Orientation::Horizontal => (window.1, extent(window.3), window.0, extent(window.2)),
    }
}

/// The steps across the line at `fixed`, `i` pixels along it from `start`.
pub open spec fn changes(p: Picture, orientation: Orientation, fixed: int, start: int) -> spec_fn(
    int,
) -> bool {
    |i: int| growth::on_line(p, orientation, fixed, start + i)
}

/// How many pixels along each line of a window have a step across it.
pub open spec fn scan_counts(p: Picture, window: Region, orientation: Orientation) -> Seq<u32> {
    let (first, number, start, length) = layout(window, orientation);
    Seq::new(
        number,
        |i: int| lines::tally(changes(p, orientation, first + i, start as int), length) as u32,
    )
}

pub(crate) proof fn lemma_tally(test: spec_fn(int) -> bool, n: nat)
    ensures
        lines::tally(test, n) <= n,
    decreases n,
{
    if n > 0 {
        lemma_tally(test, (n - 1) as nat);
    }
}

fn count_changes(
    gray: &[u8],
    img_w: u32,
    img_h: u32,
    orientation: Orientation,
    fixed: i32,
    start: i32,
    length: u32,
) -> (count: u32)
    requires
        edges::picture(gray@, img_w, img_h).complete(),
        start + length <= i32::MAX,
    ensures
        count == lines::tally(
            changes(
                edges::picture(gray@, img_w, img_h),
                orientation,
                fixed as int,
                start as int,
            ),
            length as nat,
        ),
{
    let ghost p = edges::picture(gray@, img_w, img_h);
    let ghost test = changes(p, orientation, fixed as int, start as int);
    let mut count: u32 = 0;
    let mut k: u32 = 0;
    while k < length
        invariant
            p == edges::picture(gray@, img_w, img_h),
            p.complete(),
            start + length <= i32::MAX,
            k <= length,
            test == changes(p, orientation, fixed as int, start as int),
            count == lines::tally(test, k as nat),
            count <= k,
        decreases length - k,
    {
        let along: i32 = (start as i64 + k as i64) as i32;
        let (x, y) = match orientation {
            Orientation::Vertical => (fixed, along),
            Orientation::Horizontal => (along, fixed),
        };
        assert(test(k as int) == growth::on_line(p, orientation, fixed as int, along as int));
        if edges::is_edge_pixel(gray, img_w, img_h, x, y, orientation) {
            count = count + 1;
        }
        k = k + 1;
    }
    count
}

pub(crate) fn scan_lines(
    gray: &[u8],
    img_w: u32,
    img_h: u32,
    window: Region,
    orientation: Orientation,
) -> (counts: Vec<u32>)
    requires
        edges::picture(gray@, img_w, img_h).complete(),
        growth::framed(window),
    ensures
        counts@ == scan_counts(edges::picture(gray@, img_w, img_h), window, orientation),
{
    let ghost p = edges::picture(gray@, img_w, img_h);
    let (first, number, start, length): (i32, u32, i32, u32) = match orientation {
        Orientation::Vertical => (window.0, as_extent(window.2), window.1, as_extent(window.3)),
        Orientation::Horizontal => (window.1, as_extent(window.3), window.0, as_extent(window.2)),
    };
    let mut counts: Vec<u32> = Vec::new();
    let mut i: u32 = 0;
    while i < number
        invariant
            p == edges::picture(gray@, img_w, img_h),
            p.complete(),
            i <= number,
            number == 0 || first + number <= i32::MAX,
            length == 0 || start + length <= i32::MAX,
            (first, number as nat, start, length as nat) == layout(window, orientation),
            counts@.len() == i,
            forall|k: int|
                0 <= k < i ==> #[trigger] counts@[k] == lines::tally(
                    changes(p, orientation, first + k, start as int),
                    length as nat,
                ),
        decreases number - i,
    {
        let fixed: i32 = (first as i64 + i as i64) as i32;
        counts.push(count_changes(gray, img_w, img_h, orientation, fixed, start, length));
        i = i + 1;
    }
    proof {
        assert forall|k: int| 0 <= k < number implies #[trigger] counts@[k] == scan_counts(
            p,
            window,
            orientation,
        )[k] by {
            lemma_tally(changes(p, orientation, first + k, start as int), length as nat);
        }
        assert(counts@ =~= scan_counts(p, window, orientation));
    }
    counts
}

/// Scans every row and column of a window and counts at each x the rows, and at each y the columns,
/// that change there.
pub fn full_scan_counts(
    gray: &[u8],
    img_w: u32,
    img_h: u32,
    window: Region,
) -> (counts: (Vec<u32>, Vec<u32>))
    requires
        edges::picture(gray@, img_w, img_h).complete(),
        growth::framed(window),
    ensures
        counts.0@ == scan_counts(
            edges::picture(gray@, img_w, img_h),
            window,
            Orientation::Vertical,
        ),
        counts.1@ == scan_counts(
            edges::picture(gray@, img_w, img_h),
            window,
            Orientation::Horizontal,
        ),
{
    let columns: Vec<u32> = scan_lines(gray, img_w, img_h, window, Orientation::Vertical);
    let rows: Vec<u32> = scan_lines(gray, img_w, img_h, window, Orientation::Horizontal);
    (columns, rows)
}

/// The step at `along` on the line at `fixed`.
pub open spec fn step_at(p: Picture, orientation: Orientation, fixed: int, along: int) -> int {
    match orientation {
        Orientation::Vertical => p.step(fixed, along, orientation),
        Orientation::Horizontal => p.step(along, fixed, orientation),
    }
}

/// The sizes of the steps that count as an edge, over the first `n` pixels of the line at `fixed`
/// from `lo`.
pub open spec fn magnitudes(
    p: Picture,
    orientation: Orientation,
    fixed: int,
    lo: int,
    n: nat,
) -> Spread
    decreases n,
{
    if n == 0 {
        Spread::none()
    } else {
        let before = magnitudes(p, orientation, fixed, lo, (n - 1) as nat);
        if growth::on_line(p, orientation, fixed, lo + n - 1) {
            before.with(step_at(p, orientation, fixed, lo + n - 1))
        } else {
            before
        }
    }
}

/// The sizes of the steps along a line from `span.0` to `span.1`, at those of its pixels that count
/// as an edge, for their standard deviation.
pub fn edge_magnitude_std_dev(
    gray: &[u8],
    img_w: u32,
    img_h: u32,
    fixed: i32,
    span: (i32, i32),
    orientation: Orientation,
) -> (spread: Spread)
    requires
        edges::picture(gray@, img_w, img_h).complete(),
    ensures
        spread == magnitudes(
            edges::picture(gray@, img_w, img_h),
            orientation,
            fixed as int,
            span.0 as int,
            growth::ahead(span.0 as int, span.1 as int),
        ),
        spread.wf(),
        spread.count <= growth::ahead(span.0 as int, span.1 as int),
{
    let ghost p = edges::picture(gray@, img_w, img_h);
    let (lo, hi) = span;
    let mut spread: Spread = Spread { count: 0, sum: 0, sum_sq: 0 };
    let mut along: i32 = lo;
    while along < hi
        invariant
            p == edges::picture(gray@, img_w, img_h),
            p.complete(),
            lo <= along,
            along <= hi || along == lo,
            spread.wf(),
            spread.count <= along - lo,
            spread == magnitudes(p, orientation, fixed as int, lo as int, (along - lo) as nat),
        decreases hi - along,
    {
        let (x, y) = match orientation {
            Orientation::Vertical => (fixed, along),
            Orientation::Horizontal => (along, fixed),
        };
        if edges::is_edge_pixel(gray, img_w, img_h, x, y, orientation) {
            let step: i32 = edges::step_size(
                gray,
                img_w,
                img_h,
                x as u32,
                y as u32,
                orientation,
            );
            spread.record(step as u8);
        }
        along = along + 1;
    }
    assert((along - lo) as nat == growth::ahead(lo as int, hi as int));
    spread
}

/// Whether the line `i` of a window is kept: at least half of the pixels along it have a step across
/// it, and it passes the checks that are asked for.
pub open spec fn survives(
    p: Picture,
    window: Region,
    orientation: Orientation,
    options: FullScanOptions,
    i: int,
) -> bool {
    let counts = scan_counts(p, window, orientation);
    let (first, _, start, length) = layout(window, orientation);
    &&& FULL_SCAN_MATCH_DIVISOR * counts[i] >= length
    &&& options.peak_check ==> lines::local_peak(
        counts,
        i,
        DIVIDER_PEAK_OFFSET_MIN as int,
        DIVIDER_PEAK_OFFSET_MAX as int,
        DIVIDER_PEAK_RATIO_NUM as int,
        DIVIDER_PEAK_RATIO_DEN as int,
    )
    &&& options.uniformity_check ==> !magnitudes(
        p,
        orientation,
        first + i,
        start as int,
        length,
    ).deviates(MAX_EDGE_MAGNITUDE_STD_DEV as int)
}

/// The positions of the lines among the first `n` that are kept.
pub open spec fn surviving(
    p: Picture,
    window: Region,
    orientation: Orientation,
    options: FullScanOptions,
    n: nat,
) -> Seq<i32>
    decreases n,
{
    if n == 0 {
        Seq::empty()
    } else {
        let before = surviving(p, window, orientation, options, (n - 1) as nat);
        if survives(p, window, orientation, options, n - 1) {
            before.push((layout(window, orientation).0 + n - 1) as i32)
        } else {
            before
        }
    }
}

/// The lines of a window, one position for each run of nearby ones.
pub open spec fn scanned_lines(
    p: Picture,
    window: Region,
    orientation: Orientation,
    options: FullScanOptions,
) -> Seq<i32> {
    lines::merged_positions(
        surviving(p, window, orientation, options, layout(window, orientation).1),
        DIVIDER_MERGE_GAP as int,
    )
}

pub(crate) fn line_survives(
    gray: &[u8],
    img_w: u32,
    img_h: u32,
    window: Region,
    orientation: Orientation,
    options: FullScanOptions,
    counts: &Vec<u32>,
    i: usize,
) -> (r: bool)
    requires
        edges::picture(gray@, img_w, img_h).complete(),
        growth::framed(window),
        counts@ == scan_counts(edges::picture(gray@, img_w, img_h), window, orientation),
        i < counts@.len(),
    ensures
        r == survives(
            edges::picture(gray@, img_w, img_h),
            window,
            orientation,
            options,
            i as int,
        ),
{
    let (first, start, length): (i32, i32, u32) = match orientation {
        Orientation::Vertical => (window.0, window.1, as_extent(window.3)),
        Orientation::Horizontal => (window.1, window.0, as_extent(window.2)),
    };
    if FULL_SCAN_MATCH_DIVISOR as u64 * (counts[i] as u64) < length as u64 {
        return false;
    }
    if options.peak_check && !lines::is_local_peak(
        counts.as_slice(),
        i,
        DIVIDER_PEAK_OFFSET_MIN,
        DIVIDER_PEAK_OFFSET_MAX,
        DIVIDER_PEAK_RATIO_NUM,
        DIVIDER_PEAK_RATIO_DEN,
    ) {
        return false;
    }
    if options.uniformity_check {
        let fixed: i32 = (first as i64 + i as i64) as i32;
        let span: (i32, i32) = (start, (start as i64 + length as i64) as i32);
        let spread: Spread = edge_magnitude_std_dev(gray, img_w, img_h, fixed, span, orientation);
        if spread.exceeds(MAX_EDGE_MAGNITUDE_STD_DEV) {
            return false;
        }
    }
    true
}

fn find_lines(
    gray: &[u8],
    img_w: u32,
    img_h: u32,
    window: Region,
    orientation: Orientation,
    options: FullScanOptions,
) -> (at: Vec<i32>)
    requires
        edges::picture(gray@, img_w, img_h).complete(),
        growth::framed(window),
    ensures
        at@ == scanned_lines(
            edges::picture(gray@, img_w, img_h),
            window,
            orientation,
            options,
        ),
{
    let ghost p = edges::picture(gray@, img_w, img_h);
    let counts: Vec<u32> = scan_lines(gray, img_w, img_h, window, orientation);
    let first: i32 = match orientation {
        Orientation::Vertical => window.0,
        Orientation::Horizontal => window.1,
    };
    let mut at: Vec<i32> = Vec::new();
    let mut i: usize = 0;
    while i < counts.len()
        invariant
            p == edges::picture(gray@, img_w, img_h),
            p.complete(),
            growth::framed(window),
            counts@ == scan_counts(p, window, orientation),
            first == layout(window, orientation).0,
            i <= counts@.len(),
            at@ == surviving(p, window, orientation, options, i as nat),
        decreases counts.len() - i,
    {
        if line_survives(gray, img_w, img_h, window, orientation, options, &counts, i) {
            at.push((first as i64 + i as i64) as i32);
        }
        i = i + 1;
    }
    lines::merge_adjacent(&mut at, DIVIDER_MERGE_GAP);
    at
}

/// The x of the vertical lines and the y of the horizontal ones that a scan keeps under the given
/// checks.
pub fn full_scan_lines_impl(
    gray: &[u8],
    img_w: u32,
    img_h: u32,
    window: Region,
    options: FullScanOptions,
) -> (found: (Vec<i32>, Vec<i32>))
    requires
        edges::picture(gray@, img_w, img_h).complete(),
        growth::framed(window),
    ensures
        found.0@ == scanned_lines(
            edges::picture(gray@, img_w, img_h),
            window,
            Orientation::Vertical,
            options,
        ),
        found.1@ == scanned_lines(
            edges::picture(gray@, img_w, img_h),
            window,
            Orientation::Horizontal,
            options,
        ),
{
    let xs: Vec<i32> = find_lines(gray, img_w, img_h, window, Orientation::Vertical, options);
    let ys: Vec<i32> = find_lines(gray, img_w, img_h, window, Orientation::Horizontal, options);
    (xs, ys)
}

/// The lines that at least half of the rows or columns agree on.
pub fn full_scan_lines(
    gray: &[u8],
    img_w: u32,
    img_h: u32,
    window: Region,
) -> (found: (Vec<i32>, Vec<i32>))
    requires
        edges::picture(gray@, img_w, img_h).complete(),
        growth::framed(window),
    ensures
        found.0@ == scanned_lines(
            edges::picture(gray@, img_w, img_h),
            window,
            Orientation::Vertical,
            (FullScanOptions { peak_check: false, uniformity_check: false }),
        ),
        found.1@ == scanned_lines(
            edges::picture(gray@, img_w, img_h),
            window,
            Orientation::Horizontal,
            (FullScanOptions { peak_check: false, uniformity_check: false }),
        ),
{
    full_scan_lines_impl(gray, img_w, img_h, window, FullScanOptions::default())
}

/// The lines that at least half of the rows or columns agree on and that stand out from their
/// neighborhood. Text has enough of a rhythm to pass the first check alone.
pub fn full_scan_lines_with_peak_check(
    gray: &[u8],
    img_w: u32,
    img_h: u32,
    window: Region,
) -> (found: (Vec<i32>, Vec<i32>))
    requires
        edges::picture(gray@, img_w, img_h).complete(),
        growth::framed(window),
    ensures
        found.0@ == scanned_lines(
            edges::picture(gray@, img_w, img_h),
            window,
            Orientation::Vertical,
            (FullScanOptions { peak_check: true, uniformity_check: false }),
        ),
        found.1@ == scanned_lines(
            edges::picture(gray@, img_w, img_h),
            window,
            Orientation::Horizontal,
            (FullScanOptions { peak_check: true, uniformity_check: false }),
        ),
{
    full_scan_lines_impl(
        gray,
        img_w,
        img_h,
        window,
        FullScanOptions { peak_check: true, uniformity_check: false },
    )
}

/// The lines that at least half of the rows or columns agree on and whose steps are much the same
/// size all along.
pub fn full_scan_lines_with_uniformity_check(
    gray: &[u8],
    img_w: u32,
    img_h: u32,
    window: Region,
) -> (found: (Vec<i32>, Vec<i32>))
    requires
        edges::picture(gray@, img_w, img_h).complete(),
        growth::framed(window),
    ensures
        found.0@ == scanned_lines(
            edges::picture(gray@, img_w, img_h),
            window,
            Orientation::Vertical,
            (FullScanOptions { peak_check: false, uniformity_check: true }),
        ),
        found.1@ == scanned_lines(
            edges::picture(gray@, img_w, img_h),
            window,
            Orientation::Horizontal,
            (FullScanOptions { peak_check: false, uniformity_check: true }),
        ),
{
    full_scan_lines_impl(
        gray,
        img_w,
        img_h,
        window,
        FullScanOptions { peak_check: false, uniformity_check: true },
    )
}

proof fn lemma_surviving(
    p: Picture,
    window: Region,
    orientation: Orientation,
    options: FullScanOptions,
    n: nat,
)
    requires
        growth::framed(window),
        n <= layout(window, orientation).1,
    ensures
        forall|v: i32|
            #[trigger] surviving(p, window, orientation, options, n).contains(v) ==> {
                let first = layout(window, orientation).0;
                0 <= v - first < n && survives(p, window, orientation, options, v - first)
            },
    decreases n,
{
    if n > 0 {
        lemma_surviving(p, window, orientation, options, (n - 1) as nat);
        let before = surviving(p, window, orientation, options, (n - 1) as nat);
        let all = surviving(p, window, orientation, options, n);
        assert forall|v: i32| #[trigger] all.contains(v) implies {
            let first = layout(window, orientation).0;
            0 <= v - first < n && survives(p, window, orientation, options, v - first)
        } by {
            let i = choose|i: int| 0 <= i < all.len() && all[i] == v;
            if i < before.len() {
                assert(before[i] == v);
                assert(before.contains(v));
            }
        }
    }
}

/// Every line that a scan reports lies in the window and survives the checks, with or without the
/// further ones: at least half of the pixels along it have a step across it. No two of them are the
/// same line.
pub proof fn reported_lines_survive(
    p: Picture,
    window: Region,
    orientation: Orientation,
    options: FullScanOptions,
)
    requires
        growth::framed(window),
    ensures
        lines::spaced(
            scanned_lines(p, window, orientation, options),
            DIVIDER_MERGE_GAP as int,
        ),
        forall|v: i32|
            #[trigger] scanned_lines(p, window, orientation, options).contains(v) ==> {
                let (first, number, start, length) = layout(window, orientation);
                &&& 0 <= v - first < number
                &&& survives(p, window, orientation, options, v - first)
                &&& 2 * lines::tally(changes(p, orientation, v as int, start as int), length)
                    >= length
            },
{
    let (first, number, start, length) = layout(window, orientation);
    let found = surviving(p, window, orientation, options, number);
    lemma_surviving(p, window, orientation, options, number);
    lines::merging_spaces_and_covers(found, DIVIDER_MERGE_GAP as int);
    assert forall|v: i32| #[trigger] scanned_lines(p, window, orientation, options).contains(
        v,
    ) implies {
        &&& 0 <= v - first < number
        &&& survives(p, window, orientation, options, v - first)
        &&& 2 * lines::tally(changes(p, orientation, v as int, start as int), length) >= length
    } by {
        assert(found.contains(v));
        let i = v - first;
        lemma_tally(changes(p, orientation, first + i, start as int), length);
        assert(scan_counts(p, window, orientation)[i] == lines::tally(
            changes(p, orientation, first + i, start as int),
            length,
        ));
    }
}

/// A further check only ever takes lines away.
pub proof fn checks_only_reject(
    p: Picture,
    window: Region,
    orientation: Orientation,
    options: FullScanOptions,
    i: int,
)
    requires
        survives(p, window, orientation, options, i),
    ensures
        survives(
            p,
            window,
            orientation,
            FullScanOptions { peak_check: false, uniformity_check: false },
            i,
        ),
{
}

} // verus!
