//! What holds of the measures by which lines and controls are told from text.

use vstd::prelude::*;

use crate::vision::boxes::{self, Spread};
use crate::vision::dividers::Region;
use crate::vision::lines;

verus! {

/// The sum of the counts of a sequence.
pub open spec fn total(s: Seq<u32>) -> int {
    s.fold_left(0int, |sum: int, c: u32| sum + c)
}

proof fn lemma_total(counts: Seq<u32>, lo: int, hi: int)
    requires
        0 <= lo <= hi <= counts.len(),
    ensures
        lines::sum_over(counts, lo, hi) == total(counts.subrange(lo, hi)),
    decreases hi - lo,
{
    let part = counts.subrange(lo, hi);
    if lo < hi {
        lemma_total(counts, lo, hi - 1);
        assert(part.drop_last() =~= counts.subrange(lo, hi - 1));
        assert(part.last() == counts[hi - 1]);
    }
}

/// The counts before `index`, from `min_offset` to `max_offset` away from it, as far as there are any.
pub open spec fn before(counts: Seq<u32>, index: int, min_offset: int, max_offset: int) -> Seq<u32> {
    if min_offset > index {
        Seq::empty()
    } else if max_offset > index {
        counts.subrange(0, index - min_offset + 1)
    } else {
        counts.subrange(index - max_offset, index - min_offset + 1)
    }
}

/// The counts behind `index`, from `min_offset` to `max_offset` away from it, as far as there are any.
pub open spec fn behind(counts: Seq<u32>, index: int, min_offset: int, max_offset: int) -> Seq<u32> {
    if index + min_offset >= counts.len() {
        Seq::empty()
    } else if index + max_offset >= counts.len() {
        counts.subrange(index + min_offset, counts.len() as int)
    } else {
        counts.subrange(index + min_offset, index + max_offset + 1)
    }
}

/// A count is a peak if it is `num / den` times the mean of the counts around it. That is the mean of
/// the two means before and behind it, the only one of them if there is one, and without any
/// everything is a peak. No count is never a peak; and where the ratio is not above one, a peak has to
/// be above that mean.
pub proof fn peaks_are_measured_against_the_means(
    counts: Seq<u32>,
    index: int,
    min_offset: int,
    max_offset: int,
    num: int,
    den: int,
)
    requires
        0 <= index < counts.len(),
        0 <= min_offset <= max_offset,
    ensures
        ({
            let a = before(counts, index, min_offset, max_offset);
            let b = behind(counts, index, min_offset, max_offset);
            let (m, n) = (a.len() as int, b.len() as int);
            let (here, around) = if m > 0 && n > 0 {
                (counts[index] * den * (2 * (m * n)), num * (total(a) * n + total(b) * m))
            } else if m > 0 {
                (counts[index] * den * m, num * total(a))
            } else {
                (counts[index] * den * n, num * total(b))
            };
            lines::local_peak(counts, index, min_offset, max_offset, num, den) <==> m == 0 && n == 0
                || counts[index] > 0 && (here > around || here == around && num > den)
        }),
{
    let a = before(counts, index, min_offset, max_offset);
    let b = behind(counts, index, min_offset, max_offset);
    if a.len() > 0 {
        let lo = if max_offset > index {
            0
        } else {
            index - max_offset
        };
        lemma_total(counts, lo, index - min_offset + 1);
    }
    if b.len() > 0 {
        let hi = if index + max_offset >= counts.len() {
            counts.len() as int
        } else {
            index + max_offset + 1
        };
        lemma_total(counts, index + min_offset, hi);
    }
}

proof fn lemma_level_total(s: Seq<u32>, level: int)
    requires
        forall|i: int| 0 <= i < s.len() ==> #[trigger] s[i] == level,
    ensures
        total(s) == level * s.len(),
    decreases s.len(),
{
    if s.len() > 0 {
        let front = s.drop_last();
        assert forall|i: int| 0 <= i < front.len() implies #[trigger] front[i] == level by {
            assert(s[i] == level);
        }
        lemma_level_total(front, level);
        assert(s[s.len() - 1] == level);
        let n = s.len() as int;
        assert(level * n == level * (n - 1) + level) by (nonlinear_arith);
        assert(total(s) == total(front) + s.last());
    } else {
        assert(level * s.len() == 0) by (nonlinear_arith)
            requires
                s.len() == 0,
        ;
    }
}

/// Between two levels, each over the offsets on one side, a count is a peak from `num / den` times
/// their mean on; what lies nearer or farther makes no difference. With one side only, it is from that
/// multiple of the level there on.
pub proof fn peaks_stand_out_from_levels(
    counts: Seq<u32>,
    index: int,
    min_offset: int,
    max_offset: int,
    num: int,
    den: int,
    below: int,
    above: int,
)
    requires
        0 <= index < counts.len(),
        0 <= min_offset <= max_offset,
        num > den > 0,
        forall|i: int|
            index - max_offset <= i <= index - min_offset && 0 <= i ==> #[trigger] counts[i]
                == below,
        forall|i: int|
            index + min_offset <= i <= index + max_offset && i < counts.len()
                ==> #[trigger] counts[i] == above,
    ensures
        ({
            let c = counts[index] as int;
            let peak = lines::local_peak(counts, index, min_offset, max_offset, num, den);
            let (has_before, has_behind) = (min_offset <= index, index + min_offset < counts.len());
            &&& has_before && has_behind ==> (peak <==> c > 0 && 2 * (c * den) >= num * (below
                + above))
            &&& has_before && !has_behind ==> (peak <==> c > 0 && c * den >= num * below)
            &&& !has_before && has_behind ==> (peak <==> c > 0 && c * den >= num * above)
            &&& !has_before && !has_behind ==> peak
        }),
{
    let a = before(counts, index, min_offset, max_offset);
    let b = behind(counts, index, min_offset, max_offset);
    let c = counts[index] as int;
    let (m, n) = (a.len() as int, b.len() as int);
    let d = c * den;
    peaks_are_measured_against_the_means(counts, index, min_offset, max_offset, num, den);
    lemma_level_total(a, below);
    lemma_level_total(b, above);
    if m > 0 && n > 0 {
        let k = m * n;
        assert(below * m * n == below * k && above * n * m == above * k && k > 0) by (
            nonlinear_arith)
            requires
                k == m * n,
                m > 0,
                n > 0,
        ;
        assert(d * (2 * k) == (2 * d) * k && num * (below * k + above * k) == (num * (below + above))
            * k) by (nonlinear_arith);
        lemma_scaled(2 * d, num * (below + above), k);
    } else if m > 0 {
        assert(num * (below * m) == (num * below) * m) by (nonlinear_arith);
        lemma_scaled(d, num * below, m);
    } else if n > 0 {
        assert(num * (above * n) == (num * above) * n) by (nonlinear_arith);
        lemma_scaled(d, num * above, n);
    }
}

proof fn lemma_scaled(x: int, y: int, k: int)
    requires
        k > 0,
    ensures
        x * k > y * k <==> x > y,
        x * k == y * k <==> x == y,
{
    assert((x * k > y * k <==> x > y) && (x * k == y * k <==> x == y)) by (nonlinear_arith)
        requires
            k > 0,
    ;
}

/// The samples of a sequence, one after the other.
pub open spec fn spread_of(values: Seq<int>) -> Spread
    decreases values.len(),
{
    if values.len() == 0 {
        Spread::none()
    } else {
        spread_of(values.drop_last()).with(values.last())
    }
}

/// The sum of a sequence, and that of its squares.
pub open spec fn sum(values: Seq<int>) -> int {
    values.fold_left(0int, |s: int, v: int| s + v)
}

pub open spec fn sum_of_squares(values: Seq<int>) -> int {
    values.fold_left(0int, |s: int, v: int| s + v * v)
}

/// Whether all values are those of a byte, and not too many to be counted.
pub open spec fn bytes(values: Seq<int>) -> bool {
    &&& values.len() <= 0x100_0000_0000
    &&& forall|i: int| 0 <= i < values.len() ==> 0 <= #[trigger] values[i] <= 255
}

/// Samples are counted, and their sum and that of their squares are kept.
pub proof fn samples_are_summed(values: Seq<int>)
    requires
        bytes(values),
    ensures
        spread_of(values).count == values.len(),
        spread_of(values).sum == sum(values),
        spread_of(values).sum_sq == sum_of_squares(values),
        0 <= sum(values) <= 255 * values.len(),
        0 <= sum_of_squares(values) <= 65025 * values.len(),
    decreases values.len(),
{
    if values.len() > 0 {
        let front = values.drop_last();
        assert forall|i: int| 0 <= i < front.len() implies 0 <= #[trigger] front[i] <= 255 by {
            assert(front[i] == values[i]);
        }
        samples_are_summed(front);
        let v = values.last();
        assert(0 <= values[values.len() - 1] <= 255);
        assert(0 <= v * v <= 65025) by (nonlinear_arith)
            requires
                0 <= v <= 255,
        ;
        assert(sum(values) == sum(front) + v);
        assert(sum_of_squares(values) == sum_of_squares(front) + v * v);
    }
}

proof fn lemma_same_samples(values: Seq<int>, v: int)
    requires
        forall|i: int| 0 <= i < values.len() ==> #[trigger] values[i] == v,
    ensures
        sum(values) == values.len() * v,
        sum_of_squares(values) == values.len() * (v * v),
    decreases values.len(),
{
    let n = values.len() as int;
    if n > 0 {
        let front = values.drop_last();
        assert forall|i: int| 0 <= i < front.len() implies #[trigger] front[i] == v by {
            assert(front[i] == values[i]);
        }
        lemma_same_samples(front, v);
        assert(values[n - 1] == v);
        assert(n * v == (n - 1) * v + v && n * (v * v) == (n - 1) * (v * v) + v * v) by (
            nonlinear_arith);
        assert(sum(values) == sum(front) + v);
        assert(sum_of_squares(values) == sum_of_squares(front) + v * v);
    } else {
        assert(n * v == 0 && n * (v * v) == 0) by (nonlinear_arith)
            requires
                n == 0,
        ;
    }
}

/// Samples that are all the same do not deviate, and neither do none.
pub proof fn the_same_does_not_deviate(values: Seq<int>, v: int, limit: int)
    requires
        bytes(values),
        forall|i: int| 0 <= i < values.len() ==> #[trigger] values[i] == v,
        limit >= 0,
    ensures
        !spread_of(values).deviates(limit),
{
    samples_are_summed(values);
    lemma_same_samples(values, v);
    let n = values.len() as int;
    assert(n * (n * (v * v)) == (n * v) * (n * v) && limit * limit * (n * n) >= 0) by (
        nonlinear_arith)
        requires
            n >= 0,
    ;
}

/// Samples of which one half has one value and one half another deviate by half the difference of
/// the two.
pub proof fn halves_deviate_by_half_their_difference(low: Seq<int>, high: Seq<int>, a: int, b: int, limit: int)
    requires
        bytes(low + high),
        low.len() == high.len(),
        low.len() > 0,
        forall|i: int| 0 <= i < low.len() ==> #[trigger] low[i] == a,
        forall|i: int| 0 <= i < high.len() ==> #[trigger] high[i] == b,
        a <= b,
        limit >= 0,
    ensures
        spread_of(low + high).deviates(limit) <==> b - a > 2 * limit,
{
    let values = low + high;
    let k = low.len() as int;
    let n = 2 * k;
    samples_are_summed(values);
    lemma_same_samples(low, a);
    lemma_same_samples(high, b);
    lemma_sums_of_both(low, high);
    let (s, q) = (k * a + k * b, k * (a * a) + k * (b * b));
    let gap = b - a;
    assert(n * q - s * s == (k * k) * (gap * gap)) by (nonlinear_arith)
        requires
            n == 2 * k,
            s == k * a + k * b,
            q == k * (a * a) + k * (b * b),
            gap == b - a,
    ;
    let double = 2 * limit;
    assert(limit * limit * (n * n) == (k * k) * (double * double)) by (nonlinear_arith)
        requires
            n == 2 * k,
            double == 2 * limit,
    ;
    assert((gap * gap) * (k * k) == (k * k) * (gap * gap) && (double * double) * (k * k) == (k * k)
        * (double * double)) by (nonlinear_arith);
    assert(k * k > 0) by (nonlinear_arith)
        requires
            k > 0,
    ;
    lemma_scaled(gap * gap, double * double, k * k);
    assert(gap * gap > double * double <==> gap > double) by (nonlinear_arith)
        requires
            gap >= 0,
            double >= 0,
    ;
}

proof fn lemma_sums_of_both(low: Seq<int>, high: Seq<int>)
    ensures
        sum(low + high) == sum(low) + sum(high),
        sum_of_squares(low + high) == sum_of_squares(low) + sum_of_squares(high),
    decreases high.len(),
{
    let both = low + high;
    if high.len() == 0 {
        assert(both =~= low);
    } else {
        lemma_sums_of_both(low, high.drop_last());
        assert(both.drop_last() =~= low + high.drop_last());
        assert(both.last() == high.last());
        assert(sum(both) == sum(both.drop_last()) + both.last());
        assert(sum_of_squares(both) == sum_of_squares(both.drop_last()) + both.last() * both.last());
        assert(sum(high) == sum(high.drop_last()) + high.last());
        assert(sum_of_squares(high) == sum_of_squares(high.drop_last()) + high.last()
            * high.last());
    }
}

/// The gray values of the first `n` pixels of the row `y` of a box.
pub open spec fn row_of(gray: Seq<u8>, img_w: u32, x: int, y: int, n: nat) -> Seq<int> {
    Seq::new(n, |i: int| gray[y * img_w + x + i] as int)
}

/// The gray values of a box, row by row.
pub open spec fn pixels_of(gray: Seq<u8>, img_w: u32, r: Region) -> Seq<int> {
    Seq::new(r.3 as nat, |j: int| row_of(gray, img_w, r.0 as int, r.1 + j, r.2 as nat)).flatten()
}

proof fn lemma_row_samples(values: Seq<int>, gray: Seq<u8>, img_w: u32, x: int, y: int, n: nat)
    requires
        0 <= x,
        x + n <= img_w <= i32::MAX,
        0 <= y,
        (y + 1) * img_w <= gray.len(),
    ensures
        boxes::with_row(spread_of(values), gray, img_w, y, x, x + n) == spread_of(
            values + row_of(gray, img_w, x, y, n),
        ),
    decreases n,
{
    if n == 0 {
        assert(values + row_of(gray, img_w, x, y, 0) =~= values);
    } else {
        lemma_row_samples(values, gray, img_w, x, y, (n - 1) as nat);
        let all = values + row_of(gray, img_w, x, y, n);
        assert(all.drop_last() =~= values + row_of(gray, img_w, x, y, (n - 1) as nat));
        assert(y * img_w + img_w == (y + 1) * img_w) by (nonlinear_arith);
    }
}

proof fn lemma_box_samples(gray: Seq<u8>, img_w: u32, r: Region, n: nat)
    requires
        0 <= r.0,
        0 <= r.1,
        0 <= r.2,
        n <= r.3,
        r.0 + r.2 <= img_w <= i32::MAX,
        (r.1 + r.3) * img_w <= gray.len(),
    ensures
        boxes::box_spread(gray, img_w, r.0 as int, r.0 + r.2, r.1 as int, r.1 + n) == spread_of(
            Seq::new(
                n,
                |j: int| row_of(gray, img_w, r.0 as int, r.1 + j, r.2 as nat),
            ).flatten(),
        ),
    decreases n,
{
    let rows = |j: int| row_of(gray, img_w, r.0 as int, r.1 + j, r.2 as nat);
    if n > 0 {
        lemma_box_samples(gray, img_w, r, (n - 1) as nat);
        crate::pieces::one_more_piece(rows, (n - 1) as nat);
        let y = r.1 + n - 1;
        assert((y + 1) * img_w <= (r.1 + r.3) * img_w) by (nonlinear_arith)
            requires
                y + 1 <= r.1 + r.3,
                0 <= img_w,
        ;
        lemma_row_samples(
            Seq::new((n - 1) as nat, rows).flatten(),
            gray,
            img_w,
            r.0 as int,
            y,
            r.2 as nat,
        );
    }
}

/// The samples of a box on the picture are all of its pixels.
pub proof fn boxes_are_sampled_whole(gray: Seq<u8>, img_w: u32, r: Region)
    requires
        0 <= r.0,
        0 <= r.1,
        0 <= r.2,
        0 <= r.3,
        r.0 + r.2 <= img_w <= i32::MAX,
        (r.1 + r.3) * img_w <= gray.len(),
    ensures
        boxes::region_spread(gray, img_w, r) == spread_of(pixels_of(gray, img_w, r)),
{
    lemma_box_samples(gray, img_w, r, r.3 as nat);
}

/// The part of a box that lies on a picture, or an empty box if none does.
pub open spec fn on_the_picture(r: Region, width: u32, height: u32) -> Region {
    let (left, top) = (boxes::max(r.0 as int, 0), boxes::max(r.1 as int, 0));
    let (right, bottom) = (
        boxes::min(r.0 + r.2, width as int),
        boxes::min(r.1 + r.3, height as int),
    );
    if left < right && top < bottom {
        (left as i32, top as i32, (right - left) as i32, (bottom - top) as i32)
    } else {
        (0, 0, 0, 0)
    }
}

proof fn lemma_row_on_picture(
    spread: Spread,
    gray: Seq<u8>,
    width: u32,
    height: u32,
    row: int,
    lo: int,
    hi: int,
)
    requires
        gray.len() == width * height,
        width <= i32::MAX,
        0 <= lo,
        0 <= row,
    ensures
        boxes::with_row(spread, gray, width, row, lo, hi) == if row < height {
            boxes::with_row(spread, gray, width, row, lo, boxes::min(hi, width as int))
        } else {
            spread
        },
    decreases hi - lo,
{
    if lo < hi {
        lemma_row_on_picture(spread, gray, width, height, row, lo, hi - 1);
        if row >= height {
            assert(row * width >= width * height) by (nonlinear_arith)
                requires
                    row >= height,
                    width >= 0,
            ;
        }
    }
}

proof fn lemma_rows_on_picture(
    gray: Seq<u8>,
    width: u32,
    height: u32,
    lo: int,
    hi: int,
    top: int,
    bottom: int,
)
    requires
        gray.len() == width * height,
        width <= i32::MAX,
        0 <= lo,
        0 <= top,
    ensures
        boxes::box_spread(gray, width, lo, hi, top, bottom) == boxes::box_spread(
            gray,
            width,
            lo,
            boxes::min(hi, width as int),
            top,
            boxes::min(bottom, height as int),
        ),
    decreases bottom - top,
{
    if top < bottom {
        lemma_rows_on_picture(gray, width, height, lo, hi, top, bottom - 1);
        let before = boxes::box_spread(gray, width, lo, hi, top, bottom - 1);
        lemma_row_on_picture(before, gray, width, height, bottom - 1, lo, hi);
        if top >= height {
            let none = boxes::box_spread(
                gray,
                width,
                lo,
                boxes::min(hi, width as int),
                top,
                boxes::min(bottom - 1, height as int),
            );
            assert(none == Spread::none());
        }
    }
}

proof fn lemma_no_columns(gray: Seq<u8>, width: u32, lo: int, hi: int, top: int, bottom: int)
    requires
        lo >= hi,
    ensures
        boxes::box_spread(gray, width, lo, hi, top, bottom) == Spread::none(),
    decreases bottom - top,
{
    if top < bottom {
        lemma_no_columns(gray, width, lo, hi, top, bottom - 1);
    }
}

/// What lies outside the picture is not sampled: a box has the samples of its part on the picture.
pub proof fn only_the_picture_is_sampled(gray: Seq<u8>, width: u32, height: u32, r: Region)
    requires
        gray.len() == width * height,
        width <= i32::MAX,
        height <= i32::MAX,
    ensures
        boxes::region_spread(gray, width, r) == spread_of(
            pixels_of(gray, width, on_the_picture(r, width, height)),
        ),
{
    let (left, top) = (boxes::max(r.0 as int, 0), boxes::max(r.1 as int, 0));
    let (right, bottom) = (
        boxes::min(r.0 + r.2, width as int),
        boxes::min(r.1 + r.3, height as int),
    );
    let inside = on_the_picture(r, width, height);
    lemma_rows_on_picture(gray, width, height, left, r.0 + r.2, top, r.1 + r.3);
    assert((inside.1 + inside.3) * width <= gray.len()) by (nonlinear_arith)
        requires
            0 <= inside.1 + inside.3 <= height,
            gray.len() == width * height,
    ;
    if left >= right {
        lemma_no_columns(gray, width, left, right, top, bottom);
    }
    boxes_are_sampled_whole(gray, width, inside);
}

} // verus!
