//! Statistics of candidate lines, and which of them stand for a divider.

use vstd::prelude::*;

use crate::sorting::{self, Order};

verus! {

/// Number of edge pixels on one column or row, with the first and the last position.
#[derive(Clone, Copy)]
pub struct LineStats {
    pub count: u32,
    pub first: Option<u32>,
    pub last: Option<u32>,
}

impl LineStats {
    /// No edge pixel yet.
    pub open spec fn none() -> LineStats {
        LineStats { count: 0, first: None, last: None }
    }

    /// These statistics with an edge pixel at `pos` added.
    pub open spec fn with(self, pos: u32) -> LineStats {
        LineStats {
            count: (self.count + 1) as u32,
            first: Some(
                match self.first {
                    Some(f) if f <= pos => f,
                    _ => pos,
                },
            ),
            last: Some(
                match self.last {
                    Some(l) if l >= pos => l,
                    _ => pos,
                },
            ),
        }
    }

    /// The statistics of the positions below `n` at which `p` holds.
    pub open spec fn of(p: spec_fn(int) -> bool, n: nat) -> LineStats
        decreases n,
    {
        if n == 0 {
            LineStats::none()
        } else {
            let before = LineStats::of(p, (n - 1) as nat);
            if p(n - 1) {
                before.with((n - 1) as u32)
            } else {
                before
            }
        }
    }

    /// Adds an edge pixel at `pos`.
    pub fn record(&mut self, pos: u32)
        requires
            old(self).count < u32::MAX,
        ensures
            *final(self) == old(self).with(pos),
    {
        self.count = self.count + 1;
        self.first = Some(
            match self.first {
                Some(f) if f <= pos => f,
                _ => pos,
            },
        );
        self.last = Some(
            match self.last {
                Some(l) if l >= pos => l,
                _ => pos,
            },
        );
    }
}

impl Default for LineStats {
    fn default() -> (s: LineStats)
        ensures
            s == LineStats::none(),
    {
        LineStats { count: 0, first: None, last: None }
    }
}

/// How many positions below `n` satisfy `p`.
pub open spec fn tally(p: spec_fn(int) -> bool, n: nat) -> nat
    decreases n,
{
    if n == 0 {
        0
    } else {
        tally(p, (n - 1) as nat) + if p(n - 1) {
            1nat
        } else {
            0nat
        }
    }
}

/// The statistics of a line count the positions at which the predicate holds, and their ends are
/// the least and the greatest of these.
pub proof fn stats_summarise_the_line(p: spec_fn(int) -> bool, n: nat)
    requires
        n <= u32::MAX,
    ensures
        LineStats::of(p, n).count == tally(p, n),
        tally(p, n) <= n,
        match (LineStats::of(p, n).first, LineStats::of(p, n).last) {
            (Some(first), Some(last)) => {
                &&& first <= last < n
                &&& p(first as int)
                &&& p(last as int)
                &&& forall|i: int| 0 <= i < n && #[trigger] p(i) ==> first <= i <= last
            },
            (None, None) => forall|i: int| 0 <= i < n ==> !#[trigger] p(i),
            _ => false,
        },
    decreases n,
{
    if n > 0 {
        stats_summarise_the_line(p, (n - 1) as nat);
    }
}

/// Whether a line stands for a divider: it is dense enough by itself, or it runs from edge to edge
/// and is there for at least a part of the way.
pub open spec fn is_divider(
    stats: LineStats,
    density_threshold: u32,
    span_threshold: u32,
    min_density: u32,
) -> bool {
    ||| stats.count >= density_threshold
    ||| stats.first is Some && stats.last is Some && stats.last->0 - stats.first->0
        >= span_threshold && stats.count >= min_density
}

/// Whether a line stands for a divider; see [`is_divider`].
pub fn qualifies(
    stats: &LineStats,
    density_threshold: u32,
    span_threshold: u32,
    min_density: u32,
) -> (r: bool)
    requires
        stats.first is Some && stats.last is Some ==> stats.first->0 <= stats.last->0,
    ensures
        r == is_divider(*stats, density_threshold, span_threshold, min_density),
{
    if stats.count >= density_threshold {
        return true;
    }
    match (stats.first, stats.last) {
        (Some(first), Some(last)) => last - first >= span_threshold && stats.count >= min_density,
        _ => false,
    }
}

/// The least whole number that is at least `percent` per cent of `n`.
pub open spec fn share(n: int, percent: int) -> int {
    (n * percent + 99) / 100
}

/// Computes [`share`].
pub fn least_share(n: u32, percent: u32) -> (r: u32)
    requires
        percent <= 100,
    ensures
        r == share(n as int, percent as int),
{
    assert(0 <= n * percent <= 100 * n) by (nonlinear_arith)
        requires
            0 <= percent <= 100,
            0 <= n,
    ;
    ((n as u64 * percent as u64 + 99) / 100) as u32
}

/// A count reaches a share exactly if it is at least that percentage.
pub proof fn a_share_is_at_least_its_percentage(count: int, n: int, percent: int)
    ensures
        count >= share(n, percent) <==> 100 * count >= percent * n,
{
    assert(n * percent == percent * n) by (nonlinear_arith);
}

/// The count of a divider must be at least 1.6 times the average count around it, as a quotient. A
/// line of text stretches as far as a divider does, but it lies in a band of rows that look alike.
pub const DIVIDER_PEAK_RATIO_NUM: u32 = 8;

pub const DIVIDER_PEAK_RATIO_DEN: u32 = 5;

/// The neighborhood of a candidate starts this far from it: past the second of the two parallel
/// lines that a rounded border draws.
pub const DIVIDER_PEAK_OFFSET_MIN: u16 = 8;

/// The neighborhood of a candidate ends this far from it.
pub const DIVIDER_PEAK_OFFSET_MAX: u16 = 28;

/// Positions within this distance of the last one kept belong to the same line.
pub const DIVIDER_MERGE_GAP: i32 = 4;

/// The sum of `counts` over the positions from `lo` up to, but not at, `hi`.
pub open spec fn sum_over(counts: Seq<u32>, lo: int, hi: int) -> int
    decreases hi - lo,
{
    if lo >= hi {
        0
    } else {
        sum_over(counts, lo, hi - 1) + counts[hi - 1]
    }
}

/// First position of the part of `lo..hi` that `counts` covers.
pub open spec fn clip_lo(lo: int) -> int {
    if lo < 0 {
        0
    } else {
        lo
    }
}

/// End of the part of `lo..hi` that `counts` covers.
pub open spec fn clip_hi(counts: Seq<u32>, lo: int, hi: int) -> int {
    let end = if hi > counts.len() {
        counts.len() as int
    } else {
        hi
    };
    if end < clip_lo(lo) {
        clip_lo(lo)
    } else {
        end
    }
}

/// Sum and number of the counts in `lo..hi`.
pub open spec fn side(counts: Seq<u32>, lo: int, hi: int) -> (int, int) {
    (sum_over(counts, clip_lo(lo), clip_hi(counts, lo, hi)), clip_hi(counts, lo, hi) - clip_lo(lo))
}

/// Whether a count stands out, where `here` against `around` is the count against `num / den` times
/// the average around it, both multiplied by the same number: it is there, and it is at least as
/// much; if the ratio is not above one, it is more.
pub open spec fn stands_out(count: int, here: int, around: int, num: int, den: int) -> bool {
    count > 0 && (here > around || here == around && num > den)
}

/// Whether the count at `index` stands out from the average around it. The average is taken on either
/// side over the offsets from `min_offset` to `max_offset`, and then over the two sides; a side
/// without any position is left out, and with neither side everything is a peak.
pub open spec fn local_peak(
    counts: Seq<u32>,
    index: int,
    min_offset: int,
    max_offset: int,
    num: int,
    den: int,
) -> bool {
    let (below, n_below) = side(counts, index - max_offset, index - min_offset + 1);
    let (above, n_above) = side(counts, index + min_offset, index + max_offset + 1);
    let count = counts[index] as int;
    if n_below > 0 && n_above > 0 {
        stands_out(
            count,
            count * den * (2 * (n_below * n_above)),
            num * (below * n_above + above * n_below),
            num,
            den,
        )
    } else if n_below > 0 {
        stands_out(count, count * den * n_below, num * below, num, den)
    } else if n_above > 0 {
        stands_out(count, count * den * n_above, num * above, num, den)
    } else {
        true
    }
}

/// Whether a position `offset` away from `index` lies on the line, on either side.
pub open spec fn has_neighbor(len: int, index: int, offset: int) -> bool {
    0 <= index - offset < len || 0 <= index + offset < len
}

/// Whether some position from `min_offset` to `max_offset` away from `index` lies on the line.
pub open spec fn has_neighborhood(len: int, index: int, min_offset: int, max_offset: int) -> bool {
    exists|offset: int|
        min_offset <= offset <= max_offset && #[trigger] has_neighbor(len, index, offset)
}

proof fn lemma_flat_sum(counts: Seq<u32>, lo: int, hi: int, c: int)
    requires
        0 <= lo <= hi <= counts.len(),
        forall|i: int| 0 <= i < counts.len() ==> #[trigger] counts[i] == c,
    ensures
        sum_over(counts, lo, hi) == c * (hi - lo),
    decreases hi - lo,
{
    if lo < hi {
        lemma_flat_sum(counts, lo, hi - 1, c);
        assert(c * (hi - lo) == c * (hi - 1 - lo) + c) by (nonlinear_arith);
    } else {
        assert(c * (hi - lo) == 0) by (nonlinear_arith)
            requires
                hi == lo,
        ;
    }
}

/// In a flat band nothing is a peak at a ratio of at least one, except where there is nothing around
/// to compare with.
pub proof fn a_flat_band_has_no_peak(
    counts: Seq<u32>,
    index: int,
    min_offset: int,
    max_offset: int,
    num: int,
    den: int,
)
    requires
        0 <= index < counts.len(),
        forall|i: int| 0 <= i < counts.len() ==> #[trigger] counts[i] == counts[index],
        0 <= min_offset <= max_offset,
        num >= den > 0,
    ensures
        local_peak(counts, index, min_offset, max_offset, num, den) == !has_neighborhood(
            counts.len() as int,
            index,
            min_offset,
            max_offset,
        ),
{
    let len = counts.len() as int;
    let c = counts[index] as int;
    let (below, n_below) = side(counts, index - max_offset, index - min_offset + 1);
    let (above, n_above) = side(counts, index + min_offset, index + max_offset + 1);
    let (b0, b1) = (
        clip_lo(index - max_offset),
        clip_hi(counts, index - max_offset, index - min_offset + 1),
    );
    let (a0, a1) = (
        clip_lo(index + min_offset),
        clip_hi(counts, index + min_offset, index + max_offset + 1),
    );
    if n_below > 0 {
        lemma_flat_sum(counts, b0, b1, c);
        assert(has_neighbor(len, index, index - b0));
    }
    if n_above > 0 {
        lemma_flat_sum(counts, a0, a1, c);
        assert(has_neighbor(len, index, a0 - index));
    }
    if has_neighborhood(len, index, min_offset, max_offset) {
        let offset = choose|offset: int|
            min_offset <= offset <= max_offset && #[trigger] has_neighbor(len, index, offset);
        assert(n_below > 0 || n_above > 0);
        let product = n_below * n_above;
        if n_below > 0 && n_above > 0 {
            assert(num * (c * n_below * n_above + c * n_above * n_below) >= c * den * (2 * (n_below
                * n_above)) && (num > den && c > 0 ==> num * (c * n_below * n_above + c * n_above
                * n_below) > c * den * (2 * (n_below * n_above)))) by {
                lemma_flat_products(c, n_below * n_above, num, den);
                assert(c * n_below * n_above == c * product && c * n_above * n_below == c
                    * product) by (nonlinear_arith)
                    requires
                        product == n_below * n_above,
                ;
                assert(product > 0) by (nonlinear_arith)
                    requires
                        product == n_below * n_above,
                        n_below > 0,
                        n_above > 0,
                ;
            }
        } else if n_below > 0 {
            lemma_flat_products(c, n_below, num, den);
        } else {
            lemma_flat_products(c, n_above, num, den);
        }
    }
}

proof fn lemma_flat_products(c: int, n: int, num: int, den: int)
    requires
        0 <= c,
        0 <= n,
        num >= den > 0,
    ensures
        num * (c * n) >= c * den * n,
        num * (c * n + c * n) >= c * den * (2 * n),
        num > den && c > 0 && n > 0 ==> num * (c * n) > c * den * n && num * (c * n + c * n) > c
            * den * (2 * n),
{
    let m = c * n;
    assert(m >= 0 && (c > 0 && n > 0 ==> m > 0)) by (nonlinear_arith)
        requires
            m == c * n,
            0 <= c,
            0 <= n,
    ;
    assert(c * den * n == den * m && c * den * (2 * n) == 2 * (den * m) && num * (m + m) == 2 * (num
        * m)) by (nonlinear_arith)
        requires
            m == c * n,
    ;
    assert(num * m >= den * m && (num > den && m > 0 ==> num * m > den * m)) by (nonlinear_arith)
        requires
            m >= 0,
            num >= den,
    ;
}

fn side_of(counts: &[u32], lo: usize, hi: usize) -> (r: (u64, u64))
    requires
        lo <= hi <= counts@.len(),
        hi - lo <= 0x1_0000,
    ensures
        r.0 == sum_over(counts@, lo as int, hi as int),
        r.1 == hi - lo,
        r.0 <= 0xffff_ffff * r.1,
{
    let mut sum: u64 = 0;
    let mut i: usize = lo;
    while i < hi
        invariant
            lo <= i <= hi <= counts@.len(),
            hi - lo <= 0x1_0000,
            sum == sum_over(counts@, lo as int, i as int),
            sum <= 0xffff_ffff * (i - lo),
        decreases hi - i,
    {
        sum = sum + counts[i] as u64;
        i = i + 1;
    }
    (sum, (hi - lo) as u64)
}

/// Whether `counts[index]` is a spike and not part of a broad band; see [`local_peak`].
pub fn is_local_peak(
    counts: &[u32],
    index: usize,
    min_offset: u16,
    max_offset: u16,
    num: u32,
    den: u32,
) -> (r: bool)
    requires
        index < counts@.len(),
    ensures
        r == local_peak(
            counts@,
            index as int,
            min_offset as int,
            max_offset as int,
            num as int,
            den as int,
        ),
{
    let len: usize = counts.len();
    let (nearest, farthest) = (min_offset as usize, max_offset as usize);
    let below: (u64, u64) = if min_offset <= max_offset && nearest <= index {
        let lo: usize = if farthest <= index {
            index - farthest
        } else {
            0
        };
        let hi: usize = if nearest == 0 {
            index + 1
        } else {
            index - (nearest - 1)
        };
        side_of(counts, lo, hi)
    } else {
        (0, 0)
    };
    let above: (u64, u64) = if min_offset <= max_offset && nearest < len - index {
        let lo: usize = index + nearest;
        let hi: usize = if farthest < len - index {
            index + farthest + 1
        } else {
            len
        };
        side_of(counts, lo, hi)
    } else {
        (0, 0)
    };
    assert(below.0 == side(counts@, index - max_offset, index - min_offset + 1).0);
    assert(below.1 == side(counts@, index - max_offset, index - min_offset + 1).1);
    assert(above.0 == side(counts@, index + min_offset, index + max_offset + 1).0);
    assert(above.1 == side(counts@, index + min_offset, index + max_offset + 1).1);
    let count: u32 = counts[index];
    assert(0 <= count * den <= 0xffff_ffff * 0xffff_ffff) by (nonlinear_arith)
        requires
            0 <= count <= 0xffff_ffff,
            0 <= den <= 0xffff_ffff,
    ;
    let here: u128 = count as u128 * den as u128;
    let (sb, nb, sa, na) = (below.0 as u128, below.1 as u128, above.0 as u128, above.1 as u128);
    if nb > 0 && na > 0 {
        assert(sb * na <= 0xffff_ffff * 0x1_0000 * 0x1_0000 && sa * nb <= 0xffff_ffff * 0x1_0000
            * 0x1_0000 && nb * na <= 0x1_0000 * 0x1_0000) by (nonlinear_arith)
            requires
                0 <= sb <= 0xffff_ffff * 0x1_0000,
                0 <= sa <= 0xffff_ffff * 0x1_0000,
                0 <= nb <= 0x1_0000,
                0 <= na <= 0x1_0000,
        ;
        let weight: u128 = 2 * (nb * na);
        let around: u128 = sb * na + sa * nb;
        assert(here * weight <= 0xffff_ffff * 0xffff_ffff * 0x2_0000_0000 && num * around
            <= 0xffff_ffff * (0xffff_ffff * 0x2_0000_0000)) by (nonlinear_arith)
            requires
                0 <= here <= 0xffff_ffff * 0xffff_ffff,
                0 <= weight <= 0x2_0000_0000,
                0 <= num <= 0xffff_ffff,
                0 <= around <= 0xffff_ffff * 0x2_0000_0000,
        ;
        let (left, right): (u128, u128) = (here * weight, num as u128 * around);
        count > 0 && (left > right || left == right && num > den)
    } else if nb > 0 || na > 0 {
        let (s, n) = if nb > 0 {
            (sb, nb)
        } else {
            (sa, na)
        };
        assert(here * n <= 0xffff_ffff * 0xffff_ffff * 0x1_0000 && num * s <= 0xffff_ffff
            * 0xffff_ffff * 0x1_0000) by (nonlinear_arith)
            requires
                0 <= here <= 0xffff_ffff * 0xffff_ffff,
                0 <= n <= 0x1_0000,
                0 <= num <= 0xffff_ffff,
                0 <= s <= 0xffff_ffff * 0x1_0000,
        ;
        let (left, right): (u128, u128) = (here * n, num as u128 * s);
        count > 0 && (left > right || left == right && num > den)
    } else {
        true
    }
}

/// Positions on an axis, in ascending order.
pub struct ByPosition;

impl Order<i32> for ByPosition {
    open spec fn key(t: i32) -> int {
        t as int
    }

    fn at_most(a: &i32, b: &i32) -> (r: bool) {
        *a <= *b
    }
}

/// The positions of `s` that lie more than `gap` behind the last one kept.
pub open spec fn thinned(s: Seq<i32>, gap: int) -> Seq<i32>
    decreases s.len(),
{
    if s.len() == 0 {
        Seq::empty()
    } else {
        let kept = thinned(s.drop_last(), gap);
        if kept.len() == 0 || s.last() - kept.last() > gap {
            kept.push(s.last())
        } else {
            kept
        }
    }
}

/// One position for each run of nearby ones.
pub open spec fn merged_positions(s: Seq<i32>, gap: int) -> Seq<i32> {
    thinned(sorting::stable_sorted::<i32, ByPosition>(s), gap)
}

/// Sorts the positions and collapses each run of nearby ones (within `gap` of the last one kept)
/// to its first.
pub fn merge_adjacent(values: &mut Vec<i32>, gap: i32)
    ensures
        final(values)@ == merged_positions(old(values)@, gap as int),
{
    sorting::stable_sort::<i32, ByPosition>(values);
    let ghost sorted = values@;
    let mut merged: Vec<i32> = Vec::new();
    let mut i: usize = 0;
    while i < values.len()
        invariant
            i <= values.len(),
            values@ == sorted,
            merged@ == thinned(sorted.take(i as int), gap as int),
        decreases values.len() - i,
    {
        let v: i32 = values[i];
        proof {
            assert(sorted.take(i + 1).drop_last() =~= sorted.take(i as int));
        }
        if merged.len() == 0 || v as i64 - merged[merged.len() - 1] as i64 > gap as i64 {
            merged.push(v);
        }
        i = i + 1;
    }
    proof {
        assert(sorted.take(i as int) =~= sorted);
    }
    *values = merged;
}

/// Each position lies more than `gap` behind the one before it.
pub open spec fn spaced(m: Seq<i32>, gap: int) -> bool {
    forall|i: int, j: int| 0 <= i < j < m.len() ==> #[trigger] m[j] - #[trigger] m[i] > gap
}

/// Some position of `m` is `v`, or lies at most `gap` before it.
pub open spec fn covered(m: Seq<i32>, v: i32, gap: int) -> bool {
    exists|i: int| 0 <= i < m.len() && #[trigger] m[i] <= v <= m[i] + gap
}

proof fn lemma_thinned(s: Seq<i32>, gap: int)
    requires
        gap >= 0,
        forall|i: int, j: int| 0 <= i <= j < s.len() ==> s[i] <= s[j],
    ensures
        spaced(thinned(s, gap), gap),
        forall|v: i32| #[trigger] thinned(s, gap).contains(v) ==> s.contains(v),
        forall|v: i32| #[trigger] s.contains(v) ==> covered(thinned(s, gap), v, gap),
        s.len() > 0 ==> thinned(s, gap).len() > 0 && thinned(s, gap).last() <= s.last(),
    decreases s.len(),
{
    if s.len() > 0 {
        let front = s.drop_last();
        let kept = thinned(front, gap);
        let m = thinned(s, gap);
        let v = s.last();
        lemma_thinned(front, gap);
        if front.len() > 0 {
            assert(s[front.len() - 1] <= s[s.len() - 1]);
        }
        assert(s =~= front.push(v));
        if m.len() == kept.len() {
            assert(m[m.len() - 1] <= v <= m[m.len() - 1] + gap);
        } else {
            assert(m[m.len() - 1] == v);
            assert forall|i: int, j: int| 0 <= i < j < m.len() implies #[trigger] m[j]
                - #[trigger] m[i] > gap by {
                if j == kept.len() && i < kept.len() - 1 {
                    assert(kept[kept.len() - 1] - kept[i] > gap);
                }
            }
        }
        assert(covered(m, v, gap));
        assert forall|u: i32| #[trigger] s.contains(u) implies covered(m, u, gap) by {
            if u != v {
                let k = choose|k: int| 0 <= k < s.len() && s[k] == u;
                assert(front[k] == u);
                assert(front.contains(u));
                let i = choose|i: int| 0 <= i < kept.len() && #[trigger] kept[i] <= u <= kept[i] + gap;
                assert(m[i] == kept[i]);
            }
        }
        assert forall|u: i32| #[trigger] m.contains(u) implies s.contains(u) by {
            let i = choose|i: int| 0 <= i < m.len() && m[i] == u;
            if i < kept.len() {
                assert(kept[i] == u);
                assert(kept.contains(u));
                let k = choose|k: int| 0 <= k < front.len() && front[k] == u;
                assert(s[k] == u);
            } else {
                assert(s[s.len() - 1] == u);
            }
        }
    }
}

/// Merging keeps given positions only, spaces them more than `gap` apart in ascending order, and
/// leaves every given position at or within `gap` behind one that it keeps.
pub proof fn merging_spaces_and_covers(s: Seq<i32>, gap: int)
    requires
        gap >= 0,
    ensures
        spaced(merged_positions(s, gap), gap),
        forall|v: i32| #[trigger] merged_positions(s, gap).contains(v) ==> s.contains(v),
        forall|v: i32| #[trigger] s.contains(v) ==> covered(merged_positions(s, gap), v, gap),
{
    let sorted = sorting::stable_sorted::<i32, ByPosition>(s);
    sorting::sorting_orders_and_permutes::<i32, ByPosition>(s);
    assert forall|i: int, j: int| 0 <= i <= j < sorted.len() implies sorted[i] <= sorted[j] by {
        assert(ByPosition::key(sorted[i]) <= ByPosition::key(sorted[j]));
    }
    lemma_thinned(sorted, gap);
    assert forall|v: i32| #[trigger] sorted.contains(v) <==> s.contains(v) by {
        s.to_multiset_ensures();
        sorted.to_multiset_ensures();
        assert(sorted.to_multiset().count(v) == s.to_multiset().count(v));
    }
    assert forall|v: i32| #[trigger] s.contains(v) implies covered(
        merged_positions(s, gap),
        v,
        gap,
    ) by {
        assert(sorted.contains(v));
    }
}

proof fn lemma_sorted_unchanged(s: Seq<i32>)
    requires
        forall|i: int, j: int| 0 <= i <= j < s.len() ==> s[i] <= s[j],
    ensures
        sorting::stable_sorted::<i32, ByPosition>(s) == s,
    decreases s.len(),
{
    if s.len() > 0 {
        lemma_sorted_unchanged(s.drop_last());
        if s.len() > 1 {
            assert(s[s.len() - 2] <= s[s.len() - 1]);
        }
        assert(s.drop_last().push(s.last()) =~= s);
    } else {
        assert(sorting::stable_sorted::<i32, ByPosition>(s) =~= s);
    }
}

proof fn lemma_spaced_unchanged(s: Seq<i32>, gap: int)
    requires
        forall|i: int, j: int| 0 <= i < j < s.len() ==> #[trigger] s[j] - #[trigger] s[i] > gap,
    ensures
        thinned(s, gap) == s,
    decreases s.len(),
{
    if s.len() > 0 {
        lemma_spaced_unchanged(s.drop_last(), gap);
        if s.len() > 1 {
            assert(s[s.len() - 1] - s[s.len() - 2] > gap);
        }
        assert(s.drop_last().push(s.last()) =~= s);
    } else {
        assert(thinned(s, gap) =~= s);
    }
}

/// Merging merged positions changes nothing.
pub proof fn merging_is_idempotent(s: Seq<i32>, gap: int)
    requires
        gap >= 0,
    ensures
        merged_positions(merged_positions(s, gap), gap) == merged_positions(s, gap),
{
    merging_spaces_and_covers(s, gap);
    lemma_sorted_unchanged(merged_positions(s, gap));
    lemma_spaced_unchanged(merged_positions(s, gap), gap);
}

} // verus!
