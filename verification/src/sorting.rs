//! Stable sorting by an integer key.

use vstd::prelude::*;

verus! {

/// An order on `T`, given by an integer key.
pub trait Order<T> {
    /// The key that `t` is sorted by.
    spec fn key(t: T) -> int;

    /// Whether `a` may stand before `b`.
    fn at_most(a: &T, b: &T) -> (r: bool)
        ensures
            r == (Self::key(*a) <= Self::key(*b)),
    ;
}

/// `s` with `t` put behind the last item whose key is at most that of `t`.
pub open spec fn inserted<T, O: Order<T>>(s: Seq<T>, t: T) -> Seq<T>
    decreases s.len(),
{
    if s.len() == 0 || O::key(s.last()) <= O::key(t) {
        s.push(t)
    } else {
        inserted::<T, O>(s.drop_last(), t).push(s.last())
    }
}

/// `s` sorted by key; items with equal keys keep their order.
pub open spec fn stable_sorted<T, O: Order<T>>(s: Seq<T>) -> Seq<T>
    decreases s.len(),
{
    if s.len() == 0 {
        Seq::empty()
    } else {
        inserted::<T, O>(stable_sorted::<T, O>(s.drop_last()), s.last())
    }
}

/// Keys never decrease along `s`.
pub open spec fn ascending<T, O: Order<T>>(s: Seq<T>) -> bool {
    forall|i: int, j: int| 0 <= i <= j < s.len() ==> O::key(#[trigger] s[i]) <= O::key(#[trigger] s[j])
}

proof fn lemma_inserted_at<T, O: Order<T>>(s: Seq<T>, t: T, at: int)
    requires
        0 <= at <= s.len(),
        at > 0 ==> O::key(s[at - 1]) <= O::key(t),
        forall|k: int| at <= k < s.len() ==> O::key(#[trigger] s[k]) > O::key(t),
    ensures
        inserted::<T, O>(s, t) == s.insert(at, t),
    decreases s.len(),
{
    if at == s.len() {
        assert(s.insert(at, t) =~= s.push(t));
    } else {
        assert(O::key(s.last()) > O::key(t));
        lemma_inserted_at::<T, O>(s.drop_last(), t, at);
        assert(s.drop_last().insert(at, t).push(s.last()) =~= s.insert(at, t));
    }
}

/// Sorts `items`; items with equal keys keep their order.
pub fn stable_sort<T: Copy, O: Order<T>>(items: &mut Vec<T>)
    ensures
        final(items)@ == stable_sorted::<T, O>(old(items)@),
{
    let ghost input = items@;
    let mut out: Vec<T> = Vec::new();
    let mut i: usize = 0;
    while i < items.len()
        invariant
            items@ == input,
            i <= items.len(),
            out@ == stable_sorted::<T, O>(input.take(i as int)),
        decreases items.len() - i,
    {
        let t: T = items[i];
        let mut at: usize = out.len();
        while at > 0 && !O::at_most(&out[at - 1], &t)
            invariant
                at <= out.len(),
                forall|k: int| at <= k < out@.len() ==> O::key(#[trigger] out@[k]) > O::key(t),
            decreases at,
        {
            at = at - 1;
        }
        proof {
            lemma_inserted_at::<T, O>(out@, t, at as int);
            assert(input.take(i + 1).drop_last() =~= input.take(i as int));
            assert(input.take(i + 1).last() == t);
        }
        out.insert(at, t);
        i = i + 1;
    }
    proof {
        assert(input.take(i as int) =~= input);
    }
    *items = out;
}

proof fn lemma_inserted_keeps<T, O: Order<T>>(s: Seq<T>, t: T)
    requires
        ascending::<T, O>(s),
    ensures
        ascending::<T, O>(inserted::<T, O>(s, t)),
        inserted::<T, O>(s, t).len() == s.len() + 1,
        inserted::<T, O>(s, t).to_multiset() == s.to_multiset().insert(t),
        inserted::<T, O>(s, t).last() == if s.len() > 0 && O::key(s.last()) > O::key(t) {
            s.last()
        } else {
            t
        },
    decreases s.len(),
{
    broadcast use vstd::seq_lib::group_to_multiset_ensures;

    if s.len() == 0 || O::key(s.last()) <= O::key(t) {
        let r = s.push(t);
        assert forall|i: int, j: int| 0 <= i <= j < r.len() implies O::key(#[trigger] r[i]) <= O::key(
            #[trigger] r[j],
        ) by {
            if j == s.len() && i < s.len() {
                assert(O::key(s[i]) <= O::key(s[s.len() - 1]));
            }
        }
    } else {
        let front = s.drop_last();
        lemma_inserted_keeps::<T, O>(front, t);
        let m = inserted::<T, O>(front, t);
        let r = m.push(s.last());
        assert(O::key(m.last()) <= O::key(s.last()));
        assert forall|i: int, j: int| 0 <= i <= j < r.len() implies O::key(#[trigger] r[i]) <= O::key(
            #[trigger] r[j],
        ) by {
            if j == m.len() && i < m.len() {
                assert(O::key(m[i]) <= O::key(m[m.len() - 1]));
            }
        }
        assert(front.push(s.last()) =~= s);
        assert(r.to_multiset() =~= s.to_multiset().insert(t));
    }
}

/// Sorting permutes the items and leaves their keys in ascending order.
pub proof fn sorting_orders_and_permutes<T, O: Order<T>>(s: Seq<T>)
    ensures
        ascending::<T, O>(stable_sorted::<T, O>(s)),
        stable_sorted::<T, O>(s).to_multiset() == s.to_multiset(),
        stable_sorted::<T, O>(s).len() == s.len(),
    decreases s.len(),
{
    broadcast use vstd::seq_lib::group_to_multiset_ensures;

    if s.len() == 0 {
        assert(stable_sorted::<T, O>(s) =~= s);
    } else {
        sorting_orders_and_permutes::<T, O>(s.drop_last());
        lemma_inserted_keeps::<T, O>(stable_sorted::<T, O>(s.drop_last()), s.last());
        assert(s.drop_last().push(s.last()) =~= s);
    }
}

proof fn lemma_filter_push<T>(s: Seq<T>, t: T, p: spec_fn(T) -> bool)
    ensures
        s.push(t).filter(p) == if p(t) {
            s.filter(p).push(t)
        } else {
            s.filter(p)
        },
{
    reveal(Seq::filter);
    assert(s.push(t).drop_last() =~= s);
}

proof fn lemma_inserted_filter<T, O: Order<T>>(s: Seq<T>, t: T, k: int)
    ensures
        inserted::<T, O>(s, t).filter(|x: T| O::key(x) == k) == s.push(t).filter(
            |x: T| O::key(x) == k,
        ),
    decreases s.len(),
{
    let p = |x: T| O::key(x) == k;
    if s.len() > 0 && O::key(s.last()) > O::key(t) {
        let front = s.drop_last();
        lemma_inserted_filter::<T, O>(front, t, k);
        lemma_filter_push(inserted::<T, O>(front, t), s.last(), p);
        lemma_filter_push(front, t, p);
        lemma_filter_push(front, s.last(), p);
        lemma_filter_push(s, t, p);
        assert(front.push(s.last()) =~= s);
    }
}

/// Sorting is stable: the items of any one key come out in the order in which they went in.
pub proof fn sorting_is_stable<T, O: Order<T>>(s: Seq<T>, k: int)
    ensures
        stable_sorted::<T, O>(s).filter(|x: T| O::key(x) == k) == s.filter(|x: T| O::key(x) == k),
    decreases s.len(),
{
    if s.len() == 0 {
        assert(stable_sorted::<T, O>(s) =~= s);
    } else {
        let front = s.drop_last();
        let sorted = stable_sorted::<T, O>(front);
        let p = |x: T| O::key(x) == k;
        sorting_is_stable::<T, O>(front, k);
        lemma_inserted_filter::<T, O>(sorted, s.last(), k);
        lemma_filter_push(sorted, s.last(), p);
        lemma_filter_push(front, s.last(), p);
        assert(front.push(s.last()) =~= s);
    }
}

} // verus!
