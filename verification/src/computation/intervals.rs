use super::disjoint_interval::{
    drop_after, ends_before, lemma_ends_before, lemma_reshape_sorted, lemma_scan_sorted, scan,
    scan_bounds, sorted_apart,
};
use vstd::prelude::*;

verus! {

/// Whether the closed interval `iv` holds `x`.
pub open spec fn in_interval(iv: (i32, i32), x: int) -> bool {
    iv.0 <= x <= iv.1
}

/// Whether some interval of `d` holds `x`.
pub open spec fn in_some(d: Seq<(i32, i32)>, x: int) -> bool {
    exists|k: int| 0 <= k < d.len() && #[trigger] in_interval(d[k], x)
}

/// The intersection of two intervals, the empty interval `(MAX, MIN)` when they are apart.
pub open spec fn meet(a: (i32, i32), b: (i32, i32)) -> (i32, i32) {
    let lo = if b.0 > a.0 { b.0 } else { a.0 };
    let hi = if b.1 < a.1 { b.1 } else { a.1 };
    if hi < lo {
        (i32::MAX, i32::MIN)
    } else {
        (lo, hi)
    }
}

/// Whether two intervals share a point (or touch at a bound).
pub open spec fn meets(a: (i32, i32), b: (i32, i32)) -> bool {
    b.0 <= a.1 && b.1 >= a.0
}

/// The intervals kept for a single interval: none if it is empty.
pub open spec fn single(iv: (i32, i32)) -> Seq<(i32, i32)> {
    if iv.1 < iv.0 {
        Seq::empty()
    } else {
        seq![iv]
    }
}

/// The union of two intervals: one interval when they meet, both otherwise.
pub open spec fn joined(a: (i32, i32), b: (i32, i32)) -> Seq<(i32, i32)> {
    if meets(a, b) {
        single((if a.0 < b.0 { a.0 } else { b.0 }, if a.1 > b.1 { a.1 } else { b.1 }))
    } else {
        seq![a, b]
    }
}

/// The complement of an interval within `[MIN, MAX]`, bounds included.
pub open spec fn outside(iv: (i32, i32)) -> Seq<(i32, i32)> {
    if iv.0 == i32::MIN && iv.1 == i32::MAX {
        single((i32::MAX, i32::MIN))
    } else if iv.0 == i32::MIN {
        single((iv.1, i32::MAX))
    } else if iv.1 == i32::MAX {
        single((i32::MIN, iv.0))
    } else {
        seq![(i32::MIN, iv.0), (iv.1, i32::MAX)]
    }
}

/// A value lies in the meet of two intervals exactly when it lies in both.
pub proof fn lemma_meet_is_intersection(a: (i32, i32), b: (i32, i32), x: int)
    ensures
        in_interval(meet(a, b), x) == (in_interval(a, x) && in_interval(b, x)),
{
}

/// A value lies in some interval of two lists put end to end exactly when it lies in some
/// interval of one of them.
pub proof fn lemma_in_some_concat(s1: Seq<(i32, i32)>, s2: Seq<(i32, i32)>, x: int)
    ensures
        in_some(s1 + s2, x) == (in_some(s1, x) || in_some(s2, x)),
{
    let s = s1 + s2;
    if in_some(s, x) {
        let k = choose|k: int| 0 <= k < s.len() && #[trigger] in_interval(s[k], x);
        if k < s1.len() {
            assert(s[k] == s1[k]);
        } else {
            assert(s[k] == s2[k - s1.len()]);
        }
    }
    if in_some(s1, x) {
        let k = choose|k: int| 0 <= k < s1.len() && #[trigger] in_interval(s1[k], x);
        assert(s[k] == s1[k]);
    }
    if in_some(s2, x) {
        let k = choose|k: int| 0 <= k < s2.len() && #[trigger] in_interval(s2[k], x);
        assert(s[k + s1.len()] == s2[k]);
    }
}

/// A value lies in the meets of `e` with the first `n` intervals of `ds` exactly when it
/// lies in `e` and in one of those intervals.
pub proof fn lemma_meets_row_holds(e: (i32, i32), ds: Seq<(i32, i32)>, n: int, x: int)
    requires
        0 <= n <= ds.len(),
    ensures
        in_some(meets_row(e, ds, n), x) == (in_interval(e, x) && exists|l: int|
            0 <= l < n && #[trigger] in_interval(ds[l], x)),
    decreases n,
{
    if n > 0 {
        lemma_meets_row_holds(e, ds, n - 1, x);
        let m = meet(e, ds[n - 1]);
        let tail = if m.1 < m.0 {
            Seq::<(i32, i32)>::empty()
        } else {
            seq![m]
        };
        lemma_in_some_concat(meets_row(e, ds, n - 1), tail, x);
        lemma_meet_is_intersection(e, ds[n - 1], x);
        if in_some(tail, x) {
            let k = choose|k: int| 0 <= k < tail.len() && #[trigger] in_interval(tail[k], x);
            assert(tail[k] == m);
        }
        if in_interval(e, x) && in_interval(ds[n - 1], x) {
            assert(!(m.1 < m.0));
            assert(in_interval(tail[0], x));
        }
        if exists|l: int| 0 <= l < n && #[trigger] in_interval(ds[l], x) {
            let l = choose|l: int| 0 <= l < n && #[trigger] in_interval(ds[l], x);
            if l < n - 1 {
                assert(exists|l2: int| 0 <= l2 < n - 1 && #[trigger] in_interval(ds[l2], x));
            }
        }
    }
}

/// A value lies in the meets of the first `n` intervals of `es` with those of `ds` exactly
/// when it lies in one of those intervals of `es` and in one of `ds`.
pub proof fn lemma_meets_all_holds(es: Seq<(i32, i32)>, ds: Seq<(i32, i32)>, n: int, x: int)
    requires
        0 <= n <= es.len(),
    ensures
        in_some(meets_all(es, ds, n), x) == ((exists|k: int| 0 <= k < n && #[trigger] in_interval(es[k], x))
            && in_some(ds, x)),
    decreases n,
{
    if n > 0 {
        lemma_meets_all_holds(es, ds, n - 1, x);
        lemma_in_some_concat(meets_all(es, ds, n - 1), meets_row(es[n - 1], ds, ds.len() as int), x);
        lemma_meets_row_holds(es[n - 1], ds, ds.len() as int, x);
        if exists|k: int| 0 <= k < n && #[trigger] in_interval(es[k], x) {
            let k = choose|k: int| 0 <= k < n && #[trigger] in_interval(es[k], x);
            if k < n - 1 {
                assert(exists|k2: int| 0 <= k2 < n - 1 && #[trigger] in_interval(es[k2], x));
            }
        }
    }
}

/// The intersections of `e` with the first `n` intervals of `ds` that are not empty.
pub open spec fn meets_row(e: (i32, i32), ds: Seq<(i32, i32)>, n: int) -> Seq<(i32, i32)>
    decreases n,
{
    if n <= 0 {
        Seq::empty()
    } else {
        let x = meet(e, ds[n - 1]);
        meets_row(e, ds, n - 1) + if x.1 < x.0 {
            Seq::empty()
        } else {
            seq![x]
        }
    }
}

/// The intersections, not empty, of each of the first `n` intervals of `es` with each
/// interval of `ds`, row by row.
pub open spec fn meets_all(es: Seq<(i32, i32)>, ds: Seq<(i32, i32)>, n: int) -> Seq<(i32, i32)>
    decreases n,
{
    if n <= 0 {
        Seq::empty()
    } else {
        meets_all(es, ds, n - 1) + meets_row(es[n - 1], ds, ds.len() as int)
    }
}

/// The intervals once `e` is merged into `d`, as `fuse` computes them.
pub open spec fn fused(d: Seq<(i32, i32)>, e: (i32, i32)) -> Seq<(i32, i32)> {
    if e.1 < e.0 {
        d
    } else if d.len() == 0 {
        seq![e]
    } else {
        let (i0, i1, c0, c1) = scan(d, e.0, e.1);
        let diff = i1 - i0;
        let s = if diff == 0 && c0 && c1 {
            d
        } else if diff == 0 && !c0 && !c1 {
            d.insert(i0, e)
        } else if c0 && c1 {
            d.update(i0, (d[i0].0, d[i1].1))
        } else if !c0 && !c1 {
            d.update(i0, e)
        } else if c0 && !c1 {
            d.update(i0, (d[i0].0, e.1))
        } else {
            d.update(i0, (e.0, d[i1].1))
        };
        if diff != 0 {
            drop_after(s, i0, diff - 1)
        } else {
            s
        }
    }
}

/// Merging `e` into ordered intervals holds exactly the values that the intervals held and
/// those of `e`.
pub proof fn lemma_fused_is_union(d: Seq<(i32, i32)>, e: (i32, i32), x: int)
    requires
        sorted_apart(d),
    ensures
        in_some(fused(d, e), x) == (in_some(d, x) || in_interval(e, x)),
{
    let r = fused(d, e);
    if e.1 < e.0 {
    } else if d.len() == 0 {
        if in_interval(e, x) {
            assert(in_interval(r[0], x));
        }
    } else {
        lemma_ends_before(d, e.0);
        lemma_ends_before(d, e.1);
        lemma_scan_sorted(d, e.0, e.1);
        let n = d.len() as int;
        let i0 = ends_before(d, e.0) as int;
        let i1 = ends_before(d, e.1) as int;
        let c0 = i0 < n && d[i0].0 <= e.0;
        let c1 = i1 < n && d[i1].0 <= e.1;
        let diff = i1 - i0;
        assert(i0 <= i1) by {
            if i0 > i1 {
                assert(d[i1].1 < e.0);
            }
        }
        if diff == 0 && c0 && c1 {
            assert(r == d);
            if in_interval(e, x) {
                assert(in_interval(d[i0], x));
            }
        } else if diff == 0 && !c0 && !c1 {
            assert(r == d.insert(i0, e));
            if in_some(r, x) {
                let k = choose|k: int| 0 <= k < r.len() && #[trigger] in_interval(r[k], x);
                if k < i0 {
                    assert(r[k] == d[k]);
                } else if k > i0 {
                    assert(r[k] == d[k - 1]);
                }
            }
            if in_some(d, x) {
                let k = choose|k: int| 0 <= k < d.len() && #[trigger] in_interval(d[k], x);
                if k < i0 {
                    assert(r[k] == d[k]);
                } else {
                    assert(r[k + 1] == d[k]);
                }
            }
            if in_interval(e, x) {
                assert(in_interval(r[i0], x));
            }
        } else {
            assert(i0 < n);
            let lo = if c0 { d[i0].0 } else { e.0 };
            let hi = if c1 { d[i1].1 } else { e.1 };
            if diff == 0 {
                assert(!c0 && c1);
            }
            let sq = d.update(i0, (lo, hi));
            let end = if diff != 0 { i1 } else { i0 + 1 };
            assert(r =~= sq.subrange(0, i0 + 1) + d.subrange(end, n));
            assert(r[i0] == (lo, hi));
            assert(lo <= e.0 && e.1 <= hi);
            if in_some(r, x) {
                let k = choose|k: int| 0 <= k < r.len() && #[trigger] in_interval(r[k], x);
                if k < i0 {
                    assert(r[k] == d[k]);
                } else if k > i0 {
                    assert(r[k] == d[k - i0 - 1 + end]);
                } else {
                    if x < e.0 {
                        assert(c0);
                        assert(in_interval(d[i0], x));
                    } else if x > e.1 {
                        assert(c1);
                        assert(in_interval(d[i1], x));
                    }
                }
            }
            if in_some(d, x) {
                let k = choose|k: int| 0 <= k < d.len() && #[trigger] in_interval(d[k], x);
                if k < i0 {
                    assert(r[k] == d[k]);
                } else if k >= end {
                    assert(r[k - end + i0 + 1] == d[k]);
                } else if k == i0 {
                    if !c0 {
                        assert(d[i0].0 > e.0);
                    }
                    if k < i1 {
                        assert(d[k].1 < e.1);
                    }
                    assert(in_interval(r[i0], x));
                } else {
                    assert(d[i0].1 < d[k].0);
                    assert(d[i0].1 >= e.0);
                    assert(d[k].1 < e.1);
                    assert(in_interval(r[i0], x));
                }
            }
            if in_interval(e, x) {
                assert(in_interval(r[i0], x));
            }
        }
    }
}

/// The intervals once each of `es` is merged into `d`, in order.
pub open spec fn fused_all(d: Seq<(i32, i32)>, es: Seq<(i32, i32)>) -> Seq<(i32, i32)>
    decreases es.len(),
{
    if es.len() == 0 {
        d
    } else {
        fused_all(fused(d, es[0]), es.drop_first())
    }
}

/// What is left of the interval `c` once `iv` is taken out of it.
pub open spec fn cut(c: (i32, i32), iv: (i32, i32)) -> Seq<(i32, i32)> {
    meets_all(single(c), outside(iv), single(c).len() as int)
}

/// The intervals of `d` that do not meet `iv`, in order.
pub open spec fn apart_from(d: Seq<(i32, i32)>, iv: (i32, i32), n: int) -> Seq<(i32, i32)>
    decreases n,
{
    if n <= 0 {
        Seq::empty()
    } else {
        apart_from(d, iv, n - 1) + if meets(d[n - 1], iv) {
            Seq::empty()
        } else {
            seq![d[n - 1]]
        }
    }
}

/// What is left of the intervals of `d` that meet `iv` once `iv` is taken out, in order.
pub open spec fn leftovers(d: Seq<(i32, i32)>, iv: (i32, i32), n: int) -> Seq<(i32, i32)>
    decreases n,
{
    if n <= 0 {
        Seq::empty()
    } else {
        leftovers(d, iv, n - 1) + if meets(d[n - 1], iv) {
            cut(d[n - 1], iv)
        } else {
            Seq::empty()
        }
    }
}

/// The intervals once `iv` is taken out of `d`, as `difference` computes them: the
/// intervals apart from `iv` stay, and what is left of the others is merged back in.
pub open spec fn without(d: Seq<(i32, i32)>, iv: (i32, i32)) -> Seq<(i32, i32)> {
    fused_all(apart_from(d, iv, d.len() as int), leftovers(d, iv, d.len() as int))
}

/// The intervals once each interval of `es` is taken out of `d`, in order.
pub open spec fn without_all(d: Seq<(i32, i32)>, es: Seq<(i32, i32)>) -> Seq<(i32, i32)>
    decreases es.len(),
{
    if es.len() == 0 {
        d
    } else {
        without_all(without(d, es[0]), es.drop_first())
    }
}

/// Merging an interval into ordered intervals leaves them ordered, each well formed and
/// apart from the next, unless the end of the new interval falls inside an interval lying
/// after the one its start reaches.
pub proof fn lemma_fuse_keeps_order(d: Seq<(i32, i32)>, e: (i32, i32))
    requires
        sorted_apart(d),
        !(scan(d, e.0, e.1).3 && scan(d, e.0, e.1).1 > scan(d, e.0, e.1).0),
    ensures
        sorted_apart(fused(d, e)),
{
    if e.0 <= e.1 && d.len() > 0 {
        lemma_ends_before(d, e.0);
        lemma_ends_before(d, e.1);
        lemma_scan_sorted(d, e.0, e.1);
        let n = d.len() as int;
        let i = ends_before(d, e.0) as int;
        let j = ends_before(d, e.1) as int;
        let a_in = i < n && d[i].0 <= e.0;
        let b_in = j < n && d[j].0 <= e.1;
        assert(i <= j) by {
            if i > j {
                assert(d[j].1 < e.0);
            }
        }
        if i > 0 {
            assert(d[i - 1].1 < e.0);
            if i < n {
                assert(d[i - 1].1 < d[i].0);
            }
        }
        if j < n {
            assert(!(d[j].1 < e.1));
        }
        if j == i && a_in && b_in {
        } else if j == i && !a_in && !b_in {
            let r = d.insert(i, e);
            assert forall|k: int| 0 <= k < r.len() implies #[trigger] r[k].0 <= r[k].1 by {
                if k > i {
                    assert(r[k] == d[k - 1]);
                } else if k < i {
                    assert(r[k] == d[k]);
                }
            }
            assert forall|k: int, l: int| 0 <= k < l < r.len() implies #[trigger] r[k].1
                < #[trigger] r[l].0 by {
                if l < i {
                    assert(r[k] == d[k] && r[l] == d[l]);
                } else if k > i {
                    assert(r[k] == d[k - 1] && r[l] == d[l - 1]);
                } else if l == i {
                    assert(r[k] == d[k]);
                    if k < i - 1 {
                        assert(d[k].1 < d[i - 1].0);
                        assert(d[i - 1].0 <= d[i - 1].1);
                    }
                } else if k == i {
                    assert(r[l] == d[l - 1]);
                    assert(d[i].0 > e.1);
                    if l - 1 > i {
                        assert(d[i].1 < d[l - 1].0);
                        assert(d[i].0 <= d[i].1);
                    }
                } else {
                    assert(r[k] == d[k] && r[l] == d[l - 1]);
                }
            }
        } else if j == i {
            if a_in {
                lemma_reshape_sorted(d, i, i, d[i].0, e.1);
                assert(drop_after(d.update(i, (d[i].0, e.1)), i, 0) =~= d.update(i, (d[i].0, e.1)));
            } else {
                lemma_reshape_sorted(d, i, i, e.0, d[i].1);
                assert(drop_after(d.update(i, (e.0, d[i].1)), i, 0) =~= d.update(i, (e.0, d[i].1)));
            }
        } else {
            if j < n {
                assert(d[j].0 > e.1);
            }
            if a_in {
                lemma_reshape_sorted(d, i, j - 1, d[i].0, e.1);
            } else {
                lemma_reshape_sorted(d, i, j - 1, e.0, e.1);
            }
        }
    }
}

/// A set of intervals, kept in a list.
#[derive(Debug, PartialEq, Clone)]
pub struct Disjoint<U> {
    pub intervals: Vec<U>,
}

/// Operations of a convex set of integers.
pub trait Convex: Sized {
    fn contains(&self, elem: &i32) -> bool;

    fn intersection(self, other: Self) -> Self;

    fn full() -> Self;

    fn is_empty(&self) -> bool;

    fn union(self, other: Self) -> Disjoint<Self>;

    fn complement(self) -> Disjoint<Self>;

    fn difference(self, other: Self) -> Disjoint<Self>;

    fn intersects(&self, other: &Self) -> bool;

    fn mut_intersect(&mut self, other: Self);

    fn covers(&self, other: &Self) -> bool;

    fn fuse(set: &mut Vec<Self>, elem: Self);

    /// Whether shifting by `dx` stays within the integers that the set is made of.
    spec fn shift_fits(&self, dx: i32) -> bool;

    fn delta(&mut self, dx: i32)
        requires
            old(self).shift_fits(dx),
    ;
}

impl<U> Disjoint<U> {
    pub fn new() -> (d: Self)
        ensures
            d.intervals@ == Seq::<U>::empty(),
    {
        Disjoint { intervals: Vec::new() }
    }

    /// The single interval, when there is exactly one.
    pub fn to_convex(self) -> (r: Option<U>)
        ensures
            self.intervals@.len() == 1 ==> r == Some(self.intervals@[0]),
            self.intervals@.len() != 1 ==> r.is_none(),
    {
        let mut s = self;
        if s.n_intervals() == 1 {
            s.intervals.pop()
        } else {
            None
        }
    }

    pub fn n_intervals(&self) -> (r: usize)
        ensures
            r == self.intervals@.len(),
    {
        self.intervals.len()
    }

    pub fn is_empty(&self) -> (r: bool)
        ensures
            r == (self.intervals@.len() == 0),
    {
        self.intervals.len() == 0
    }

    /// The set made of the intervals of `value`, as they are.
    pub fn from_vec(value: Vec<U>) -> (d: Self)
        ensures
            d.intervals@ == value@,
    {
        Disjoint { intervals: value }
    }

    /// The set made of the two intervals of `value`, as they are.
    pub fn from_pair(value: (U, U)) -> (d: Self)
        ensures
            d.intervals@ == seq![value.0, value.1],
    {
        let (a, b) = value;
        let v = vec![a, b];
        Disjoint { intervals: v }
    }
}

impl Disjoint<(i32, i32)> {
    /// The set made of one interval; no interval if it is empty.
    pub fn from_convex(value: (i32, i32)) -> (d: Self)
        ensures
            d.intervals@ == single(value),
    {
        if value.is_empty() {
            return Disjoint::new();
        }
        Disjoint { intervals: vec![value] }
    }

    pub fn contains(&self, elem: &i32) -> (r: bool)
        ensures
            r == in_some(self.intervals@, *elem as int),
    {
        let n = self.intervals.len();
        for k in 0..n
            invariant
                n == self.intervals@.len(),
                forall|l: int| 0 <= l < k ==> !in_interval(self.intervals@[l], *elem as int),
        {
            if self.intervals[k].contains(elem) {
                return true;
            }
        }
        false
    }

    /// Merges the intervals of `set` in, one at a time.
    pub fn union(self, set: Disjoint<(i32, i32)>) -> (r: Self)
        ensures
            r.intervals@ == fused_all(self.intervals@, set.intervals@),
    {
        let mut s = self;
        if set.is_empty() {
            return s;
        }
        let mut rest = set.intervals;
        let ghost all = rest@;
        let ghost start = s.intervals@;
        while rest.len() > 0
            invariant
                fused_all(start, all) == fused_all(s.intervals@, rest@),
            decreases rest@.len(),
        {
            let interval = rest.remove(0);
            <(i32, i32) as Convex>::fuse(&mut s.intervals, interval);
        }
        s
    }

    /// Takes each interval of `set` out, one at a time.
    pub fn difference(self, set: Disjoint<(i32, i32)>) -> (r: Self)
        ensures
            r.intervals@ == without_all(self.intervals@, set.intervals@),
    {
        let mut s = self;
        let mut rest = set.intervals;
        let ghost all = rest@;
        let ghost start = s.intervals@;
        while rest.len() > 0
            invariant
                without_all(start, all) == without_all(s.intervals@, rest@),
            decreases rest@.len(),
        {
            let interval = rest.remove(0);
            s = s.take_out(interval);
        }
        s
    }

    /// Takes `interval` out: the intervals meeting it are removed, and what is left of them
    /// is merged back in.
    fn take_out(self, interval: (i32, i32)) -> (r: Self)
        ensures
            r.intervals@ == without(self.intervals@, interval),
    {
        let mut s = self;
        let ghost d = s.intervals@;
        let n = s.intervals.len();
        let mut index: usize = 0;
        let mut k: usize = 0;
        let mut to_add: Vec<(i32, i32)> = Vec::new();
        while index < s.intervals.len()
            invariant
                k <= n,
                n == d.len(),
                index <= s.intervals@.len(),
                s.intervals@ == apart_from(d, interval, k as int) + d.subrange(k as int, n as int),
                index == apart_from(d, interval, k as int).len(),
                to_add@ == leftovers(d, interval, k as int),
            decreases s.intervals@.len() - index,
        {
            proof {
                assert(s.intervals@[index as int] == d[k as int]);
            }
            let current = s.intervals[index];
            if !current.intersects(&interval) {
                index += 1;
                proof {
                    assert(d.subrange(k as int, n as int) =~= seq![d[k as int]] + d.subrange(k + 1, n as int));
                    assert(s.intervals@ =~= apart_from(d, interval, k + 1) + d.subrange(k + 1, n as int));
                }
                k += 1;
                continue;
            }
            let current = s.intervals.remove(index);
            let diff = current.difference(interval);
            proof {
                assert(s.intervals@ =~= apart_from(d, interval, k + 1) + d.subrange(k + 1, n as int));
            }
            k += 1;
            if diff.is_empty() {
                continue;
            }
            let mut pieces = diff.intervals;
            to_add.append(&mut pieces);
        }
        proof {
            assert(k == n) by {
                if k < n {
                    assert(s.intervals@.len() > index);
                }
            }
            assert(d.subrange(n as int, n as int) =~= Seq::<(i32, i32)>::empty());
            assert(s.intervals@ =~= apart_from(d, interval, n as int));
        }
        let mut res = s;
        let mut rest = to_add;
        let ghost all = rest@;
        let ghost start = res.intervals@;
        while rest.len() > 0
            invariant
                fused_all(start, all) == fused_all(res.intervals@, rest@),
            decreases rest@.len(),
        {
            let new_interv = rest.remove(0);
            res = res.union(Disjoint::from_convex(new_interv));
            proof {
                reveal_with_fuel(fused_all, 2);
            }
        }
        res
    }

    /// The intersections of each interval of `set` with each interval of this set, row by
    /// row, leaving out the empty ones.
    pub fn intersection(self, set: Disjoint<(i32, i32)>) -> (r: Self)
        ensures
            r.intervals@ == meets_all(set.intervals@, self.intervals@, set.intervals@.len() as int),
            forall|x: int|
                #[trigger] in_some(r.intervals@, x) == (in_some(self.intervals@, x) && in_some(
                    set.intervals@,
                    x,
                )),
    {
        let mut new_intervals: Vec<(i32, i32)> = Vec::new();
        let n = set.intervals.len();
        let m = self.intervals.len();
        for k in 0..n
            invariant
                n == set.intervals@.len(),
                m == self.intervals@.len(),
                new_intervals@ == meets_all(set.intervals@, self.intervals@, k as int),
        {
            let interval = set.intervals[k];
            let mut in_this: Vec<(i32, i32)> = Vec::new();
            for l in 0..m
                invariant
                    m == self.intervals@.len(),
                    interval == set.intervals@[k as int],
                    in_this@ == meets_row(interval, self.intervals@, l as int),
            {
                let inters = interval.intersection(self.intervals[l]);
                if !inters.is_empty() {
                    in_this.push(inters);
                }
            }
            new_intervals.append(&mut in_this);
        }
        proof {
            assert forall|x: int|
                #[trigger] in_some(new_intervals@, x) == (in_some(self.intervals@, x) && in_some(
                    set.intervals@,
                    x,
                )) by {
                lemma_meets_all_holds(set.intervals@, self.intervals@, n as int, x);
            }
        }
        Disjoint { intervals: new_intervals }
    }

    /// Whether an interval of `set` meets an interval of this set.
    pub fn intersects(&self, set: &Disjoint<(i32, i32)>) -> (r: bool)
        ensures
            r == exists|k: int, l: int|
                0 <= k < set.intervals@.len() && 0 <= l < self.intervals@.len() && #[trigger] meets(
                    set.intervals@[k],
                    #[trigger] self.intervals@[l],
                ),
    {
        let n = set.intervals.len();
        let m = self.intervals.len();
        for k in 0..n
            invariant
                n == set.intervals@.len(),
                m == self.intervals@.len(),
                forall|a: int, b: int|
                    0 <= a < k && 0 <= b < m ==> !meets(set.intervals@[a], self.intervals@[b]),
        {
            for l in 0..m
                invariant
                    n == set.intervals@.len(),
                    m == self.intervals@.len(),
                    k < n,
                    forall|a: int, b: int|
                        0 <= a < k && 0 <= b < m ==> !meets(set.intervals@[a], self.intervals@[b]),
                    forall|b: int| 0 <= b < l ==> !meets(set.intervals@[k as int], self.intervals@[b]),
            {
                if set.intervals[k].intersects(&self.intervals[l]) {
                    return true;
                }
            }
        }
        false
    }

    /// Everything but this set: each of its intervals taken out of `[MIN, MAX]` in turn.
    pub fn complement(self) -> (r: Self)
        ensures
            r.intervals@ == without_all(single((i32::MIN, i32::MAX)), self.intervals@),
    {
        let full = Disjoint::from_convex(<(i32, i32) as Convex>::full());
        full.difference(self)
    }

    /// Shifts every interval by `dx`.
    pub fn delta(&mut self, dx: i32)
        requires
            forall|k: int|
                0 <= k < old(self).intervals@.len() ==> (#[trigger] old(self).intervals@[k]).shift_fits(dx),
        ensures
            final(self).intervals@.len() == old(self).intervals@.len(),
            forall|k: int|
                0 <= k < final(self).intervals@.len() ==> #[trigger] final(self).intervals@[k] == (
                    (old(self).intervals@[k].0 + dx) as i32,
                    (old(self).intervals@[k].1 + dx) as i32,
                ),
    {
        let n = self.intervals.len();
        for k in 0..n
            invariant
                n == old(self).intervals@.len(),
                self.intervals@.len() == n,
                forall|l: int| k <= l < n ==> self.intervals@[l] == old(self).intervals@[l],
                forall|l: int| 0 <= l < n ==> (#[trigger] old(self).intervals@[l]).shift_fits(dx),
                forall|l: int|
                    0 <= l < k ==> #[trigger] self.intervals@[l] == (
                        (old(self).intervals@[l].0 + dx) as i32,
                        (old(self).intervals@[l].1 + dx) as i32,
                    ),
        {
            let mut iv = self.intervals[k];
            iv.delta(dx);
            self.intervals.set(k, iv);
        }
    }
}

impl Convex for (i32, i32) {
    fn contains(&self, elem: &i32) -> (r: bool)
        ensures
            r == in_interval(*self, *elem as int),
    {
        (self.0 <= *elem) && (*elem <= self.1)
    }

    fn intersection(self, other: Self) -> (r: Self)
        ensures
            r == meet(self, other),
            forall|x: int| #[trigger] in_interval(r, x) == (in_interval(self, x) && in_interval(other, x)),
    {
        proof {
            assert forall|x: int| #[trigger] in_interval(meet(self, other), x) == (in_interval(self, x)
                && in_interval(other, x)) by {
                lemma_meet_is_intersection(self, other, x);
            }
        }
        let inter = (
            if other.0 > self.0 {
                other.0
            } else {
                self.0
            },
            if other.1 < self.1 {
                other.1
            } else {
                self.1
            },
        );
        if inter.is_empty() {
            (i32::MAX, i32::MIN)
        } else {
            inter
        }
    }

    fn full() -> (r: Self)
        ensures
            r == (i32::MIN, i32::MAX),
    {
        (i32::MIN, i32::MAX)
    }

    fn is_empty(&self) -> (r: bool)
        ensures
            r == (self.1 < self.0),
    {
        self.1 < self.0
    }

    fn union(self, other: Self) -> (r: Disjoint<Self>)
        ensures
            r.intervals@ == joined(self, other),
    {
        if self.intersects(&other) {
            return Disjoint::from_convex(
                (
                    if self.0 < other.0 {
                        self.0
                    } else {
                        other.0
                    },
                    if self.1 > other.1 {
                        self.1
                    } else {
                        other.1
                    },
                ),
            );
        }
        Disjoint::from_pair((self, other))
    }

    fn complement(self) -> (r: Disjoint<Self>)
        ensures
            r.intervals@ == outside(self),
    {
        if self.0 == i32::MIN && self.1 == i32::MAX {
            Disjoint::from_convex((i32::MAX, i32::MIN))
        } else if self.0 == i32::MIN {
            Disjoint::from_convex((self.1, i32::MAX))
        } else if self.1 == i32::MAX {
            Disjoint::from_convex((i32::MIN, self.0))
        } else {
            Disjoint::from_pair(((i32::MIN, self.0), (self.1, i32::MAX)))
        }
    }

    fn difference(self, other: Self) -> (r: Disjoint<Self>)
        ensures
            r.intervals@ == cut(self, other),
    {
        let disj = other.complement();
        disj.intersection(Disjoint::from_convex(self))
    }

    fn intersects(&self, other: &Self) -> (r: bool)
        ensures
            r == meets(*self, *other),
    {
        (other.0 <= self.1) && (other.1 >= self.0)
    }

    fn mut_intersect(&mut self, other: Self)
        ensures
            *final(self) == meet(*old(self), other),
            forall|x: int| #[trigger] in_interval(*final(self), x) == (in_interval(*old(self), x) && in_interval(
                other,
                x,
            )),
    {
        proof {
            assert forall|x: int| #[trigger] in_interval(meet(*self, other), x) == (in_interval(*self, x)
                && in_interval(other, x)) by {
                lemma_meet_is_intersection(*self, other, x);
            }
        }
        if other.0 > self.0 {
            self.0 = other.0
        }
        if other.1 < self.1 {
            self.1 = other.1
        }
        if self.is_empty() {
            self.0 = i32::MAX;
            self.1 = i32::MIN;
        }
    }

    fn covers(&self, other: &Self) -> (r: bool)
        ensures
            r == (self.0 <= other.0 && self.1 >= other.1),
    {
        self.0 <= other.0 && self.1 >= other.1
    }

    fn fuse(set: &mut Vec<Self>, elem: Self)
        ensures
            final(set)@ == fused(old(set)@, elem),
    {
        if elem.is_empty() {
            return;
        }
        if set.len() == 0 {
            set.push(elem);
            return;
        }
        let ghost d = set@;
        let (i0, i1, c0, c1) = scan_bounds(set, elem.0, elem.1);
        let diff = i1 - i0;
        if diff == 0 && c0 && c1 {
        } else if diff == 0 && !c0 && !c1 {
            set.insert(i0, elem);
        } else if c0 && c1 {
            let begin = set[i0].0;
            let end = set[i1].1;
            set.set(i0, (begin, end));
        } else if !c0 && !c1 {
            set.set(i0, elem);
        } else if c0 && !c1 {
            let begin = set[i0].0;
            set.set(i0, (begin, elem.1));
        } else {
            let end = set[i1].1;
            set.set(i0, (elem.0, end));
        }
        if diff != 0 {
            let ghost s = set@;
            let ghost fi = i0 as int;
            proof {
                assert(drop_after(s, fi, 0) =~= s);
            }
            for t in 0..(diff - 1)
                invariant
                    fi == i0,
                    diff == i1 - i0,
                    i1 <= d.len(),
                    diff >= 1,
                    s.len() == d.len(),
                    set@ == drop_after(s, fi, t as int),
            {
                proof {
                    let len = s.len() as int;
                    assert(t < diff - 1);
                    assert(fi + 1 + t < len);
                    assert(set@ =~= s.subrange(0, fi + 1) + s.subrange(fi + 1 + t, len));
                }
                set.remove(i0 + 1);
                proof {
                    assert(set@ =~= drop_after(s, fi, t + 1));
                }
            }
        }
    }

    open spec fn shift_fits(&self, dx: i32) -> bool {
        i32::MIN <= self.0 + dx <= i32::MAX && i32::MIN <= self.1 + dx <= i32::MAX
    }

    fn delta(&mut self, dx: i32)
        ensures
            final(self).0 == old(self).0 + dx,
            final(self).1 == old(self).1 + dx,
    {
        self.0 += dx;
        self.1 += dx;
    }
}

/// A set of integers: empty, one interval, or a list of intervals.
#[derive(Debug, PartialEq, Clone)]
pub enum ContinuousSet<U> {
    EmptySet,
    ConvexSet(U),
    DisjointSet(Disjoint<U>),
}

/// The intervals that make up a set.
pub open spec fn pieces(s: ContinuousSet<(i32, i32)>) -> Seq<(i32, i32)> {
    match s {
        ContinuousSet::EmptySet => Seq::empty(),
        ContinuousSet::ConvexSet(c) => seq![c],
        ContinuousSet::DisjointSet(d) => d.intervals@,
    }
}

/// Whether `s` is the set that the intervals `d` make, in the form that `From` gives: empty
/// for no interval or one empty interval, one interval for one, a list for more.
pub open spec fn made_of(s: ContinuousSet<(i32, i32)>, d: Seq<(i32, i32)>) -> bool {
    match s {
        ContinuousSet::EmptySet => d.len() == 0 || (d.len() == 1 && d[0].1 < d[0].0),
        ContinuousSet::ConvexSet(c) => d.len() == 1 && c == d[0] && !(c.1 < c.0),
        ContinuousSet::DisjointSet(x) => d.len() > 1 && x.intervals@ == d,
    }
}

impl ContinuousSet<(i32, i32)> {
    pub fn new() -> (s: Self)
        ensures
            s == ContinuousSet::<(i32, i32)>::EmptySet,
    {
        ContinuousSet::EmptySet
    }

    /// The set holding the interval `value`, empty if it is empty.
    pub fn from_convex(value: (i32, i32)) -> (s: Self)
        ensures
            made_of(s, seq![value]),
    {
        if value.is_empty() {
            ContinuousSet::EmptySet
        } else {
            ContinuousSet::ConvexSet(value)
        }
    }

    /// The set made of the intervals of `value`.
    pub fn from_disjoint(value: Disjoint<(i32, i32)>) -> (s: Self)
        ensures
            made_of(s, value.intervals@),
    {
        if value.is_empty() {
            ContinuousSet::EmptySet
        } else if value.n_intervals() == 1 {
            let c = value.to_convex();
            match c {
                Some(c) => Self::from_convex(c),
                None => ContinuousSet::EmptySet,
            }
        } else {
            ContinuousSet::DisjointSet(value)
        }
    }

    /// The set made of the intervals of `value`.
    pub fn from_vec(value: Vec<(i32, i32)>) -> (s: Self)
        ensures
            made_of(s, value@),
    {
        Self::from_disjoint(Disjoint::from_vec(value))
    }

    pub fn contains(&self, elem: &i32) -> (r: bool)
        ensures
            r == in_some(pieces(*self), *elem as int),
    {
        match self {
            ContinuousSet::EmptySet => false,
            ContinuousSet::ConvexSet(c) => {
                let r = c.contains(elem);
                proof {
                    if r {
                        assert(in_interval(seq![*c][0], *elem as int));
                    }
                }
                r
            },
            ContinuousSet::DisjointSet(d) => d.contains(elem),
        }
    }

    pub fn is_convex(&self) -> (r: bool)
        ensures
            r == !(*self is DisjointSet),
    {
        match self {
            ContinuousSet::EmptySet => true,
            ContinuousSet::ConvexSet(_) => true,
            ContinuousSet::DisjointSet(_) => false,
        }
    }

    pub fn intersection(self, other: Self) -> (r: Self)
        ensures
            match (self, other) {
                (ContinuousSet::EmptySet, _) => r is EmptySet,
                (_, ContinuousSet::EmptySet) => r is EmptySet,
                (ContinuousSet::ConvexSet(c), ContinuousSet::ConvexSet(c2)) => made_of(
                    r,
                    seq![meet(c, c2)],
                ),
                (ContinuousSet::DisjointSet(d), ContinuousSet::DisjointSet(d2)) => made_of(
                    r,
                    meets_all(d2.intervals@, d.intervals@, d2.intervals@.len() as int),
                ),
                (ContinuousSet::ConvexSet(c), ContinuousSet::DisjointSet(d)) => made_of(
                    r,
                    meets_all(single(c), d.intervals@, single(c).len() as int),
                ),
                (ContinuousSet::DisjointSet(d), ContinuousSet::ConvexSet(c)) => made_of(
                    r,
                    meets_all(single(c), d.intervals@, single(c).len() as int),
                ),
            },
    {
        match (self, other) {
            (ContinuousSet::EmptySet, _) => ContinuousSet::EmptySet,
            (_, ContinuousSet::EmptySet) => ContinuousSet::EmptySet,
            (ContinuousSet::ConvexSet(c), ContinuousSet::ConvexSet(c2)) => Self::from_convex(
                c.intersection(c2),
            ),
            (ContinuousSet::DisjointSet(d), ContinuousSet::DisjointSet(d2)) => Self::from_disjoint(
                d.intersection(d2),
            ),
            (ContinuousSet::ConvexSet(c), ContinuousSet::DisjointSet(d)) | (
                ContinuousSet::DisjointSet(d),
                ContinuousSet::ConvexSet(c),
            ) => Self::from_disjoint(d.intersection(Disjoint::from_convex(c))),
        }
    }

    pub fn full() -> (s: Self)
        ensures
            s == ContinuousSet::ConvexSet((i32::MIN, i32::MAX)),
    {
        ContinuousSet::ConvexSet(<(i32, i32) as Convex>::full())
    }

    pub fn is_empty(&self) -> (r: bool)
        ensures
            r == (*self is EmptySet),
    {
        match self {
            ContinuousSet::EmptySet => true,
            _ => false,
        }
    }

    pub fn union(self, other: Self) -> (r: Self)
        ensures
            match (self, other) {
                (ContinuousSet::EmptySet, o) => r == o,
                (s, ContinuousSet::EmptySet) => r == s,
                (ContinuousSet::ConvexSet(c), ContinuousSet::ConvexSet(c2)) => made_of(
                    r,
                    joined(c, c2),
                ),
                (ContinuousSet::DisjointSet(d), ContinuousSet::DisjointSet(d2)) => made_of(
                    r,
                    fused_all(d.intervals@, d2.intervals@),
                ),
                (ContinuousSet::ConvexSet(c), ContinuousSet::DisjointSet(d)) => made_of(
                    r,
                    fused_all(d.intervals@, single(c)),
                ),
                (ContinuousSet::DisjointSet(d), ContinuousSet::ConvexSet(c)) => made_of(
                    r,
                    fused_all(d.intervals@, single(c)),
                ),
            },
    {
        match (self, other) {
            (ContinuousSet::EmptySet, o) => o,
            (s, ContinuousSet::EmptySet) => s,
            (ContinuousSet::ConvexSet(c), ContinuousSet::ConvexSet(c2)) => Self::from_disjoint(
                c.union(c2),
            ),
            (ContinuousSet::DisjointSet(d), ContinuousSet::DisjointSet(d2)) => Self::from_disjoint(
                d.union(d2),
            ),
            (ContinuousSet::ConvexSet(c), ContinuousSet::DisjointSet(d)) | (
                ContinuousSet::DisjointSet(d),
                ContinuousSet::ConvexSet(c),
            ) => Self::from_disjoint(d.union(Disjoint::from_convex(c))),
        }
    }

    pub fn complement(self) -> (r: Self)
        ensures
            match self {
                ContinuousSet::EmptySet => r == ContinuousSet::ConvexSet((i32::MIN, i32::MAX)),
                ContinuousSet::ConvexSet(c) => made_of(r, outside(c)),
                ContinuousSet::DisjointSet(d) => made_of(
                    r,
                    without_all(single((i32::MIN, i32::MAX)), d.intervals@),
                ),
            },
    {
        match self {
            ContinuousSet::EmptySet => Self::full(),
            ContinuousSet::ConvexSet(c) => Self::from_disjoint(c.complement()),
            ContinuousSet::DisjointSet(d) => Self::from_disjoint(d.complement()),
        }
    }

    pub fn intersects(&self, other: &Self) -> (r: bool)
        ensures
            match (*self, *other) {
                (ContinuousSet::EmptySet, _) => !r,
                (_, ContinuousSet::EmptySet) => !r,
                (ContinuousSet::ConvexSet(c), ContinuousSet::ConvexSet(c2)) => r == meets(c, c2),
                (ContinuousSet::DisjointSet(d), ContinuousSet::DisjointSet(d2)) => r == exists|
                    k: int,
                    l: int,
                |
                    0 <= k < d2.intervals@.len() && 0 <= l < d.intervals@.len() && #[trigger] meets(
                        d2.intervals@[k],
                        #[trigger] d.intervals@[l],
                    ),
                (ContinuousSet::ConvexSet(c), ContinuousSet::DisjointSet(d)) => r == exists|
                    k: int,
                    l: int,
                |
                    0 <= k < single(c).len() && 0 <= l < d.intervals@.len() && #[trigger] meets(
                        single(c)[k],
                        #[trigger] d.intervals@[l],
                    ),
                (ContinuousSet::DisjointSet(d), ContinuousSet::ConvexSet(c)) => r == exists|
                    k: int,
                    l: int,
                |
                    0 <= k < single(c).len() && 0 <= l < d.intervals@.len() && #[trigger] meets(
                        single(c)[k],
                        #[trigger] d.intervals@[l],
                    ),
            },
    {
        match (self, other) {
            (ContinuousSet::EmptySet, _) => false,
            (_, ContinuousSet::EmptySet) => false,
            (ContinuousSet::ConvexSet(c), ContinuousSet::ConvexSet(c2)) => c.intersects(c2),
            (ContinuousSet::DisjointSet(d), ContinuousSet::DisjointSet(d2)) => d.intersects(d2),
            (ContinuousSet::ConvexSet(c), ContinuousSet::DisjointSet(d)) | (
                ContinuousSet::DisjointSet(d),
                ContinuousSet::ConvexSet(c),
            ) => d.intersects(&Disjoint::from_convex(*c)),
        }
    }

    /// Shifts the set by `dx`.
    pub fn delta(&mut self, dx: i32)
        requires
            forall|k: int|
                0 <= k < pieces(*old(self)).len() ==> (#[trigger] pieces(*old(self))[k]).shift_fits(dx),
        ensures
            pieces(*final(self)).len() == pieces(*old(self)).len(),
            (*final(self) is EmptySet) == (*old(self) is EmptySet),
            (*final(self) is ConvexSet) == (*old(self) is ConvexSet),
            forall|k: int|
                0 <= k < pieces(*final(self)).len() ==> #[trigger] pieces(*final(self))[k] == (
                    (pieces(*old(self))[k].0 + dx) as i32,
                    (pieces(*old(self))[k].1 + dx) as i32,
                ),
    {
        match self {
            ContinuousSet::EmptySet => {},
            ContinuousSet::ConvexSet(c) => {
                assert(pieces(*old(self))[0] == *c);
                c.delta(dx);
            },
            ContinuousSet::DisjointSet(d) => {
                assert(pieces(*old(self)) == d.intervals@);
                d.delta(dx);
            },
        }
    }

    /// The intervals of the set, in order.
    pub fn convexs(&self) -> (r: Vec<(i32, i32)>)
        ensures
            r@ == pieces(*self),
    {
        match self {
            ContinuousSet::EmptySet => {
                let v: Vec<(i32, i32)> = Vec::new();
                assert(v@ =~= pieces(*self));
                v
            },
            ContinuousSet::ConvexSet(c) => {
                let v = vec![*c];
                assert(v@ =~= pieces(*self));
                v
            },
            ContinuousSet::DisjointSet(d) => {
                let mut v: Vec<(i32, i32)> = Vec::new();
                let n = d.intervals.len();
                for k in 0..n
                    invariant
                        n == d.intervals@.len(),
                        v@ == d.intervals@.subrange(0, k as int),
                {
                    v.push(d.intervals[k]);
                }
                assert(v@ =~= pieces(*self));
                v
            },
        }
    }
}

} // verus!
