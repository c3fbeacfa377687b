use crate::models::node::{signed_decimal, signed_decimal_text};
use vstd::prelude::*;
use vstd::string::StringExecFns;

verus! {

/// Whether the intervals are ordered, each well formed and apart from the next one.
pub open spec fn sorted_apart(d: Seq<(i32, i32)>) -> bool {
    &&& forall|k: int| 0 <= k < d.len() ==> #[trigger] d[k].0 <= d[k].1
    &&& forall|k: int, l: int| 0 <= k < l < d.len() ==> #[trigger] d[k].1 < #[trigger] d[l].0
}

/// Membership as read off an ordered list: the first interval not ending before `x`
/// decides whether it holds `x`.
pub open spec fn scan_contains(d: Seq<(i32, i32)>, x: i32) -> bool
    decreases d.len(),
{
    if d.len() == 0 {
        false
    } else if x < d[0].0 {
        false
    } else if x <= d[0].1 {
        true
    } else {
        scan_contains(d.drop_first(), x)
    }
}

/// Number of leading intervals that end before `x`.
pub open spec fn ends_before(d: Seq<(i32, i32)>, x: i32) -> nat
    decreases d.len(),
{
    if d.len() == 0 {
        0
    } else if d[0].1 < x {
        1 + ends_before(d.drop_first(), x)
    } else {
        0
    }
}

/// The point at offset `remain` when the intervals are laid end to end; past the end,
/// the offset left over.
pub open spec fn locate(d: Seq<(i32, i32)>, remain: int) -> int
    decreases d.len(),
{
    if d.len() == 0 {
        remain
    } else if remain > d[0].1 - d[0].0 {
        locate(d.drop_first(), remain - (d[0].1 - d[0].0))
    } else {
        d[0].0 + remain
    }
}

/// Whether every value computed by `locate` fits in `i32`.
pub open spec fn locate_fits(d: Seq<(i32, i32)>, remain: int) -> bool
    decreases d.len(),
{
    if d.len() == 0 {
        true
    } else {
        let l = d[0].1 - d[0].0;
        &&& i32::MIN <= l <= i32::MAX
        &&& if remain > l {
            &&& i32::MIN <= remain - l <= i32::MAX
            &&& locate_fits(d.drop_first(), remain - l)
        } else {
            i32::MIN <= d[0].0 + remain <= i32::MAX
        }
    }
}

/// Sum of the lengths of the first `n` intervals.
pub open spec fn total_len(d: Seq<(i32, i32)>, n: int) -> int
    decreases n,
{
    if n <= 0 {
        0
    } else {
        total_len(d, n - 1) + d[n - 1].1 - d[n - 1].0
    }
}

/// Whether every partial sum computed for the total length fits in `i32`.
pub open spec fn total_len_fits(d: Seq<(i32, i32)>) -> bool {
    forall|n: int|
        0 <= n < d.len() ==> {
            &&& i32::MIN <= #[trigger] total_len(d, n) + d[n].1 <= i32::MAX
            &&& i32::MIN <= total_len(d, n + 1) <= i32::MAX
        }
}

/// One step of the scan of `d` for the bounds `a` and `b`, from position `r` with `i` and
/// `j` intervals passed so far and `ca`, `cb` telling whether `a`, `b` were found inside
/// one: the scan goes on while `r` is one of the positions reached.
pub open spec fn scan_from(
    d: Seq<(i32, i32)>,
    a: i32,
    b: i32,
    r: int,
    i: int,
    j: int,
    ca: bool,
    cb: bool,
) -> (int, int, bool, bool)
    decreases d.len() - r,
{
    if r < 0 || r >= d.len() || (r != i && r != j) {
        (i, j, ca, cb)
    } else {
        let lo = d[r].0;
        let hi = d[r].1;
        let (i2, ca2) = if lo <= a && a <= hi {
            (i, true)
        } else if a > hi {
            (i + 1, ca)
        } else {
            (i, ca)
        };
        let (j2, cb2) = if lo <= b && b <= hi {
            (j, true)
        } else if b > hi {
            (j + 1, cb)
        } else {
            (j, cb)
        };
        scan_from(d, a, b, r + 1, i2, j2, ca2, cb2)
    }
}

/// The scan of `d` for the bounds `a` and `b`: the numbers of leading intervals passed for
/// `a` and for `b`, and whether the interval reached holds `a`, and `b`.
pub open spec fn scan(d: Seq<(i32, i32)>, a: i32, b: i32) -> (int, int, bool, bool) {
    scan_from(d, a, b, 0, 0, 0, false, false)
}

/// On ordered intervals, the scan passes the intervals ending before each bound, and
/// finds a bound inside exactly when the interval reached holds it.
pub proof fn lemma_scan_sorted(d: Seq<(i32, i32)>, a: i32, b: i32)
    requires
        sorted_apart(d),
        a <= b,
    ensures
        ({
            let ea = ends_before(d, a) as int;
            let eb = ends_before(d, b) as int;
            scan(d, a, b) == (ea, eb, ea < d.len() && d[ea].0 <= a, eb < d.len() && d[eb].0 <= b)
        }),
{
    lemma_ends_before(d, a);
    lemma_ends_before(d, b);
    lemma_scan_from_sorted(d, a, b, 0, 0, 0, false, false);
}

proof fn lemma_scan_from_sorted(
    d: Seq<(i32, i32)>,
    a: i32,
    b: i32,
    r: int,
    i: int,
    j: int,
    ca: bool,
    cb: bool,
)
    requires
        sorted_apart(d),
        a <= b,
        0 <= r <= d.len(),
        ends_before(d, a) <= d.len(),
        ends_before(d, b) <= d.len(),
        forall|k: int| 0 <= k < d.len() ==> (k < ends_before(d, a) <==> #[trigger] d[k].1 < a),
        forall|k: int| 0 <= k < d.len() ==> (k < ends_before(d, b) <==> d[k].1 < b),
        i == if r <= ends_before(d, a) { r } else { ends_before(d, a) as int },
        j == if r <= ends_before(d, b) { r } else { ends_before(d, b) as int },
        ca == exists|k: int| 0 <= k < r && d[k].0 <= a && a <= d[k].1,
        cb == exists|k: int| 0 <= k < r && d[k].0 <= b && b <= d[k].1,
    ensures
        ({
            let ea = ends_before(d, a) as int;
            let eb = ends_before(d, b) as int;
            scan_from(d, a, b, r, i, j, ca, cb) == (
                ea,
                eb,
                ea < d.len() && d[ea].0 <= a,
                eb < d.len() && d[eb].0 <= b,
            )
        }),
    decreases d.len() - r,
{
    let n = d.len() as int;
    let ea = ends_before(d, a) as int;
    let eb = ends_before(d, b) as int;
    if r >= n || (r != i && r != j) {
        assert(i == ea && j == eb);
        assert(ca == (ea < n && d[ea].0 <= a)) by {
            if ca {
                let k = choose|k: int| 0 <= k < r && d[k].0 <= a && a <= d[k].1;
                if k < ea {
                    assert(d[k].1 < a);
                }
                if k > ea {
                    assert(d[ea].1 < d[k].0);
                    assert(!(d[ea].1 < a));
                }
            }
            if ea < n && d[ea].0 <= a {
                assert(!(d[ea].1 < a));
            }
        }
        assert(cb == (eb < n && d[eb].0 <= b)) by {
            if cb {
                let k = choose|k: int| 0 <= k < r && d[k].0 <= b && b <= d[k].1;
                if k < eb {
                    assert(d[k].1 < b);
                }
                if k > eb {
                    assert(d[eb].1 < d[k].0);
                    assert(!(d[eb].1 < b));
                }
            }
            if eb < n && d[eb].0 <= b {
                assert(!(d[eb].1 < b));
            }
        }
    } else {
        let lo = d[r].0;
        let hi = d[r].1;
        let (i2, ca2) = if lo <= a && a <= hi {
            (i, true)
        } else if a > hi {
            (i + 1, ca)
        } else {
            (i, ca)
        };
        let (j2, cb2) = if lo <= b && b <= hi {
            (j, true)
        } else if b > hi {
            (j + 1, cb)
        } else {
            (j, cb)
        };
        assert(i2 == if r + 1 <= ea { r + 1 } else { ea }) by {
            if r < ea {
                assert(d[r].1 < a);
            } else {
                assert(!(d[r].1 < a));
            }
        }
        assert(j2 == if r + 1 <= eb { r + 1 } else { eb }) by {
            if r < eb {
                assert(d[r].1 < b);
            } else {
                assert(!(d[r].1 < b));
            }
        }
        assert(ca2 == exists|k: int| 0 <= k < r + 1 && d[k].0 <= a && a <= d[k].1) by {
            if exists|k: int| 0 <= k < r + 1 && d[k].0 <= a && a <= d[k].1 {
                let k = choose|k: int| 0 <= k < r + 1 && d[k].0 <= a && a <= d[k].1;
                if k < r {
                    assert(ca);
                }
            }
        }
        assert(cb2 == exists|k: int| 0 <= k < r + 1 && d[k].0 <= b && b <= d[k].1) by {
            if exists|k: int| 0 <= k < r + 1 && d[k].0 <= b && b <= d[k].1 {
                let k = choose|k: int| 0 <= k < r + 1 && d[k].0 <= b && b <= d[k].1;
                if k < r {
                    assert(cb);
                }
            }
        }
        lemma_scan_from_sorted(d, a, b, r + 1, i2, j2, ca2, cb2);
    }
}

/// `d` with `k` intervals dropped after position `i`, as far as there are any.
pub open spec fn drop_after(d: Seq<(i32, i32)>, i: int, k: int) -> Seq<(i32, i32)> {
    let end = if i + 1 + k <= d.len() {
        i + 1 + k
    } else {
        d.len() as int
    };
    d.subrange(0, i + 1) + d.subrange(end, d.len() as int)
}

/// The intervals once `[a, b]` is added to `d`, as `add_interval` computes them: `i` and
/// `j` are the numbers of leading intervals that the scan passes for `a` and for `b` (on
/// ordered intervals, those ending before `a` and before `b`); the interval at `i` is
/// reshaped and `j - i` intervals after it are dropped.
pub open spec fn added(d: Seq<(i32, i32)>, a: i32, b: i32) -> Seq<(i32, i32)> {
    let (i, j, a_in, b_in) = scan(d, a, b);
    if a > b {
        d
    } else if j == i && a_in && b_in {
        d
    } else if j == i && !a_in && !b_in {
        d.insert(i, (a, b))
    } else if a_in && !b_in {
        drop_after(d.update(i, (d[i].0, b)), i, j - i)
    } else if !a_in && b_in {
        drop_after(d.update(i, (a, d[i].1)), i, j - i)
    } else if a_in && b_in {
        drop_after(d.update(i, (d[i].0, d[j].1)), i, j - i)
    } else {
        drop_after(d.update(i, (a, b)), i, j - i)
    }
}

/// On ordered intervals, the intervals ending before `x` are exactly the first
/// `ends_before(d, x)` ones.
pub proof fn lemma_ends_before(d: Seq<(i32, i32)>, x: i32)
    requires
        sorted_apart(d),
    ensures
        ends_before(d, x) <= d.len(),
        forall|k: int| 0 <= k < d.len() ==> (k < ends_before(d, x) <==> #[trigger] d[k].1 < x),
    decreases d.len(),
{
    if d.len() > 0 {
        let t = d.drop_first();
        assert forall|k: int| 0 <= k < t.len() implies #[trigger] t[k].0 <= t[k].1 by {
            assert(t[k] == d[k + 1]);
        }
        assert forall|k: int, l: int| 0 <= k < l < t.len() implies #[trigger] t[k].1
            < #[trigger] t[l].0 by {
            assert(t[k] == d[k + 1] && t[l] == d[l + 1]);
        }
        lemma_ends_before(t, x);
        assert forall|k: int| 0 <= k < d.len() implies (k < ends_before(d, x) <==> #[trigger] d[k].1
            < x) by {
            if k > 0 {
                assert(t[k - 1] == d[k]);
                assert(d[0].1 < d[k].0);
                assert(d[k].0 <= d[k].1);
            }
            if d[0].1 >= x && k > 0 {
                assert(d[0].1 < d[k].0);
            }
        }
    }
}

/// Reshaping the interval at `i` to `[x, y]` and dropping the intervals after it up to
/// position `j` keeps ordered intervals ordered, when `[x, y]` fits between the interval
/// before `i` and the one after `j`.
pub proof fn lemma_reshape_sorted(d: Seq<(i32, i32)>, i: int, j: int, x: i32, y: i32)
    requires
        sorted_apart(d),
        0 <= i < d.len(),
        i <= j <= d.len(),
        x <= y,
        i > 0 ==> d[i - 1].1 < x,
        j + 1 < d.len() ==> y < d[j + 1].0,
    ensures
        sorted_apart(drop_after(d.update(i, (x, y)), i, j - i)),
{
    let s = d.update(i, (x, y));
    let r = drop_after(s, i, j - i);
    let n = d.len() as int;
    let end = if j + 1 <= n { j + 1 } else { n };
    assert(r =~= s.subrange(0, i + 1) + d.subrange(end, n));
    assert forall|k: int| 0 <= k < r.len() implies #[trigger] r[k].0 <= r[k].1 by {
        if k > i {
            assert(r[k] == d[k - i - 1 + end]);
        }
    }
    assert forall|k: int, l: int| 0 <= k < l < r.len() implies #[trigger] r[k].1
        < #[trigger] r[l].0 by {
        if l <= i {
            if l < i {
                assert(r[k] == d[k] && r[l] == d[l]);
            } else {
                assert(r[k] == d[k]);
                if k < i - 1 {
                    assert(d[k].1 < d[i - 1].0);
                    assert(d[i - 1].0 <= d[i - 1].1);
                }
            }
        } else if k > i {
            assert(r[k] == d[k - i - 1 + end]);
            assert(r[l] == d[l - i - 1 + end]);
        } else {
            let m = l - i - 1 + end;
            assert(r[l] == d[m]);
            assert(end == j + 1);
            if m > j + 1 {
                assert(d[j + 1].1 < d[m].0);
                assert(d[j + 1].0 <= d[j + 1].1);
            }
            if k < i {
                assert(r[k] == d[k]);
                if k < i - 1 {
                    assert(d[k].1 < d[i - 1].0);
                    assert(d[i - 1].0 <= d[i - 1].1);
                }
            }
        }
    }
}

/// Whether adding `[a, b]` to `d` keeps the intervals that `[a, b]` does not reach: the
/// intervals ending before `b` are those ending before `a`, or every interval ends before
/// `b`, or `a` and `b` both lie inside intervals.
pub open spec fn adds_as_union(d: Seq<(i32, i32)>, a: i32, b: i32) -> bool {
    let i = ends_before(d, a) as int;
    let j = ends_before(d, b) as int;
    j == i || j >= d.len() || (i < d.len() && d[i].0 <= a && d[j].0 <= b)
}

/// Whether some interval of `d` holds `x`.
pub open spec fn covers(d: Seq<(i32, i32)>, x: i32) -> bool {
    exists|k: int| 0 <= k < d.len() && d[k].0 <= x && x <= #[trigger] d[k].1
}

/// On ordered intervals, the scan finds `x` exactly when some interval holds it.
pub proof fn lemma_scan_contains_covers(d: Seq<(i32, i32)>, x: i32)
    requires
        sorted_apart(d),
    ensures
        scan_contains(d, x) == covers(d, x),
    decreases d.len(),
{
    if d.len() > 0 {
        let t = d.drop_first();
        assert forall|k: int| 0 <= k < t.len() implies #[trigger] t[k].0 <= t[k].1 by {
            assert(t[k] == d[k + 1]);
        }
        assert forall|k: int, l: int| 0 <= k < l < t.len() implies #[trigger] t[k].1
            < #[trigger] t[l].0 by {
            assert(t[k] == d[k + 1] && t[l] == d[l + 1]);
        }
        lemma_scan_contains_covers(t, x);
        if x < d[0].0 {
            if covers(d, x) {
                let k = choose|k: int| 0 <= k < d.len() && d[k].0 <= x && x <= #[trigger] d[k].1;
                if k > 0 {
                    assert(d[0].1 < d[k].0);
                }
            }
        } else if x <= d[0].1 {
            assert(d[0].0 <= x && x <= d[0].1);
        } else {
            if covers(d, x) {
                let k = choose|k: int| 0 <= k < d.len() && d[k].0 <= x && x <= #[trigger] d[k].1;
                assert(k > 0);
                assert(t[k - 1] == d[k]);
            }
            if covers(t, x) {
                let k = choose|k: int| 0 <= k < t.len() && t[k].0 <= x && x <= #[trigger] t[k].1;
                assert(t[k] == d[k + 1]);
            }
        }
    }
}

/// Adding `[a, b]` to ordered intervals gives their union with `[a, b]` when the intervals
/// ending before `b` are those ending before `a`, when every interval ends before `b`, or when
/// `a` and `b` both lie inside intervals. Otherwise the intervals after the one reached for
/// `a`, up to the first one not ending before `b`, are dropped whole, and with them what lies
/// outside `[a, b]`.
pub proof fn lemma_added_is_union(d: Seq<(i32, i32)>, a: i32, b: i32, x: i32)
    requires
        sorted_apart(d),
        a <= b,
        adds_as_union(d, a, b),
    ensures
        covers(added(d, a, b), x) == (covers(d, x) || (a <= x && x <= b)),
{
    lemma_ends_before(d, a);
    lemma_ends_before(d, b);
    lemma_scan_sorted(d, a, b);
    let n = d.len() as int;
    let i = ends_before(d, a) as int;
    let j = ends_before(d, b) as int;
    let a_in = i < n && d[i].0 <= a;
    let b_in = j < n && d[j].0 <= b;
    let r = added(d, a, b);
    assert(i <= j) by {
        if i > j {
            assert(d[j].1 < a);
        }
    }
    // Every interval before `i` ends before `a`; every interval after `j` starts after `b`.
    assert forall|k: int| 0 <= k < n && k > j implies b < #[trigger] d[k].0 by {
        assert(!(d[j].1 < b));
        assert(d[j].1 < d[k].0);
    }
    if j == i && a_in && b_in {
        assert(r == d);
        if a <= x && x <= b {
            assert(d[i].0 <= x && x <= d[i].1);
        }
        assert(covers(r, x) == (covers(d, x) || (a <= x && x <= b)));
    } else if j == i && !a_in && !b_in {
        if covers(r, x) {
            let k = choose|k: int| 0 <= k < r.len() && r[k].0 <= x && x <= #[trigger] r[k].1;
            if k < i {
                assert(r[k] == d[k]);
                assert(d[k].0 <= x && x <= d[k].1);
            } else if k > i {
                assert(r[k] == d[k - 1]);
                assert(d[k - 1].0 <= x && x <= d[k - 1].1);
            }
        }
        if covers(d, x) {
            let k = choose|k: int| 0 <= k < d.len() && d[k].0 <= x && x <= #[trigger] d[k].1;
            if k < i {
                assert(r[k] == d[k]);
                assert(r[k].0 <= x && x <= r[k].1);
            } else {
                assert(r[k + 1] == d[k]);
                assert(r[k + 1].0 <= x && x <= r[k + 1].1);
            }
        }
        if a <= x && x <= b {
            assert(r[i] == (a, b));
            assert(r[i].0 <= x && x <= r[i].1);
        }
        assert(covers(r, x) == (covers(d, x) || (a <= x && x <= b)));
    } else {
        let lo = if a_in { d[i].0 } else { a };
        let hi = if b_in { d[j].1 } else { b };
        assert(i < n);
        if !a_in && b_in {
            assert(j == i);
        }
        assert(r == drop_after(d.update(i, (lo, hi)), i, j - i));
        let end = if j + 1 <= n { j + 1 } else { n };
        assert(r =~= d.update(i, (lo, hi)).subrange(0, i + 1) + d.subrange(end, n));
        assert(r[i] == (lo, hi));
        assert(lo <= a && b <= hi);
        if covers(r, x) {
            let k = choose|k: int| 0 <= k < r.len() && r[k].0 <= x && x <= #[trigger] r[k].1;
            if k < i {
                assert(r[k] == d[k]);
            } else if k > i {
                assert(r[k] == d[k - i - 1 + end]);
            } else {
                if x < a {
                    assert(a_in);
                    assert(d[i].0 <= x && x <= d[i].1);
                } else if x > b {
                    assert(b_in);
                    assert(d[j].0 <= x && x <= d[j].1);
                }
            }
        }
        if covers(d, x) {
            let k = choose|k: int| 0 <= k < d.len() && d[k].0 <= x && x <= #[trigger] d[k].1;
            if k < i {
                assert(r[k] == d[k]);
            } else if k > j {
                assert(end == j + 1);
                assert(r[k - end + i + 1] == d[k]);
            } else if k == i {
                assert(lo <= d[i].0 || a <= d[i].0);
                if k < j {
                    assert(d[k].1 < b);
                } else {
                    assert(d[k].1 <= hi) by {
                        if !b_in {
                            assert(d[j].1 >= b);
                        }
                    }
                }
                assert(r[i].0 <= x && x <= r[i].1) by {
                    if !a_in {
                        assert(d[i].0 > a);
                    }
                    if k == j && !b_in {
                        assert(j >= n || d[j].0 <= b);
                    }
                }
            } else if k < j {
                assert(d[i].1 < d[k].0);
                assert(d[i].1 >= a);
                assert(d[k].1 < b);
                assert(r[i].0 <= x && x <= r[i].1);
            } else {
                // k == j > i: the condition says `b` is inside it
                assert(b_in);
                assert(d[i].1 < d[k].0);
                assert(d[i].1 >= a);
                assert(r[i].0 <= x && x <= r[i].1);
            }
        }
        if a <= x && x <= b {
            assert(r[i].0 <= x && x <= r[i].1);
        }
        assert(covers(r, x) == (covers(d, x) || (a <= x && x <= b)));
    }
}

/// What `add_interval` gives holds the values that the intervals held and those of `[a, b]`,
/// and nothing else, where `[a, b]` reaches no interval that it does not cover.
pub proof fn lemma_add_interval_union(d: Seq<(i32, i32)>, a: i32, b: i32, x: i32)
    requires
        sorted_apart(d),
        a <= b,
        adds_as_union(d, a, b),
    ensures
        scan_contains(added(d, a, b), x) == (scan_contains(d, x) || (a <= x && x <= b)),
        sorted_apart(added(d, a, b)),
{
    lemma_added_keeps_order(d, a, b);
    lemma_scan_contains_covers(d, x);
    lemma_scan_contains_covers(added(d, a, b), x);
    lemma_added_is_union(d, a, b, x);
}

/// Adding an interval to ordered intervals leaves them ordered, each well formed and apart
/// from the next.
pub proof fn lemma_added_keeps_order(d: Seq<(i32, i32)>, a: i32, b: i32)
    requires
        sorted_apart(d),
    ensures
        sorted_apart(added(d, a, b)),
{
    if a <= b {
        lemma_ends_before(d, a);
        lemma_ends_before(d, b);
        lemma_scan_sorted(d, a, b);
        let n = d.len() as int;
        let i = ends_before(d, a) as int;
        let j = ends_before(d, b) as int;
        let a_in = i < n && d[i].0 <= a;
        let b_in = j < n && d[j].0 <= b;
        assert(i <= j) by {
            if i > j {
                assert(d[j].1 < a);
            }
        }
        if i < n && j + 1 < n {
            assert(!(d[j].1 < b));
            assert(d[j].1 < d[j + 1].0);
            assert(d[i].1 <= d[j].1) by {
                if i < j {
                    assert(d[i].1 < d[j].0);
                }
            }
        }
        if i > 0 {
            assert(d[i - 1].1 < a);
            if i < n {
                assert(d[i - 1].1 < d[i].0);
            }
        }
        if j == i && a_in && b_in {
        } else if j == i && !a_in && !b_in {
            let r = d.insert(i, (a, b));
            assert forall|k: int| 0 <= k < r.len() implies #[trigger] r[k].0 <= r[k].1 by {
                if k > i {
                    assert(r[k] == d[k - 1]);
                } else if k < i {
                    assert(r[k] == d[k]);
                }
            }
            assert forall|k: int, l: int| 0 <= k < l < r.len() implies #[trigger] r[k].1
                < #[trigger] r[l].0 by {
                if l < i {
                    assert(r[k] == d[k] && r[l] == d[l]);
                } else if k > i {
                    assert(r[k] == d[k - 1] && r[l] == d[l - 1]);
                } else if l == i {
                    assert(r[k] == d[k]);
                    if k < i - 1 {
                        assert(d[k].1 < d[i - 1].0);
                        assert(d[i - 1].0 <= d[i - 1].1);
                    }
                } else if k == i {
                    assert(r[l] == d[l - 1]);
                    assert(d[i].0 > b);
                    if l - 1 > i {
                        assert(d[i].1 < d[l - 1].0);
                        assert(d[i].0 <= d[i].1);
                    }
                } else {
                    assert(r[k] == d[k] && r[l] == d[l - 1]);
                }
            }
        } else if a_in && !b_in {
            if j + 1 < n {
                assert(d[j].0 > b);
            }
            lemma_reshape_sorted(d, i, j, d[i].0, b);
        } else if !a_in && b_in {
            lemma_reshape_sorted(d, i, j, a, d[i].1);
        } else if a_in && b_in {
            lemma_reshape_sorted(d, i, j, d[i].0, d[j].1);
        } else {
            if j + 1 < n {
                assert(d[j].0 > b);
            }
            lemma_reshape_sorted(d, i, j, a, b);
        }
    }
}

/// Scans the leading intervals of `data` as long as one of the bounds `a <= b` lies beyond
/// them: the numbers of intervals passed for `a` and for `b`, and whether the interval
/// reached holds `a`, and `b`.
pub fn scan_bounds(data: &Vec<(i32, i32)>, a: i32, b: i32) -> (r: (usize, usize, bool, bool))
    requires
        a <= b,
    ensures
        r.0 <= r.1 <= data@.len(),
        r.2 ==> r.0 < data@.len(),
        r.3 ==> r.1 < data@.len(),
        (r.0 as int, r.1 as int, r.2, r.3) == scan(data@, a, b),
        sorted_apart(data@) ==> {
        &&& r.0 == ends_before(data@, a)
        &&& r.1 == ends_before(data@, b)
        &&& r.2 == (r.0 < data@.len() && data@[r.0 as int].0 <= a)
        &&& r.3 == (r.1 < data@.len() && data@[r.1 as int].0 <= b)
    },
{
    let ghost d = data@;
    let n = data.len();
    let mut a_contained = false;
    let mut b_contained = false;
    let mut i: usize = 0;
    let mut j: usize = 0;
    let mut r_i: usize = 0;
    proof {
        if sorted_apart(d) {
            lemma_ends_before(d, a);
            lemma_ends_before(d, b);
        }
    }
    while r_i < n && (r_i == i || r_i == j)
        invariant
            d == data@,
            n == d.len(),
            a <= b,
            i <= j <= r_i <= n,
            scan(d, a, b) == scan_from(d, a, b, r_i as int, i as int, j as int, a_contained, b_contained),
            a_contained ==> i < r_i,
            b_contained ==> j < r_i,
            sorted_apart(d) ==> {
                &&& ends_before(d, a) <= n
                &&& ends_before(d, b) <= n
                &&& forall|k: int|
                    0 <= k < n ==> (k < ends_before(d, a) <==> #[trigger] d[k].1 < a)
                &&& forall|k: int| 0 <= k < n ==> (k < ends_before(d, b) <==> d[k].1 < b)
                &&& i == if r_i <= ends_before(d, a) { r_i as int } else { ends_before(d, a) as int }
                &&& j == if r_i <= ends_before(d, b) { r_i as int } else { ends_before(d, b) as int }
                &&& a_contained == exists|k: int| 0 <= k < r_i && d[k].0 <= a && a <= d[k].1
                &&& b_contained == exists|k: int| 0 <= k < r_i && d[k].0 <= b && b <= d[k].1
            },
        decreases n - r_i,
    {
        let begin = data[r_i].0;
        let end = data[r_i].1;
        let ghost old_a = a_contained;
        let ghost old_b = b_contained;
        if a >= begin && a <= end {
            a_contained = true;
        } else if a > end {
            i += 1;
        }
        if b >= begin && b <= end {
            b_contained = true;
        } else if b > end {
            j += 1;
        }
        proof {
            if sorted_apart(d) {
                let r = r_i as int;
                assert(a_contained == exists|k: int| 0 <= k < r + 1 && d[k].0 <= a && a <= d[k].1) by {
                    if exists|k: int| 0 <= k < r + 1 && d[k].0 <= a && a <= d[k].1 {
                        let k = choose|k: int| 0 <= k < r + 1 && d[k].0 <= a && a <= d[k].1;
                        if k < r {
                            assert(old_a);
                        }
                    }
                }
                assert(b_contained == exists|k: int| 0 <= k < r + 1 && d[k].0 <= b && b <= d[k].1) by {
                    if exists|k: int| 0 <= k < r + 1 && d[k].0 <= b && b <= d[k].1 {
                        let k = choose|k: int| 0 <= k < r + 1 && d[k].0 <= b && b <= d[k].1;
                        if k < r {
                            assert(old_b);
                        }
                    }
                }
            }
        }
        r_i += 1;
    }
    let ghost fi = i as int;
    let ghost fj = j as int;
    proof {
        assert(scan_from(d, a, b, r_i as int, i as int, j as int, a_contained, b_contained) == (
            i as int,
            j as int,
            a_contained,
            b_contained,
        ));
        assert(scan(d, a, b) == (i as int, j as int, a_contained, b_contained));
        assert(scan(data@, a, b) == (i as int, j as int, a_contained, b_contained));
        if sorted_apart(d) {
            assert(fi == ends_before(d, a) as int);
            assert(fj == ends_before(d, b) as int);
            assert(a_contained == (fi < n && d[fi].0 <= a)) by {
                if a_contained {
                    let k = choose|k: int| 0 <= k < r_i && d[k].0 <= a && a <= d[k].1;
                    if k < fi {
                        assert(d[k].1 < a);
                    }
                    if k > fi {
                        assert(d[fi].1 < d[k].0);
                        assert(!(d[fi].1 < a));
                    }
                }
                if fi < n && d[fi].0 <= a {
                    assert(!(d[fi].1 < a));
                    assert(fi < r_i);
                }
            }
            assert(b_contained == (fj < n && d[fj].0 <= b)) by {
                if b_contained {
                    let k = choose|k: int| 0 <= k < r_i && d[k].0 <= b && b <= d[k].1;
                    if k < fj {
                        assert(d[k].1 < b);
                    }
                    if k > fj {
                        assert(d[fj].1 < d[k].0);
                        assert(!(d[fj].1 < b));
                    }
                }
                if fj < n && d[fj].0 <= b {
                    assert(!(d[fj].1 < b));
                    assert(fj < r_i);
                }
            }
        }
    }
    (i, j, a_contained, b_contained)
}

/// The intervals written one after the other, each as `(a,b)`.
pub open spec fn intervals_text(d: Seq<(i32, i32)>) -> Seq<char>
    decreases d.len(),
{
    if d.len() == 0 {
        Seq::empty()
    } else {
        intervals_text(d.drop_last()) + "("@ + signed_decimal(d.last().0 as int) + ","@ + signed_decimal(
            d.last().1 as int,
        ) + ")"@
    }
}

/// A set of integers kept as a list of closed intervals, in increasing order.
pub struct DisjointInterval {
    data: Vec<(i32, i32)>,
}

impl DisjointInterval {
    /// The intervals, in order.
    pub closed spec fn intervals(&self) -> Seq<(i32, i32)> {
        self.data@
    }

    /// The intervals are ordered, each well formed and apart from the next.
    pub open spec fn wf(&self) -> bool {
        sorted_apart(self.intervals())
    }

    pub fn new() -> (s: Self)
        ensures
            s.intervals() == Seq::<(i32, i32)>::empty(),
            s.wf(),
    {
        DisjointInterval { data: Vec::new() }
    }

    /// The single interval from `a` to `b`.
    pub fn from(a: i32, b: i32) -> (s: Self)
        ensures
            s.intervals() == seq![(a, b)],
            s.wf() == (a <= b),
    {
        let s = DisjointInterval { data: vec![(a, b)] };
        assert(s.data@ =~= seq![(a, b)]);
        assert(s.intervals()[0].0 == a && s.intervals()[0].1 == b);
        if a <= b {
            assert forall|k: int| 0 <= k < s.intervals().len() implies #[trigger] s.intervals()[k].0
                <= s.intervals()[k].1 by {
                assert(k == 0);
            }
        }
        s
    }

    pub fn contains(&self, x: i32) -> (r: bool)
        ensures
            r == scan_contains(self.intervals(), x),
    {
        let n = self.data.len();
        assert(self.data@.skip(0) =~= self.data@);
        for k in 0..n
            invariant
                n == self.data@.len(),
                scan_contains(self.data@, x) == scan_contains(self.data@.skip(k as int), x),
        {
            let r = self.data[k];
            assert(self.data@.skip(k as int).drop_first() =~= self.data@.skip(k + 1));
            if x < r.0 {
                return false;
            } else if x <= r.1 {
                return true;
            }
        }
        false
    }

    /// The point at offset `x` when the intervals are laid end to end; past the end, the
    /// offset left over.
    pub fn get(&self, x: i32) -> (r: i32)
        requires
            locate_fits(self.intervals(), x as int),
        ensures
            r == locate(self.intervals(), x as int),
    {
        let mut remain = x;
        let n = self.data.len();
        assert(self.data@.skip(0) =~= self.data@);
        for k in 0..n
            invariant
                n == self.data@.len(),
                locate_fits(self.data@.skip(k as int), remain as int),
                locate(self.data@, x as int) == locate(self.data@.skip(k as int), remain as int),
        {
            let r = self.data[k];
            assert(self.data@.skip(k as int).drop_first() =~= self.data@.skip(k + 1));
            let length = r.1 - r.0;
            if remain > length {
                remain = remain - length;
            } else {
                return r.0 + remain;
            }
        }
        remain
    }

    /// Sum of the lengths of the intervals.
    #[verifier::spinoff_prover]
    pub fn len(&self) -> (r: i32)
        requires
            total_len_fits(self.intervals()),
        ensures
            r == total_len(self.intervals(), self.intervals().len() as int),
    {
        let mut length: i32 = 0;
        let n = self.data.len();
        for k in 0..n
            invariant
                n == self.data@.len(),
                total_len_fits(self.data@),
                length == total_len(self.data@, k as int),
        {
            let r = self.data[k];
            assert(i32::MIN <= total_len(self.data@, k as int) + self.data@[k as int].1 <= i32::MAX);
            assert(i32::MIN <= total_len(self.data@, k + 1) <= i32::MAX);
            length = length + r.1 - r.0;
        }
        length
    }

    /// The single interval from zero to the total length.
    pub fn convex_equiv(&self) -> (s: Self)
        requires
            total_len_fits(self.intervals()),
        ensures
            s.intervals() == seq![(0i32, total_len(self.intervals(), self.intervals().len() as int) as i32)],
    {
        Self::from(0, self.len())
    }

    /// Start of the first interval.
    pub fn min(&self) -> (r: i32)
        requires
            self.intervals().len() > 0,
        ensures
            r == self.intervals()[0].0,
    {
        self.data[0].0
    }

    /// End of the last interval.
    pub fn max(&self) -> (r: i32)
        requires
            self.intervals().len() > 0,
        ensures
            r == self.intervals().last().1,
    {
        self.data[self.data.len() - 1].1
    }

    /// Adds the interval `[a, b]` (nothing when `a > b`). With `i` and `j` the numbers of
    /// intervals ending before `a` and before `b`, the interval at `i` is reshaped to hold
    /// the new bounds and the `j - i` intervals after it are dropped.
    pub fn add_interval(&mut self, a: i32, b: i32)
        ensures
            final(self).intervals() == added(old(self).intervals(), a, b),
    {
        if a > b {
            return;
        }
        let ghost d = self.data@;
        let n = self.data.len();
        let (i, j, a_contained, b_contained) = scan_bounds(&self.data, a, b);
        let ghost fi = i as int;
        let ghost fj = j as int;
        proof {
            if sorted_apart(d) {
                lemma_ends_before(d, a);
                lemma_ends_before(d, b);
            }
        }
        let diff = j - i;
        if diff == 0 && a_contained && b_contained {
        } else if diff == 0 && !a_contained && !b_contained {
            self.data.insert(i, (a, b));
        } else if a_contained && !b_contained {
            let begin = self.data[i].0;
            self.data.set(i, (begin, b));
        } else if !a_contained && b_contained {
            let end = self.data[i].1;
            self.data.set(i, (a, end));
        } else if a_contained && b_contained {
            let begin = self.data[i].0;
            let end = self.data[j].1;
            self.data.set(i, (begin, end));
        } else {
            self.data.set(i, (a, b));
        }
        let ghost base = self.data@;
        proof {
            assert(drop_after(base, fi, 0) =~= base);
        }
        if i != j {
            for t in 0..diff
                invariant
                    i == fi,
                    fi < base.len(),
                    self.data@ == drop_after(base, fi, t as int),
            {
                proof {
                    let len = base.len() as int;
                    let e0 = if fi + 1 + t <= len { fi + 1 + t } else { len };
                    let e1 = if fi + 1 + t + 1 <= len { fi + 1 + t + 1 } else { len };
                    assert(self.data@.len() == fi + 1 + (len - e0));
                    if e0 < len {
                        assert(e1 == e0 + 1);
                    } else {
                        assert(e1 == len);
                    }
                }
                let cur = self.data.len();
                if i + 1 < cur {
                    self.data.remove(i + 1);
                }
                proof {
                    assert(self.data@ =~= drop_after(base, fi, t + 1));
                }
            }
        }
        proof {
            assert(self.data@ == drop_after(base, fi, fj - fi));
        }
    }

    /// The intervals as they are printed: `{(a,b)(c,d)}`.
    pub fn to_text(&self) -> (s: String)
        ensures
            s@ == "{"@ + intervals_text(self.intervals()) + "}"@,
    {
        let mut res = String::new();
        let n = self.data.len();
        for k in 0..n
            invariant
                n == self.data@.len(),
                res@ == intervals_text(self.data@.subrange(0, k as int)),
        {
            let (a, b) = self.data[k];
            proof {
                let d = self.data@.subrange(0, k + 1);
                assert(d.drop_last() =~= self.data@.subrange(0, k as int));
            }
            res.append("(");
            res.append(signed_decimal_text(a).as_str());
            res.append(",");
            res.append(signed_decimal_text(b).as_str());
            res.append(")");
        }
        proof {
            assert(self.data@.subrange(0, n as int) =~= self.data@);
        }
        let mut s = "{".to_owned();
        s.append(res.as_str());
        s.append("}");
        s
    }

    pub fn n_interv(&self) -> (r: usize)
        ensures
            r == self.intervals().len(),
    {
        self.data.len()
    }
}

} // verus!
