use crate::computation::dbm::{below, lower, small_bound, Bound, DBM};
use crate::computation::virtual_memory::{decode, fits, VirtualMemory};
use crate::models::expressions::{compare, PropositionType};
use crate::models::model_clock::ModelClock;
use crate::models::model_var::ModelVar;
use crate::verification::Verifiable;
use vstd::prelude::*;

verus! {

/// Number of `true` entries of `s`.
pub open spec fn count_true(s: Seq<bool>) -> nat
    decreases s.len(),
{
    if s.len() == 0 {
        0
    } else {
        count_true(s.drop_last()) + if s.last() {
            1nat
        } else {
            0nat
        }
    }
}

proof fn lemma_count_take(s: Seq<bool>, i: int)
    requires
        0 <= i < s.len(),
    ensures
        count_true(s.take(i + 1)) == count_true(s.take(i)) + if s[i] {
            1nat
        } else {
            0nat
        },
        count_true(s.take(i)) <= count_true(s.take(i + 1)),
{
    assert(s.take(i + 1).drop_last() =~= s.take(i));
}

proof fn lemma_count_bounded(s: Seq<bool>, i: int)
    requires
        0 <= i <= s.len(),
    ensures
        count_true(s.take(i)) <= count_true(s),
        count_true(s) <= s.len(),
    decreases s.len() - i,
{
    if i < s.len() {
        lemma_count_take(s, i);
        lemma_count_bounded(s, i + 1);
    } else {
        assert(s.take(i) =~= s);
        lemma_count_len(s);
    }
}

proof fn lemma_count_len(s: Seq<bool>)
    ensures
        count_true(s) <= s.len(),
    decreases s.len(),
{
    if s.len() > 0 {
        lemma_count_len(s.drop_last());
    }
}

/// The transitions of `0 .. n` that are persistent or newly enabled, in order: the clocks of
/// the next class after the zero clock.
pub open spec fn kept_transitions(pers: Seq<bool>, newen: Seq<bool>, n: int) -> Seq<usize>
    decreases n,
{
    if n <= 0 {
        Seq::empty()
    } else if pers[n - 1] || newen[n - 1] {
        kept_transitions(pers, newen, n - 1).push((n - 1) as usize)
    } else {
        kept_transitions(pers, newen, n - 1)
    }
}

/// The bound at `(a, b)` of the matrix built for the class reached by firing `fired` from
/// `class`, before it is brought to its canonical form: `from` lists the transitions given a
/// clock, persistent ones keep their bounds taken relative to the fired transition, newly
/// enabled ones get their firing interval.
pub open spec fn successor_bound(
    class: StateClass,
    fired: int,
    pers: Seq<bool>,
    intervals: Seq<(Bound, Bound)>,
    from: Seq<usize>,
    a: int,
    b: int,
) -> Bound {
    let d = class.dbm;
    let prev = class.to_dbm_index@;
    let f = prev[fired] as int;
    if a == b {
        Bound::Large(0)
    } else if b == 0 && 1 <= a < from.len() {
        let t = from[a] as int;
        if pers[t] {
            d.bound(prev[t] as int, f)
        } else {
            intervals[t].1
        }
    } else if a == 0 && 1 <= b < from.len() {
        let t = from[b] as int;
        if pers[t] {
            d.bound(f, prev[t] as int)
        } else {
            lower(intervals[t].0)
        }
    } else if 1 <= a < from.len() && 1 <= b < from.len() && pers[from[a] as int] && pers[from[b] as int] {
        d.bound(prev[from[a] as int] as int, prev[from[b] as int] as int)
    } else {
        Bound::Infinite
    }
}

/// The transitions given a clock in the class reached when `pers` and `newen` are the
/// persistent and newly enabled transitions, after the zero clock.
pub open spec fn next_clocks(pers: Seq<bool>, newen: Seq<bool>) -> Seq<usize> {
    seq![0usize] + kept_transitions(pers, newen, pers.len() as int)
}

/// Number of clocks of the class reached, the zero clock included.
pub open spec fn next_dim(pers: Seq<bool>, newen: Seq<bool>) -> nat {
    count_true(pers) + count_true(newen) + 1
}

/// Whether a persistent transition must fire before `t`: its upper bound is below that of
/// `t` in `class`.
pub open spec fn late_firing(class: StateClass, t: int, pers: Seq<bool>) -> bool {
    let prev = class.to_dbm_index@;
    exists|u: int|
        0 <= u < pers.len() && #[trigger] pers[u] && below(
            class.dbm.bound(prev[u] as int, 0),
            class.dbm.bound(prev[t] as int, 0),
        )
}

/// Whether the valuation `v` meets every bound of the matrix built for the class reached by
/// firing `t` from `class`.
pub open spec fn meets_successor(
    class: StateClass,
    t: int,
    pers: Seq<bool>,
    newen: Seq<bool>,
    intervals: Seq<(Bound, Bound)>,
    v: Seq<int>,
) -> bool {
    forall|a: int, b: int|
        0 <= a < v.len() && 0 <= b < v.len() ==> crate::computation::dbm::meets(
            #[trigger] successor_bound(class, t, pers, intervals, next_clocks(pers, newen), a, b),
            v[a] - v[b],
        )
}

/// Whether `s` is a class reached by firing `t` from `class`, the firing giving the marking
/// `discrete` and the transitions `pers` and `newen`: its clocks and its zone are those of
/// the matrix built for it, and the zone holds a valuation bound.
pub open spec fn is_successor(
    class: StateClass,
    t: int,
    discrete: VirtualMemory,
    pers: Seq<bool>,
    newen: Seq<bool>,
    intervals: Seq<(Bound, Bound)>,
    s: StateClass,
) -> bool {
    &&& !late_firing(class, t, pers)
    &&& s.wf()
    &&& !below(s.dbm.bound(0, 0), Bound::Large(0))
    &&& s.discrete == discrete
    &&& s.from_dbm_index@ == next_clocks(pers, newen)
    &&& s.to_dbm_index@.len() == intervals.len()
    &&& forall|d: int|
        1 <= d < s.from_dbm_index@.len() ==> #[trigger] s.to_dbm_index@[s.from_dbm_index@[d] as int]
            == d
    &&& s.dbm.dim() == next_dim(pers, newen)
    &&& forall|v: Seq<int>|
        #[trigger] s.dbm.satisfies(v) == (v.len() == s.dbm.dim() && meets_successor(
            class,
            t,
            pers,
            newen,
            intervals,
            v,
        ))
}

/// Whether the bounds of the matrix built for the class reached by firing `t` from `class`
/// are small enough that bringing it to its canonical form makes no sum that overflows.
pub open spec fn successor_small(
    class: StateClass,
    t: int,
    pers: Seq<bool>,
    newen: Seq<bool>,
    intervals: Seq<(Bound, Bound)>,
) -> bool {
    forall|a: int, b: int|
        0 <= a < next_dim(pers, newen) && 0 <= b < next_dim(pers, newen) ==> small_bound(
            #[trigger] successor_bound(class, t, pers, intervals, next_clocks(pers, newen), a, b),
            next_dim(pers, newen),
        )
}

/// Whether the time `x` lies within the firing interval `iv` of a transition: at least its
/// lower bound `iv.0` and at most its upper bound `iv.1`.
pub open spec fn within_interval(iv: (Bound, Bound), x: int) -> bool {
    &&& crate::computation::dbm::meets(iv.1, x)
    &&& match iv.0 {
        Bound::Large(n) => x >= n,
        Bound::Strict(n) => x > n,
        Bound::Infinite => false,
        Bound::MinusInfinite => true,
    }
}

/// The valuation, over `n` clocks, that firing `t` from `class` gives: `v` values the clocks
/// of `class` when `t` fires, a persistent transition's clock goes on with what is left of
/// it after the fired one, `v[prev u] - v[prev t]`, a newly enabled one takes the value `w`
/// gives it, and the zero clock stays at zero.
pub open spec fn fired_valuation(
    class: StateClass,
    t: int,
    pers: Seq<bool>,
    from: Seq<usize>,
    n: nat,
    v: Seq<int>,
    w: Seq<int>,
) -> Seq<int> {
    let prev = class.to_dbm_index@;
    Seq::new(
        n,
        |d: int|
            if d == 0 || d >= from.len() {
                0
            } else if pers[from[d] as int] {
                v[prev[from[d] as int] as int] - v[prev[t] as int]
            } else {
                w[d]
            },
    )
}

/// Firing a transition from a class leads into the class reached: every valuation of the
/// clocks of the class, with every newly enabled clock given a value in its firing interval,
/// gives by the firing a valuation of the class reached.
pub proof fn lemma_successor_holds_firings(
    class: StateClass,
    t: int,
    discrete: VirtualMemory,
    pers: Seq<bool>,
    newen: Seq<bool>,
    intervals: Seq<(Bound, Bound)>,
    s: StateClass,
    v: Seq<int>,
    w: Seq<int>,
)
    requires
        is_successor(class, t, discrete, pers, newen, intervals, s),
        class.wf(),
        0 <= t < intervals.len(),
        class.to_dbm_index@.len() == intervals.len(),
        pers.len() == intervals.len(),
        newen.len() == intervals.len(),
        forall|u: int|
            0 <= u < intervals.len() ==> (#[trigger] intervals[u]).0 != Bound::Large(i32::MIN)
                && intervals[u].0 != Bound::Strict(i32::MIN),
        class.dbm.satisfies(v),
        forall|d: int|
            1 <= d < s.from_dbm_index@.len() && !pers[s.from_dbm_index@[d] as int] ==> within_interval(
                intervals[s.from_dbm_index@[d] as int],
                #[trigger] w[d],
            ),
    ensures
        s.dbm.satisfies(fired_valuation(class, t, pers, s.from_dbm_index@, s.dbm.dim(), v, w)),
{
    let from = s.from_dbm_index@;
    let n = s.dbm.dim();
    let vp = fired_valuation(class, t, pers, from, n, v, w);
    let prev = class.to_dbm_index@;
    let f = prev[t] as int;
    lemma_kept_below(pers, newen, pers.len() as int);
    assert forall|d: int| 1 <= d < from.len() implies (#[trigger] from[d]) < pers.len() by {
        assert(from[d] == kept_transitions(pers, newen, pers.len() as int)[d - 1]);
    }
    assert(f < class.dbm.dim());
    assert forall|a: int, b: int|
        0 <= a < vp.len() && 0 <= b < vp.len() implies crate::computation::dbm::meets(
        #[trigger] successor_bound(class, t, pers, intervals, next_clocks(pers, newen), a, b),
        vp[a] - vp[b],
    ) by {
        let sb = successor_bound(class, t, pers, intervals, next_clocks(pers, newen), a, b);
        assert(from == next_clocks(pers, newen));
        assert(vp[0] == 0);
        if a == b {
        } else if b == 0 && 1 <= a < from.len() {
            let u = from[a] as int;
            if pers[u] {
                assert(prev[u] < class.dbm.dim());
                assert(vp[a] == v[prev[u] as int] - v[f]);
                assert(sb == class.dbm.bound(prev[u] as int, f));
                assert(crate::computation::dbm::meets(class.dbm.bound(prev[u] as int, f), v[prev[u] as int] - v[f]));
            } else {
                assert(vp[a] == w[a]);
                assert(sb == intervals[u].1);
                assert(within_interval(intervals[u], w[a]));
            }
        } else if a == 0 && 1 <= b < from.len() {
            let u = from[b] as int;
            if pers[u] {
                assert(prev[u] < class.dbm.dim());
                assert(vp[b] == v[prev[u] as int] - v[f]);
                assert(sb == class.dbm.bound(f, prev[u] as int));
                assert(crate::computation::dbm::meets(class.dbm.bound(f, prev[u] as int), v[f] - v[prev[u] as int]));
            } else {
                assert(vp[b] == w[b]);
                assert(sb == lower(intervals[u].0));
                assert(intervals[u].0 != Bound::Large(i32::MIN) && intervals[u].0 != Bound::Strict(i32::MIN));
                assert(within_interval(intervals[u], w[b]));
            }
        } else if 1 <= a < from.len() && 1 <= b < from.len() && pers[from[a] as int] && pers[from[b] as int] {
            assert(a != 0 && b != 0);
            let ua = from[a] as int;
            let ub = from[b] as int;
            assert(prev[ua] < class.dbm.dim());
            assert(prev[ub] < class.dbm.dim());
            assert(vp[a] == v[prev[ua] as int] - v[f]);
            assert(vp[b] == v[prev[ub] as int] - v[f]);
            assert(sb == class.dbm.bound(prev[ua] as int, prev[ub] as int));
            assert(crate::computation::dbm::meets(
                class.dbm.bound(prev[ua] as int, prev[ub] as int),
                v[prev[ua] as int] - v[prev[ub] as int],
            ));
        } else {
            assert(sb == Bound::Infinite);
        }
    }
    assert(meets_successor(class, t, pers, newen, intervals, vp));
}

/// Every valuation of the class reached comes from firing `t` from `class`: taken relative
/// to its zero clock, its persistent clocks, with the clock of `t` at zero, meet every bound
/// that `class` sets between the clocks of those transitions and that of `t`, and each of its
/// newly enabled clocks lies within its firing interval.
pub proof fn lemma_successor_comes_from_firing(
    class: StateClass,
    t: int,
    discrete: VirtualMemory,
    pers: Seq<bool>,
    newen: Seq<bool>,
    intervals: Seq<(Bound, Bound)>,
    s: StateClass,
    vp: Seq<int>,
)
    requires
        is_successor(class, t, discrete, pers, newen, intervals, s),
        0 <= t < intervals.len(),
        pers.len() == intervals.len(),
        newen.len() == intervals.len(),
        forall|u: int|
            0 <= u < intervals.len() ==> (#[trigger] intervals[u]).0 != Bound::Large(i32::MIN)
                && intervals[u].0 != Bound::Strict(i32::MIN),
        s.dbm.satisfies(vp),
    ensures
        forall|a: int, b: int|
            1 <= a < s.from_dbm_index@.len() && 1 <= b < s.from_dbm_index@.len() && a != b
                && pers[s.from_dbm_index@[a] as int] && pers[s.from_dbm_index@[b] as int]
                ==> crate::computation::dbm::meets(
                class.dbm.bound(
                    class.to_dbm_index@[s.from_dbm_index@[a] as int] as int,
                    class.to_dbm_index@[s.from_dbm_index@[b] as int] as int,
                ),
                #[trigger] vp[a] - #[trigger] vp[b],
            ),
        forall|a: int|
            1 <= a < s.from_dbm_index@.len() && pers[s.from_dbm_index@[a] as int] ==> {
                &&& crate::computation::dbm::meets(
                    class.dbm.bound(class.to_dbm_index@[s.from_dbm_index@[a] as int] as int, class.to_dbm_index@[t] as int),
                    #[trigger] vp[a] - vp[0],
                )
                &&& crate::computation::dbm::meets(
                    class.dbm.bound(class.to_dbm_index@[t] as int, class.to_dbm_index@[s.from_dbm_index@[a] as int] as int),
                    vp[0] - vp[a],
                )
            },
        forall|a: int|
            1 <= a < s.from_dbm_index@.len() && !pers[s.from_dbm_index@[a] as int] ==> within_interval(
                intervals[s.from_dbm_index@[a] as int],
                #[trigger] vp[a] - vp[0],
            ),
{
    let from = s.from_dbm_index@;
    assert(meets_successor(class, t, pers, newen, intervals, vp));
    assert(from == next_clocks(pers, newen));
    assert(vp.len() == s.dbm.dim());
    assert(s.dbm.dim() == next_dim(pers, newen));
    lemma_kept_below(pers, newen, pers.len() as int);
    lemma_count_len(pers);
    assert forall|d: int| 1 <= d < from.len() implies (#[trigger] from[d]) < pers.len() && d < vp.len() by {
        assert(from[d] == kept_transitions(pers, newen, pers.len() as int)[d - 1]);
        assert(s.to_dbm_index@[from[d] as int] == d);
    }
    assert forall|a: int, b: int|
        1 <= a < from.len() && 1 <= b < from.len() && a != b && pers[from[a] as int] && pers[from[b] as int]
            implies crate::computation::dbm::meets(
            class.dbm.bound(
                class.to_dbm_index@[from[a] as int] as int,
                class.to_dbm_index@[from[b] as int] as int,
            ),
            #[trigger] vp[a] - #[trigger] vp[b],
        ) by {
        assert(crate::computation::dbm::meets(
            successor_bound(class, t, pers, intervals, next_clocks(pers, newen), a, b),
            vp[a] - vp[b],
        ));
    }
    assert forall|a: int| 1 <= a < from.len() && pers[from[a] as int] implies {
        &&& crate::computation::dbm::meets(
            class.dbm.bound(class.to_dbm_index@[from[a] as int] as int, class.to_dbm_index@[t] as int),
            #[trigger] vp[a] - vp[0],
        )
        &&& crate::computation::dbm::meets(
            class.dbm.bound(class.to_dbm_index@[t] as int, class.to_dbm_index@[from[a] as int] as int),
            vp[0] - vp[a],
        )
    } by {
        assert(crate::computation::dbm::meets(
            successor_bound(class, t, pers, intervals, next_clocks(pers, newen), a, 0),
            vp[a] - vp[0],
        ));
        assert(crate::computation::dbm::meets(
            successor_bound(class, t, pers, intervals, next_clocks(pers, newen), 0, a),
            vp[0] - vp[a],
        ));
    }
    assert forall|a: int| 1 <= a < from.len() && !pers[from[a] as int] implies within_interval(
        intervals[from[a] as int],
        #[trigger] vp[a] - vp[0],
    ) by {
        let u = from[a] as int;
        assert(crate::computation::dbm::meets(
            successor_bound(class, t, pers, intervals, next_clocks(pers, newen), a, 0),
            vp[a] - vp[0],
        ));
        assert(crate::computation::dbm::meets(
            successor_bound(class, t, pers, intervals, next_clocks(pers, newen), 0, a),
            vp[0] - vp[a],
        ));
        assert(intervals[u].0 != Bound::Large(i32::MIN) && intervals[u].0 != Bound::Strict(i32::MIN));
    }
}

/// Whether firing `t` from `class` leads nowhere: a persistent transition must fire first, or
/// no valuation meets the matrix built for the next class.
pub open spec fn blocked(
    class: StateClass,
    t: int,
    pers: Seq<bool>,
    newen: Seq<bool>,
    intervals: Seq<(Bound, Bound)>,
) -> bool {
    late_firing(class, t, pers) || forall|v: Seq<int>|
        v.len() == next_dim(pers, newen) ==> !#[trigger] meets_successor(class, t, pers, newen, intervals, v)
}

/// Whether two classes have the same marking and the same matrix; the class graph tells
/// classes apart by these alone.
pub open spec fn same_class(a: StateClass, b: StateClass) -> bool {
    &&& a.discrete@ == b.discrete@
    &&& a.dbm.dim() == b.dbm.dim()
    &&& forall|x: int, y: int|
        0 <= x < a.dbm.dim() && 0 <= y < a.dbm.dim() ==> #[trigger] a.dbm.bound(x, y) == b.dbm.bound(x, y)
}

/// Whether `c` is a class of a net of `n` transitions: a square matrix, a clock for each
/// transition among those of the matrix, and transitions of the net behind the clocks.
pub open spec fn class_ok(c: StateClass, n: nat) -> bool {
    &&& c.wf()
    &&& c.to_dbm_index@.len() == n
    &&& forall|d: int| 0 <= d < c.from_dbm_index@.len() ==> (#[trigger] c.from_dbm_index@[d]) < n
}

/// Whether the transition of clock `d` of class `i` of `cs` leads nowhere, or to a class
/// that some class of `cs` equals and that records class `i` and the transition among its
/// predecessors, for an outcome that `fire` gives for the firing.
pub open spec fn closed_step<F: Fn(&VirtualMemory, usize) -> (VirtualMemory, Vec<bool>, Vec<bool>)>(
    cs: Seq<StateClass>,
    i: int,
    d: int,
    fire: F,
    intervals: Seq<(Bound, Bound)>,
) -> bool {
    exists|out: (VirtualMemory, Vec<bool>, Vec<bool>)|
        #[trigger] fire.ensures((&cs[i].discrete, cs[i].from_dbm_index@[d]), out) && (blocked(
            cs[i],
            cs[i].from_dbm_index@[d] as int,
            out.2@,
            out.1@,
            intervals,
        ) || exists|j: int, s: StateClass|
            #![trigger same_class(cs[j], s)]
            0 <= j < cs.len() && is_successor(
                cs[i],
                cs[i].from_dbm_index@[d] as int,
                out.0,
                out.2@,
                out.1@,
                intervals,
                s,
            ) && same_class(cs[j], s) && cs[j].predecessors@.contains((i as usize, cs[i].from_dbm_index@[d])))
}

/// Whether every transition of class `i` of `cs` leads nowhere or to a class that some class
/// of `cs` equals, which records the link back.
pub open spec fn closed_at<F: Fn(&VirtualMemory, usize) -> (VirtualMemory, Vec<bool>, Vec<bool>)>(
    cs: Seq<StateClass>,
    i: int,
    fire: F,
    intervals: Seq<(Bound, Bound)>,
) -> bool {
    forall|d: int| 1 <= d < cs[i].from_dbm_index@.len() ==> #[trigger] closed_step(cs, i, d, fire, intervals)
}

proof fn lemma_step_grows<F: Fn(&VirtualMemory, usize) -> (VirtualMemory, Vec<bool>, Vec<bool>)>(
    cs: Seq<StateClass>,
    x: StateClass,
    i: int,
    d: int,
    fire: F,
    intervals: Seq<(Bound, Bound)>,
)
    requires
        0 <= i < cs.len(),
        closed_step(cs, i, d, fire, intervals),
    ensures
        closed_step(cs.push(x), i, d, fire, intervals),
{
    let cs2 = cs.push(x);
    assert(cs2[i] == cs[i]);
    let out = choose|out: (VirtualMemory, Vec<bool>, Vec<bool>)|
        #[trigger] fire.ensures((&cs[i].discrete, cs[i].from_dbm_index@[d]), out) && (blocked(
            cs[i],
            cs[i].from_dbm_index@[d] as int,
            out.2@,
            out.1@,
            intervals,
        ) || exists|j: int, s: StateClass|
            #![trigger same_class(cs[j], s)]
            0 <= j < cs.len() && is_successor(
                cs[i],
                cs[i].from_dbm_index@[d] as int,
                out.0,
                out.2@,
                out.1@,
                intervals,
                s,
            ) && same_class(cs[j], s) && cs[j].predecessors@.contains((i as usize, cs[i].from_dbm_index@[d])));
    if !blocked(cs[i], cs[i].from_dbm_index@[d] as int, out.2@, out.1@, intervals) {
        let (j, s) = choose|j: int, s: StateClass|
            #![trigger same_class(cs[j], s)]
            0 <= j < cs.len() && is_successor(
                cs[i],
                cs[i].from_dbm_index@[d] as int,
                out.0,
                out.2@,
                out.1@,
                intervals,
                s,
            ) && same_class(cs[j], s) && cs[j].predecessors@.contains((i as usize, cs[i].from_dbm_index@[d]));
        assert(cs2[j] == cs[j]);
        assert(same_class(cs2[j], s));
    }
}

/// Whether two classes are the same but for their predecessors.
pub open spec fn same_core(a: StateClass, b: StateClass) -> bool {
    &&& a.discrete == b.discrete
    &&& a.dbm == b.dbm
    &&& a.to_dbm_index@ == b.to_dbm_index@
    &&& a.from_dbm_index@ == b.from_dbm_index@
    &&& a.index == b.index
}

/// Whether the link `link` into class `j` of `cs` is a step of the graph: the transition
/// `link.1` is one of the clocks of class `link.0`, and firing it there leads, for an outcome
/// that `fire` gives, to a class that class `j` equals.
pub open spec fn link_ok<F: Fn(&VirtualMemory, usize) -> (VirtualMemory, Vec<bool>, Vec<bool>)>(
    cs: Seq<StateClass>,
    j: int,
    link: (usize, usize),
    fire: F,
    intervals: Seq<(Bound, Bound)>,
) -> bool {
    let p = link.0 as int;
    &&& 0 <= p < cs.len()
    &&& exists|d: int, out: (VirtualMemory, Vec<bool>, Vec<bool>), s: StateClass|
        #![trigger fire.ensures((&cs[p].discrete, cs[p].from_dbm_index@[d]), out), is_successor(cs[p], cs[p].from_dbm_index@[d] as int, out.0, out.2@, out.1@, intervals, s)]
        1 <= d < cs[p].from_dbm_index@.len() && cs[p].from_dbm_index@[d] == link.1 && fire.ensures(
            (&cs[p].discrete, cs[p].from_dbm_index@[d]),
            out,
        ) && is_successor(cs[p], cs[p].from_dbm_index@[d] as int, out.0, out.2@, out.1@, intervals, s)
            && same_class(cs[j], s)
}

/// Whether every link recorded by a class of `cs` is a step of the graph.
pub open spec fn links_ok<F: Fn(&VirtualMemory, usize) -> (VirtualMemory, Vec<bool>, Vec<bool>)>(
    cs: Seq<StateClass>,
    fire: F,
    intervals: Seq<(Bound, Bound)>,
) -> bool {
    forall|j: int, m: int|
        0 <= j < cs.len() && 0 <= m < cs[j].predecessors@.len() ==> #[trigger] link_ok(
            cs,
            j,
            cs[j].predecessors@[m],
            fire,
            intervals,
        )
}

/// Whether `cs2` holds the classes of `cs`, each with its predecessors kept and maybe more
/// after them.
pub open spec fn grows_links(cs: Seq<StateClass>, cs2: Seq<StateClass>) -> bool {
    &&& cs2.len() == cs.len()
    &&& forall|x: int|
        0 <= x < cs.len() ==> same_core(#[trigger] cs2[x], cs[x]) && cs[x].predecessors@.len()
            <= cs2[x].predecessors@.len() && forall|m: int|
            0 <= m < cs[x].predecessors@.len() ==> #[trigger] cs2[x].predecessors@[m]
                == cs[x].predecessors@[m]
}

/// Whether a class is a successor, or the firing is blocked, does not depend on the
/// predecessors of the class fired from.
proof fn lemma_core_successor(
    c1: StateClass,
    c2: StateClass,
    t: int,
    discrete: VirtualMemory,
    pers: Seq<bool>,
    newen: Seq<bool>,
    intervals: Seq<(Bound, Bound)>,
    s: StateClass,
)
    requires
        same_core(c1, c2),
    ensures
        is_successor(c1, t, discrete, pers, newen, intervals, s) == is_successor(
            c2,
            t,
            discrete,
            pers,
            newen,
            intervals,
            s,
        ),
        blocked(c1, t, pers, newen, intervals) == blocked(c2, t, pers, newen, intervals),
        class_ok(c1, intervals.len()) == class_ok(c2, intervals.len()),
{
    assert forall|a: int, b: int, from: Seq<usize>|
        #[trigger] successor_bound(c1, t, pers, intervals, from, a, b) == successor_bound(
            c2,
            t,
            pers,
            intervals,
            from,
            a,
            b,
        ) by {}
    let from = next_clocks(pers, newen);
    assert forall|v: Seq<int>|
        #![trigger meets_successor(c1, t, pers, newen, intervals, v)]
        #![trigger meets_successor(c2, t, pers, newen, intervals, v)]
        meets_successor(c1, t, pers, newen, intervals, v) == meets_successor(
            c2,
            t,
            pers,
            newen,
            intervals,
            v,
        ) by {
        if meets_successor(c1, t, pers, newen, intervals, v) {
            assert forall|a: int, b: int|
                0 <= a < v.len() && 0 <= b < v.len() implies crate::computation::dbm::meets(
                #[trigger] successor_bound(c2, t, pers, intervals, from, a, b),
                v[a] - v[b],
            ) by {
                assert(successor_bound(c1, t, pers, intervals, from, a, b) == successor_bound(
                    c2,
                    t,
                    pers,
                    intervals,
                    from,
                    a,
                    b,
                ));
            }
        }
        if meets_successor(c2, t, pers, newen, intervals, v) {
            assert forall|a: int, b: int|
                0 <= a < v.len() && 0 <= b < v.len() implies crate::computation::dbm::meets(
                #[trigger] successor_bound(c1, t, pers, intervals, from, a, b),
                v[a] - v[b],
            ) by {
                assert(successor_bound(c1, t, pers, intervals, from, a, b) == successor_bound(
                    c2,
                    t,
                    pers,
                    intervals,
                    from,
                    a,
                    b,
                ));
            }
        }
    }
    assert(late_firing(c1, t, pers) == late_firing(c2, t, pers));
}

/// Growing the predecessors of the classes keeps the steps closed, the classes reached and
/// the links recorded.
proof fn lemma_links_grow<F: Fn(&VirtualMemory, usize) -> (VirtualMemory, Vec<bool>, Vec<bool>)>(
    cs: Seq<StateClass>,
    cs2: Seq<StateClass>,
    fire: F,
    intervals: Seq<(Bound, Bound)>,
)
    requires
        grows_links(cs, cs2),
    ensures
        forall|i: int, d: int|
            0 <= i < cs.len() && #[trigger] closed_step(cs, i, d, fire, intervals) ==> closed_step(
                cs2,
                i,
                d,
                fire,
                intervals,
            ),
        forall|i: int| 0 <= i < cs.len() && #[trigger] closed_at(cs, i, fire, intervals) ==> closed_at(cs2, i, fire, intervals),
        all_reached(cs, fire, intervals) ==> all_reached(cs2, fire, intervals),
        forall|j: int, link: (usize, usize)|
            0 <= j < cs.len() && #[trigger] link_ok(cs, j, link, fire, intervals) ==> link_ok(
                cs2,
                j,
                link,
                fire,
                intervals,
            ),
        forall|x: int, y: StateClass| 0 <= x < cs.len() ==> #[trigger] same_class(cs2[x], y) == same_class(cs[x], y),
        forall|x: int, y: int| 0 <= x < cs.len() && 0 <= y < cs.len() ==> same_class(#[trigger] cs2[x], #[trigger] cs2[y]) == same_class(cs[x], cs[y]),
{
    assert forall|i: int, d: int|
        0 <= i < cs.len() && #[trigger] closed_step(cs, i, d, fire, intervals) implies closed_step(
        cs2,
        i,
        d,
        fire,
        intervals,
    ) by {
        assert(same_core(cs2[i], cs[i]));
        let t = cs[i].from_dbm_index@[d];
        let out = choose|out: (VirtualMemory, Vec<bool>, Vec<bool>)|
            #[trigger] fire.ensures((&cs[i].discrete, cs[i].from_dbm_index@[d]), out) && (blocked(
                cs[i],
                cs[i].from_dbm_index@[d] as int,
                out.2@,
                out.1@,
                intervals,
            ) || exists|j: int, s: StateClass|
                #![trigger same_class(cs[j], s)]
                0 <= j < cs.len() && is_successor(
                    cs[i],
                    cs[i].from_dbm_index@[d] as int,
                    out.0,
                    out.2@,
                    out.1@,
                    intervals,
                    s,
                ) && same_class(cs[j], s) && cs[j].predecessors@.contains((i as usize, cs[i].from_dbm_index@[d])));
        lemma_core_successor(cs[i], cs2[i], t as int, out.0, out.2@, out.1@, intervals, cs[i]);
        assert(fire.ensures((&cs2[i].discrete, cs2[i].from_dbm_index@[d]), out));
        if !blocked(cs[i], t as int, out.2@, out.1@, intervals) {
            let (j, s) = choose|j: int, s: StateClass|
                #![trigger same_class(cs[j], s)]
                0 <= j < cs.len() && is_successor(
                    cs[i],
                    cs[i].from_dbm_index@[d] as int,
                    out.0,
                    out.2@,
                    out.1@,
                    intervals,
                    s,
                ) && same_class(cs[j], s) && cs[j].predecessors@.contains((i as usize, cs[i].from_dbm_index@[d]));
            lemma_core_successor(cs[i], cs2[i], t as int, out.0, out.2@, out.1@, intervals, s);
            assert(same_core(cs2[j], cs[j]));
            assert(same_class(cs2[j], s));
            let m = choose|m: int| 0 <= m < cs[j].predecessors@.len() && cs[j].predecessors@[m] == (i as usize, t);
            assert(cs2[j].predecessors@[m] == cs[j].predecessors@[m]);
            assert(cs2[j].predecessors@.contains((i as usize, cs2[i].from_dbm_index@[d])));
        }
    }
    assert forall|i: int| 0 <= i < cs.len() && #[trigger] closed_at(cs, i, fire, intervals) implies closed_at(
        cs2,
        i,
        fire,
        intervals,
    ) by {
        assert(same_core(cs2[i], cs[i]));
        assert forall|d: int| 1 <= d < cs2[i].from_dbm_index@.len() implies #[trigger] closed_step(
            cs2,
            i,
            d,
            fire,
            intervals,
        ) by {
            assert(closed_step(cs, i, d, fire, intervals));
        }
    }
    if all_reached(cs, fire, intervals) {
        assert forall|j: int| 1 <= j < cs2.len() implies #[trigger] reached_step(cs2, j, fire, intervals) by {
            assert(reached_step(cs, j, fire, intervals));
            let (i, d, out, sc) = choose|i: int, d: int, out: (VirtualMemory, Vec<bool>, Vec<bool>), s: StateClass|
                #![trigger fire.ensures((&cs[i].discrete, cs[i].from_dbm_index@[d]), out), is_successor(cs[i], cs[i].from_dbm_index@[d] as int, out.0, out.2@, out.1@, intervals, s)]
                0 <= i < j && 1 <= d < cs[i].from_dbm_index@.len() && fire.ensures(
                    (&cs[i].discrete, cs[i].from_dbm_index@[d]),
                    out,
                ) && is_successor(cs[i], cs[i].from_dbm_index@[d] as int, out.0, out.2@, out.1@, intervals, s)
                    && same_class(cs[j], s);
            assert(same_core(cs2[i], cs[i]));
            assert(same_core(cs2[j], cs[j]));
            lemma_core_successor(cs[i], cs2[i], cs[i].from_dbm_index@[d] as int, out.0, out.2@, out.1@, intervals, sc);
            assert(fire.ensures((&cs2[i].discrete, cs2[i].from_dbm_index@[d]), out));
            assert(is_successor(cs2[i], cs2[i].from_dbm_index@[d] as int, out.0, out.2@, out.1@, intervals, sc));
        }
    }
    assert forall|j: int, link: (usize, usize)|
        0 <= j < cs.len() && #[trigger] link_ok(cs, j, link, fire, intervals) implies link_ok(
        cs2,
        j,
        link,
        fire,
        intervals,
    ) by {
        let p = link.0 as int;
        let (d, out, sc) = choose|d: int, out: (VirtualMemory, Vec<bool>, Vec<bool>), s: StateClass|
            #![trigger fire.ensures((&cs[p].discrete, cs[p].from_dbm_index@[d]), out), is_successor(cs[p], cs[p].from_dbm_index@[d] as int, out.0, out.2@, out.1@, intervals, s)]
            1 <= d < cs[p].from_dbm_index@.len() && cs[p].from_dbm_index@[d] == link.1 && fire.ensures(
                (&cs[p].discrete, cs[p].from_dbm_index@[d]),
                out,
            ) && is_successor(cs[p], cs[p].from_dbm_index@[d] as int, out.0, out.2@, out.1@, intervals, s)
                && same_class(cs[j], s);
        assert(same_core(cs2[p], cs[p]));
        assert(same_core(cs2[j], cs[j]));
        lemma_core_successor(cs[p], cs2[p], cs[p].from_dbm_index@[d] as int, out.0, out.2@, out.1@, intervals, sc);
        assert(fire.ensures((&cs2[p].discrete, cs2[p].from_dbm_index@[d]), out));
        assert(is_successor(cs2[p], cs2[p].from_dbm_index@[d] as int, out.0, out.2@, out.1@, intervals, sc));
    }
    assert forall|x: int, y: StateClass| 0 <= x < cs.len() implies #[trigger] same_class(cs2[x], y) == same_class(cs[x], y) by {
        assert(same_core(cs2[x], cs[x]));
    }
    assert forall|x: int, y: int| 0 <= x < cs.len() && 0 <= y < cs.len() implies same_class(#[trigger] cs2[x], #[trigger] cs2[y]) == same_class(cs[x], cs[y]) by {
        assert(same_core(cs2[x], cs[x]));
        assert(same_core(cs2[y], cs[y]));
    }
}

/// Whether class `j` of `cs` is reached from an earlier class of `cs`: it is, up to
/// `same_class`, the class that firing one of the earlier class's transitions leads to, for an
/// outcome that `fire` gives for the firing.
pub open spec fn reached_step<F: Fn(&VirtualMemory, usize) -> (VirtualMemory, Vec<bool>, Vec<bool>)>(
    cs: Seq<StateClass>,
    j: int,
    fire: F,
    intervals: Seq<(Bound, Bound)>,
) -> bool {
    exists|i: int, d: int, out: (VirtualMemory, Vec<bool>, Vec<bool>), s: StateClass|
        #![trigger fire.ensures((&cs[i].discrete, cs[i].from_dbm_index@[d]), out), is_successor(cs[i], cs[i].from_dbm_index@[d] as int, out.0, out.2@, out.1@, intervals, s)]
        0 <= i < j && 1 <= d < cs[i].from_dbm_index@.len() && fire.ensures(
            (&cs[i].discrete, cs[i].from_dbm_index@[d]),
            out,
        ) && is_successor(cs[i], cs[i].from_dbm_index@[d] as int, out.0, out.2@, out.1@, intervals, s)
            && same_class(cs[j], s)
}

/// Whether every class of `cs` but the first is reached from an earlier one.
pub open spec fn all_reached<F: Fn(&VirtualMemory, usize) -> (VirtualMemory, Vec<bool>, Vec<bool>)>(
    cs: Seq<StateClass>,
    fire: F,
    intervals: Seq<(Bound, Bound)>,
) -> bool {
    forall|j: int| 1 <= j < cs.len() ==> #[trigger] reached_step(cs, j, fire, intervals)
}

proof fn lemma_reached_grows<F: Fn(&VirtualMemory, usize) -> (VirtualMemory, Vec<bool>, Vec<bool>)>(
    cs: Seq<StateClass>,
    x: StateClass,
    fire: F,
    intervals: Seq<(Bound, Bound)>,
)
    requires
        all_reached(cs, fire, intervals),
    ensures
        forall|j: int| 1 <= j < cs.len() ==> #[trigger] reached_step(cs.push(x), j, fire, intervals),
{
    assert forall|j: int| 1 <= j < cs.len() implies #[trigger] reached_step(cs.push(x), j, fire, intervals) by {
        assert(reached_step(cs, j, fire, intervals));
        let (i, d, out, sc) = choose|i: int, d: int, out: (VirtualMemory, Vec<bool>, Vec<bool>), s: StateClass|
            #![trigger fire.ensures((&cs[i].discrete, cs[i].from_dbm_index@[d]), out), is_successor(cs[i], cs[i].from_dbm_index@[d] as int, out.0, out.2@, out.1@, intervals, s)]
            0 <= i < j && 1 <= d < cs[i].from_dbm_index@.len() && fire.ensures(
                (&cs[i].discrete, cs[i].from_dbm_index@[d]),
                out,
            ) && is_successor(cs[i], cs[i].from_dbm_index@[d] as int, out.0, out.2@, out.1@, intervals, s)
                && same_class(cs[j], s);
        let cs2 = cs.push(x);
        assert(cs2[i] == cs[i]);
        assert(cs2[j] == cs[j]);
        assert(fire.ensures((&cs2[i].discrete, cs2[i].from_dbm_index@[d]), out));
        assert(is_successor(cs2[i], cs2[i].from_dbm_index@[d] as int, out.0, out.2@, out.1@, intervals, sc));
    }
}

/// A link recorded in `cs` stays a step of the graph when a class is added.
proof fn lemma_link_push<F: Fn(&VirtualMemory, usize) -> (VirtualMemory, Vec<bool>, Vec<bool>)>(
    cs: Seq<StateClass>,
    x: StateClass,
    j: int,
    link: (usize, usize),
    fire: F,
    intervals: Seq<(Bound, Bound)>,
)
    requires
        0 <= j < cs.len(),
        link_ok(cs, j, link, fire, intervals),
    ensures
        link_ok(cs.push(x), j, link, fire, intervals),
{
    let cs2 = cs.push(x);
    let p = link.0 as int;
    let (d, out, sc) = choose|d: int, out: (VirtualMemory, Vec<bool>, Vec<bool>), s: StateClass|
        #![trigger fire.ensures((&cs[p].discrete, cs[p].from_dbm_index@[d]), out), is_successor(cs[p], cs[p].from_dbm_index@[d] as int, out.0, out.2@, out.1@, intervals, s)]
        1 <= d < cs[p].from_dbm_index@.len() && cs[p].from_dbm_index@[d] == link.1 && fire.ensures(
            (&cs[p].discrete, cs[p].from_dbm_index@[d]),
            out,
        ) && is_successor(cs[p], cs[p].from_dbm_index@[d] as int, out.0, out.2@, out.1@, intervals, s)
            && same_class(cs[j], s);
    assert(cs2[p] == cs[p]);
    assert(cs2[j] == cs[j]);
    assert(fire.ensures((&cs2[p].discrete, cs2[p].from_dbm_index@[d]), out));
    assert(is_successor(cs2[p], cs2[p].from_dbm_index@[d] as int, out.0, out.2@, out.1@, intervals, sc));
}

proof fn lemma_closed_grows<F: Fn(&VirtualMemory, usize) -> (VirtualMemory, Vec<bool>, Vec<bool>)>(
    cs: Seq<StateClass>,
    x: StateClass,
    i: int,
    fire: F,
    intervals: Seq<(Bound, Bound)>,
)
    requires
        0 <= i < cs.len(),
        closed_at(cs, i, fire, intervals),
    ensures
        closed_at(cs.push(x), i, fire, intervals),
{
    assert(cs.push(x)[i] == cs[i]);
    assert forall|d: int| 1 <= d < cs.push(x)[i].from_dbm_index@.len() implies #[trigger] closed_step(
        cs.push(x),
        i,
        d,
        fire,
        intervals,
    ) by {
        lemma_step_grows(cs, x, i, d, fire, intervals);
    }
}

proof fn lemma_kept_below(pers: Seq<bool>, newen: Seq<bool>, n: int)
    requires
        0 <= n <= pers.len(),
        newen.len() == pers.len(),
    ensures
        forall|d: int|
            0 <= d < kept_transitions(pers, newen, n).len() ==> (#[trigger] kept_transitions(pers, newen, n)[d])
                < n,
    decreases n,
{
    if n > 0 {
        lemma_kept_below(pers, newen, n - 1);
        let k = kept_transitions(pers, newen, n - 1);
        if pers[n - 1] || newen[n - 1] {
            assert forall|d: int| 0 <= d < k.len() + 1 implies (#[trigger] k.push((n - 1) as usize)[d]) < n by {
                if d < k.len() {
                    assert(k.push((n - 1) as usize)[d] == k[d]);
                }
            }
        }
    }
}

/// A class of states of a time Petri net: a marking and the zone of the clocks of the
/// enabled transitions, clock `0` being the zero clock.
#[derive(Debug)]
pub struct StateClass {
    pub discrete: VirtualMemory,
    pub dbm: DBM,
    /// For each transition, its clock in the matrix; `0` for a transition not enabled.
    pub to_dbm_index: Vec<usize>,
    /// For each clock of the matrix after the zero clock, its transition.
    pub from_dbm_index: Vec<usize>,
    pub index: usize,
    /// The classes this class is reached from, each with the transition fired there: the
    /// index of the class in its graph, then the transition.
    pub predecessors: Vec<(usize, usize)>,
}

impl StateClass {
    /// The matrix is square and every transition's clock is one of its clocks.
    pub open spec fn wf(&self) -> bool {
        &&& self.dbm.wf()
        &&& forall|t: int|
            0 <= t < self.to_dbm_index@.len() ==> #[trigger] self.to_dbm_index@[t] < self.dbm.dim()
    }

    /// The class of the state whose marking is `discrete` and whose enabled transitions are
    /// those marked in `enabled`, all clocks at zero: each enabled transition gets a clock,
    /// in order, bounded by its firing interval.
    pub fn compute_class(discrete: VirtualMemory, enabled: &Vec<bool>, intervals: &Vec<(Bound, Bound)>) -> (r:
        StateClass)
        requires
            enabled@.len() == intervals@.len(),
            (intervals@.len() + 1) * (intervals@.len() + 1) <= usize::MAX,
            forall|t: int|
                0 <= t < intervals@.len() ==> (#[trigger] intervals@[t]).0 != Bound::Large(i32::MIN)
                    && intervals@[t].0 != Bound::Strict(i32::MIN),
        ensures
            r.wf(),
            r.discrete == discrete,
            r.index == 0,
            r.predecessors@ == Seq::<(usize, usize)>::empty(),
            r.from_dbm_index@ == seq![0usize] + kept_transitions(enabled@, enabled@, enabled@.len() as int),
            r.to_dbm_index@.len() == intervals@.len(),
            forall|d: int|
                1 <= d < r.from_dbm_index@.len() ==> #[trigger] r.to_dbm_index@[r.from_dbm_index@[d] as int]
                    == d,
            r.dbm.dim() == count_true(enabled@) + 1,
            forall|v: Seq<int>|
                #[trigger] r.dbm.satisfies(v) == (v.len() == r.dbm.dim() && forall|d: int|
                    1 <= d < r.from_dbm_index@.len() ==> crate::computation::dbm::meets(
                        intervals@[r.from_dbm_index@[d] as int].1,
                        v[d] - v[0],
                    ) && crate::computation::dbm::meets(
                        lower(intervals@[#[trigger] r.from_dbm_index@[d] as int].0),
                        v[0] - v[d],
                    )),
    {
        let n = intervals.len();
        let ghost es = enabled@;
        let mut vars: usize = 0;
        let mut i: usize = 0;
        while i < n
            invariant
                i <= n,
                n == es.len(),
                es == enabled@,
                vars == count_true(es.take(i as int)),
                count_true(es.take(i as int)) <= i,
            decreases n - i,
        {
            proof {
                lemma_count_take(es, i as int);
            }
            if enabled[i] {
                vars += 1;
            }
            i += 1;
        }
        proof {
            assert(es.take(n as int) =~= es);
            assert((vars + 1) * (vars + 1) <= usize::MAX) by (nonlinear_arith)
                requires
                    vars <= n,
                    (n + 1) * (n + 1) <= usize::MAX,
            ;
        }
        let mut dbm = DBM::new(vars);
        proof {
            assert forall|v: Seq<int>| #[trigger] dbm.satisfies(v) == (v.len() == dbm.dim()) by {
                if v.len() == dbm.dim() {
                    assert forall|a: int, b: int|
                        0 <= a < dbm.dim() && 0 <= b < dbm.dim() implies crate::computation::dbm::meets(
                        #[trigger] dbm.bound(a, b),
                        v[a] - v[b],
                    ) by {}
                }
            }
        }
        let mut to_dbm: Vec<usize> = vec![0; n];
        let mut from_dbm: Vec<usize> = vec![0];
        i = 0;
        while i < n
            invariant
                i <= n,
                n == es.len(),
                es == enabled@,
                intervals@.len() == n,
                forall|t: int|
                    0 <= t < n ==> (#[trigger] intervals@[t]).0 != Bound::Large(i32::MIN) && intervals@[t].0
                        != Bound::Strict(i32::MIN),
                dbm.wf(),
                dbm.dim() == vars + 1,
                vars == count_true(es),
                from_dbm@ == seq![0usize] + kept_transitions(es, es, i as int),
                from_dbm@.len() <= count_true(es.take(i as int)) + 1,
                to_dbm@.len() == n,
                forall|t: int| 0 <= t < n ==> #[trigger] to_dbm@[t] < from_dbm@.len(),
                forall|d: int| 1 <= d < from_dbm@.len() ==> #[trigger] to_dbm@[from_dbm@[d] as int] == d,
                forall|d: int| 0 <= d < from_dbm@.len() ==> (#[trigger] from_dbm@[d]) < i || d == 0,
                forall|v: Seq<int>|
                    #[trigger] dbm.satisfies(v) == (v.len() == dbm.dim() && forall|d: int|
                        1 <= d < from_dbm@.len() ==> crate::computation::dbm::meets(
                            intervals@[from_dbm@[d] as int].1,
                            v[d] - v[0],
                        ) && crate::computation::dbm::meets(
                            lower(intervals@[#[trigger] from_dbm@[d] as int].0),
                            v[0] - v[d],
                        )),
            decreases n - i,
        {
            proof {
                lemma_count_take(es, i as int);
                lemma_count_bounded(es, i + 1);
                assert(kept_transitions(es, es, i + 1) == if es[i as int] || es[i as int] {
                    kept_transitions(es, es, i as int).push(i)
                } else {
                    kept_transitions(es, es, i as int)
                });
            }
            if enabled[i] {
                let d = from_dbm.len();
                let ghost from0 = from_dbm@;
                to_dbm.set(i, d);
                from_dbm.push(i);
                let ghost from1 = from_dbm@;
                assert(from1 =~= seq![0usize] + kept_transitions(es, es, i + 1));
                let ghost z0 = dbm;
                dbm.add(d, 0, intervals[i].1);
                dbm.add(0, d, intervals[i].0.negated());
                proof {
                    assert forall|v: Seq<int>|
                        #[trigger] dbm.satisfies(v) == (v.len() == dbm.dim() && forall|dd: int|
                            1 <= dd < from1.len() ==> crate::computation::dbm::meets(
                                intervals@[from1[dd] as int].1,
                                v[dd] - v[0],
                            ) && crate::computation::dbm::meets(
                                lower(intervals@[#[trigger] from1[dd] as int].0),
                                v[0] - v[dd],
                            )) by {
                        assert forall|dd: int| 1 <= dd < from0.len() implies from1[dd] == from0[dd] by {}
                        assert(from1[d as int] == i);
                    }
                    assert forall|dd: int| 1 <= dd < from1.len() implies #[trigger] to_dbm@[from1[dd] as int]
                        == dd by {
                        if dd < from0.len() {
                            assert(from1[dd] == from0[dd]);
                            assert(from0[dd] < i);
                        }
                    }
                }
            }
            i += 1;
        }
        proof {
            assert(es.take(n as int) =~= es);
        }
        let r = StateClass {
            discrete,
            dbm,
            to_dbm_index: to_dbm,
            from_dbm_index: from_dbm,
            index: 0,
            predecessors: Vec::new(),
        };
        proof {
            assert forall|t: int| 0 <= t < r.to_dbm_index@.len() implies #[trigger] r.to_dbm_index@[t]
                < r.dbm.dim() by {}
        }
        r
    }

    /// A copy of the class with its matrix given by `dbm`, and with no index (`usize::MAX`).
    fn with_dbm(&self, dbm: DBM) -> (r: StateClass)
        ensures
            r.discrete@ == self.discrete@,
            r.dbm == dbm,
            r.to_dbm_index@ == self.to_dbm_index@,
            r.from_dbm_index@ == self.from_dbm_index@,
            r.index == usize::MAX,
            r.predecessors@ == self.predecessors@,
    {
        let mut discrete = VirtualMemory::from_size(self.discrete.len());
        discrete.copy_from(&self.discrete);
        assert(discrete@ =~= self.discrete@);
        StateClass {
            discrete,
            dbm,
            to_dbm_index: copy_indices(&self.to_dbm_index),
            from_dbm_index: copy_indices(&self.from_dbm_index),
            index: usize::MAX,
            predecessors: copy_links(&self.predecessors),
        }
    }

    /// The class with the upper bounds of its clocks removed.
    pub fn up(&self) -> (r: StateClass)
        requires
            self.wf(),
        ensures
            r.wf(),
            r.discrete@ == self.discrete@,
            r.to_dbm_index@ == self.to_dbm_index@,
            r.from_dbm_index@ == self.from_dbm_index@,
            r.index == usize::MAX,
            r.predecessors@ == self.predecessors@,
            r.dbm.dim() == self.dbm.dim(),
            below(self.dbm.bound(0, 0), Bound::Large(0)) ==> r.dbm.same_bounds(&self.dbm),
            !below(self.dbm.bound(0, 0), Bound::Large(0)) ==> forall|a: int, b: int|
                0 <= a < r.dbm.dim() && 0 <= b < r.dbm.dim() ==> #[trigger] r.dbm.bound(a, b) == if b == 0
                    && a >= 1 {
                    Bound::Infinite
                } else {
                    self.dbm.bound(a, b)
                },
    {
        self.with_dbm(self.dbm.up())
    }

    /// The class with the lower bounds of its clocks relaxed, as `DBM::down` does.
    pub fn down(&self) -> (r: StateClass)
        requires
            self.wf(),
            forall|i: int|
                1 <= i < self.dbm.dim() ==> #[trigger] crate::computation::dbm::add_bounds(
                    self.dbm.bound(0, i),
                    crate::computation::dbm::column_min(self.dbm, self.dbm.dim() as int),
                ) is Some,
        ensures
            r.wf(),
            r.discrete@ == self.discrete@,
            r.to_dbm_index@ == self.to_dbm_index@,
            r.from_dbm_index@ == self.from_dbm_index@,
            r.index == usize::MAX,
            r.predecessors@ == self.predecessors@,
            r.dbm.dim() == self.dbm.dim(),
            below(self.dbm.bound(0, 0), Bound::Large(0)) ==> r.dbm.same_bounds(&self.dbm),
            !below(self.dbm.bound(0, 0), Bound::Large(0)) ==> forall|a: int, b: int|
                0 <= a < r.dbm.dim() && 0 <= b < r.dbm.dim() ==> #[trigger] r.dbm.bound(a, b) == if a == 0
                    && b >= 1 {
                    crate::computation::dbm::bound_min(
                        Bound::Large(0),
                        crate::computation::dbm::add_bounds(
                            self.dbm.bound(0, b),
                            crate::computation::dbm::column_min(self.dbm, self.dbm.dim() as int),
                        )->Some_0,
                    )
                } else {
                    self.dbm.bound(a, b)
                },
    {
        self.with_dbm(self.dbm.down())
    }

    /// Whether no transition can fire from the class: it has no clock, or its matrix is
    /// empty.
    pub fn is_deadlocked(&self) -> (r: bool)
        requires
            self.wf(),
        ensures
            r == (self.dbm.dim() == 1 || below(self.dbm.bound(0, 0), Bound::Large(0))),
    {
        self.dbm.vars_count() == 0 || self.dbm.is_empty()
    }

    /// The transitions whose clocks the class holds.
    pub fn enabled_clocks(&self) -> (r: Vec<usize>)
        ensures
            self.from_dbm_index@.len() <= 1 ==> r@ == Seq::<usize>::empty(),
            self.from_dbm_index@.len() > 1 ==> r@ == self.from_dbm_index@.drop_first(),
    {
        let mut r: Vec<usize> = Vec::new();
        let n = self.from_dbm_index.len();
        if n <= 1 {
            return r;
        }
        let mut i: usize = 1;
        while i < n
            invariant
                1 <= i <= n,
                n == self.from_dbm_index@.len(),
                r@ == self.from_dbm_index@.subrange(1, i as int),
            decreases n - i,
        {
            r.push(self.from_dbm_index[i]);
            i += 1;
            assert(r@ =~= self.from_dbm_index@.subrange(1, i as int));
        }
        assert(self.from_dbm_index@.drop_first() =~= self.from_dbm_index@.subrange(1, n as int));
        r
    }
}

/// The classes of states of a time Petri net reached from an initial class.
pub struct ClassGraph {
    pub classes: Vec<StateClass>,
}

impl ClassGraph {
    /// The class reached from `class` by firing transition `t_index`, the firing having
    /// given the marking `discrete`, the newly enabled transitions `newen` and the
    /// persistent ones `pers`; `intervals` holds the firing interval of each transition,
    /// as a lower and an upper bound. `None` when a persistent transition must fire before
    /// `t_index`, or when the canonical form of the new matrix marks it empty. The new class
    /// records `class` and `t_index` as its one predecessor, and its matrix is canonical
    /// where the bounds are small enough for no sum to overflow.
    pub fn successor(
        class: &StateClass,
        t_index: usize,
        discrete: VirtualMemory,
        newen: &Vec<bool>,
        pers: &Vec<bool>,
        intervals: &Vec<(Bound, Bound)>,
    ) -> (r: Option<StateClass>)
        requires
            class.wf(),
            t_index < intervals@.len(),
            newen@.len() == intervals@.len(),
            pers@.len() == intervals@.len(),
            class.to_dbm_index@.len() == intervals@.len(),
            (2 * intervals@.len() + 1) * (2 * intervals@.len() + 1) <= usize::MAX,
            forall|t: int|
                0 <= t < intervals@.len() ==> (#[trigger] intervals@[t]).0 != Bound::Large(i32::MIN)
                    && intervals@[t].0 != Bound::Strict(i32::MIN),
        ensures
            match r {
                None => blocked(*class, t_index as int, pers@, newen@, intervals@),
                Some(sc) => {
                    &&& is_successor(*class, t_index as int, discrete, pers@, newen@, intervals@, sc)
                    &&& sc.index == 0
                    &&& sc.predecessors@ == seq![(class.index, t_index)]
                    &&& forall|v: Seq<int>, w: Seq<int>|
                        class.dbm.satisfies(v) && (forall|d: int|
                            1 <= d < sc.from_dbm_index@.len() && !pers@[sc.from_dbm_index@[d] as int]
                                ==> within_interval(intervals@[sc.from_dbm_index@[d] as int], #[trigger] w[d]))
                            ==> #[trigger] sc.dbm.satisfies(
                            fired_valuation(*class, t_index as int, pers@, sc.from_dbm_index@, sc.dbm.dim(), v, w),
                        )
                    &&& forall|d: int|
                        0 <= d < sc.dbm.dim() ==> !below(#[trigger] sc.dbm.bound(d, d), Bound::Large(0))
                    &&& successor_small(*class, t_index as int, pers@, newen@, intervals@)
                        ==> sc.dbm.is_canonical()
                },
            },
    {
        let n = intervals.len();
        let ghost ps = pers@;
        let ghost ns = newen@;
        let ghost prev = class.to_dbm_index@;
        let ghost full_from = seq![0usize] + kept_transitions(ps, ns, n as int);
        proof {
            assert(2 * n + 1 <= usize::MAX) by (nonlinear_arith)
                requires
                    (2 * n + 1) * (2 * n + 1) <= usize::MAX,
            ;
        }
        // Count the clocks of the next class.
        let mut vars: usize = 0;
        let mut i: usize = 0;
        while i < n
            invariant
                i <= n,
                n == ps.len(),
                ns.len() == n,
                ps == pers@,
                ns == newen@,
                vars == count_true(ps.take(i as int)) + count_true(ns.take(i as int)),
                2 * n + 1 <= usize::MAX,
                count_true(ps.take(i as int)) <= i,
                count_true(ns.take(i as int)) <= i,
            decreases n - i,
        {
            proof {
                lemma_count_take(ps, i as int);
                lemma_count_take(ns, i as int);
            }
            if pers[i] {
                vars += 1;
            }
            if newen[i] {
                vars += 1;
            }
            i += 1;
        }
        proof {
            assert(ps.take(n as int) =~= ps);
            assert(ns.take(n as int) =~= ns);
            assert((vars + 1) * (vars + 1) <= usize::MAX) by (nonlinear_arith)
                requires
                    vars <= 2 * n,
                    (2 * n + 1) * (2 * n + 1) <= usize::MAX,
            ;
        }
        let fired = class.to_dbm_index[t_index];
        let fired_bound = class.dbm.at(fired, 0);
        let mut next_dbm = DBM::new(vars);
        let mut to_dbm: Vec<usize> = vec![0; n];
        let mut from_dbm: Vec<usize> = vec![0];
        let mut late = false;
        i = 0;
        while i < n
            invariant
                i <= n,
                n == ps.len(),
                ns.len() == n,
                ps == pers@,
                ns == newen@,
                prev == class.to_dbm_index@,
                intervals@.len() == n,
                t_index < n,
                forall|t: int|
                    0 <= t < n ==> (#[trigger] intervals@[t]).0 != Bound::Large(i32::MIN)
                        && intervals@[t].0 != Bound::Strict(i32::MIN),
                class.wf(),
                prev.len() == n,
                fired == prev[t_index as int],
                fired < class.dbm.dim(),
                fired_bound == class.dbm.bound(fired as int, 0),
                next_dbm.wf(),
                next_dbm.dim() == vars + 1,
                vars == count_true(ps) + count_true(ns),
                from_dbm@ == seq![0usize] + kept_transitions(ps, ns, i as int),
                from_dbm@.len() <= count_true(ps.take(i as int)) + count_true(ns.take(i as int)) + 1,
                to_dbm@.len() == n,
                forall|t: int| 0 <= t < n ==> #[trigger] to_dbm@[t] < from_dbm@.len(),
                forall|d: int| 1 <= d < from_dbm@.len() ==> #[trigger] to_dbm@[from_dbm@[d] as int] == d,
                forall|d: int| 0 <= d < from_dbm@.len() ==> (#[trigger] from_dbm@[d]) < i || d == 0,
                !late ==> forall|t: int|
                    0 <= t < i && #[trigger] ps[t] ==> !below(
                        class.dbm.bound(prev[t] as int, 0),
                        class.dbm.bound(fired as int, 0),
                    ),
                late ==> exists|t: int|
                    0 <= t < ps.len() && #[trigger] ps[t] && below(
                        class.dbm.bound(prev[t] as int, 0),
                        class.dbm.bound(fired as int, 0),
                    ),
                forall|a: int, b: int|
                    0 <= a < next_dbm.dim() && 0 <= b < next_dbm.dim() ==> #[trigger] next_dbm.bound(
                        a,
                        b,
                    ) == if a == b {
                        Bound::Large(0)
                    } else if (b == 0 && 1 <= a < from_dbm@.len()) || (a == 0 && 1 <= b
                        < from_dbm@.len()) {
                        successor_bound(*class, t_index as int, ps, intervals@, from_dbm@, a, b)
                    } else {
                        Bound::Infinite
                    },
            decreases n - i,
        {
            proof {
                lemma_count_take(ps, i as int);
                lemma_count_take(ns, i as int);
                lemma_count_bounded(ps, i + 1);
                lemma_count_bounded(ns, i + 1);
                assert(kept_transitions(ps, ns, i + 1) == if ps[i as int] || ns[i as int] {
                    kept_transitions(ps, ns, i as int).push(i)
                } else {
                    kept_transitions(ps, ns, i as int)
                });
            }
            if pers[i] || newen[i] {
                let d = from_dbm.len();
                let ghost from0 = from_dbm@;
                to_dbm.set(i, d);
                from_dbm.push(i);
                let ghost from1 = from_dbm@;
                assert(from1 =~= seq![0usize] + kept_transitions(ps, ns, i + 1));
                let (up, low) = if pers[i] {
                    let p = class.to_dbm_index[i];
                    let bp = class.dbm.at(p, 0);
                    if bp.is_tighter(&fired_bound) && bp != fired_bound {
                        late = true;
                    }
                    (class.dbm.at(p, fired), class.dbm.at(fired, p))
                } else {
                    (intervals[i].1, intervals[i].0.negated())
                };
                let ghost before = next_dbm;
                next_dbm.set(d, 0, up);
                next_dbm.set(0, d, low);
                proof {
                    assert forall|a: int, b: int|
                        0 <= a < next_dbm.dim() && 0 <= b < next_dbm.dim() implies #[trigger] next_dbm.bound(
                        a,
                        b,
                    ) == if a == b {
                        Bound::Large(0)
                    } else if (b == 0 && 1 <= a < from1.len()) || (a == 0 && 1 <= b < from1.len()) {
                        successor_bound(*class, t_index as int, ps, intervals@, from1, a, b)
                    } else {
                        Bound::Infinite
                    } by {
                        if (a == d && b == 0) || (a == 0 && b == d) {
                        } else {
                            assert(next_dbm.bound(a, b) == before.bound(a, b));
                            if (b == 0 && 1 <= a < from0.len()) || (a == 0 && 1 <= b < from0.len()) {
                                assert(from1[a] == from0[a] && from1[b] == from0[b]);
                            }
                        }
                    }
                    assert forall|dd: int| 1 <= dd < from1.len() implies #[trigger] to_dbm@[from1[dd] as int]
                        == dd by {
                        if dd < from0.len() {
                            assert(from1[dd] == from0[dd]);
                            assert(from0[dd] < i);
                        }
                    }
                }
            }
            i += 1;
        }
        proof {
            assert(ps.take(n as int) =~= ps);
            assert(ns.take(n as int) =~= ns);
        }
        if late {
            return None;
        }
        // Bounds between two persistent transitions keep their values.
        let m = from_dbm.len();
        let ghost from = from_dbm@;
        let mut a: usize = 1;
        while a < m
            invariant
                1 <= a <= m,
                m == from.len(),
                from == from_dbm@,
                from == full_from,
                m <= vars + 1,
                ps == pers@,
                prev == class.to_dbm_index@,
                class.wf(),
                prev.len() == n,
                n == ps.len(),
                forall|d: int| 0 <= d < m ==> (#[trigger] from[d]) < n,
                next_dbm.wf(),
                next_dbm.dim() == vars + 1,
                forall|x: int, y: int|
                    0 <= x < next_dbm.dim() && 0 <= y < next_dbm.dim() ==> #[trigger] next_dbm.bound(x, y)
                        == if x == y {
                        Bound::Large(0)
                    } else if (y == 0 && 1 <= x < m) || (x == 0 && 1 <= y < m) || (1 <= x < m && 1 <= y
                        < m && (x < a || y < a)) {
                        successor_bound(*class, t_index as int, ps, intervals@, from, x, y)
                    } else {
                        Bound::Infinite
                    },
            decreases m - a,
        {
            let mut b: usize = a + 1;
            while b < m
                invariant
                    1 <= a < m,
                    a + 1 <= b <= m,
                    m == from.len(),
                    from == from_dbm@,
                    m <= vars + 1,
                    ps == pers@,
                    prev == class.to_dbm_index@,
                    class.wf(),
                    prev.len() == n,
                    n == ps.len(),
                    forall|d: int| 0 <= d < m ==> (#[trigger] from[d]) < n,
                    next_dbm.wf(),
                    next_dbm.dim() == vars + 1,
                    forall|x: int, y: int|
                        0 <= x < next_dbm.dim() && 0 <= y < next_dbm.dim() ==> #[trigger] next_dbm.bound(
                            x,
                            y,
                        ) == if x == y {
                            Bound::Large(0)
                        } else if (y == 0 && 1 <= x < m) || (x == 0 && 1 <= y < m) || (1 <= x < m && 1
                            <= y < m && (x < a || y < a || (x == a && y < b) || (y == a && x < b))) {
                            successor_bound(*class, t_index as int, ps, intervals@, from, x, y)
                        } else {
                            Bound::Infinite
                        },
                decreases m - b,
            {
                let t1 = from_dbm[a];
                let t2 = from_dbm[b];
                if pers[t1] && pers[t2] {
                    let p1 = class.to_dbm_index[t1];
                    let p2 = class.to_dbm_index[t2];
                    let ghost before = next_dbm;
                    next_dbm.set(a, b, class.dbm.at(p1, p2));
                    let ghost mid = next_dbm;
                    next_dbm.set(b, a, class.dbm.at(p2, p1));
                    proof {
                        assert forall|x: int, y: int|
                            0 <= x < next_dbm.dim() && 0 <= y < next_dbm.dim() && !((x == a && y == b) || (x
                                == b && y == a)) implies #[trigger] next_dbm.bound(x, y) == before.bound(x, y) by {
                            assert(next_dbm.bound(x, y) == mid.bound(x, y));
                        }
                    }
                } else {
                    proof {
                        assert(successor_bound(*class, t_index as int, ps, intervals@, from, a as int, b as int)
                            == Bound::Infinite);
                        assert(successor_bound(*class, t_index as int, ps, intervals@, from, b as int, a as int)
                            == Bound::Infinite);
                    }
                }
                b += 1;
            }
            a += 1;
        }
        let ghost built = next_dbm;
        proof {
            assert forall|x: int, y: int|
                0 <= x < built.dim() && 0 <= y < built.dim() implies #[trigger] built.bound(x, y)
                == successor_bound(*class, t_index as int, ps, intervals@, from, x, y) by {
                if x != y && !((y == 0 && 1 <= x < m) || (x == 0 && 1 <= y < m) || (1 <= x < m && 1 <= y
                    < m)) {
                    assert(x >= m || y >= m || (x == 0 && y >= m) || (y == 0 && x >= m));
                }
            }
        }
        proof {
            if successor_small(*class, t_index as int, ps, ns, intervals@) {
                assert forall|x: int, y: int| 0 <= x < built.dim() && 0 <= y < built.dim() implies small_bound(
                    #[trigger] built.bound(x, y),
                    built.dim(),
                ) by {
                    assert(built.bound(x, y) == successor_bound(*class, t_index as int, ps, intervals@, from, x, y));
                }
                assert(built.small());
            }
        }
        next_dbm.make_canonical();
        if next_dbm.is_empty() {
            proof {
                assert forall|v: Seq<int>|
                    v.len() == count_true(ps) + count_true(ns) + 1 implies !(forall|x: int, y: int|
                    0 <= x < v.len() && 0 <= y < v.len() ==> crate::computation::dbm::meets(
                        #[trigger] successor_bound(*class, t_index as int, ps, intervals@, from, x, y),
                        v[x] - v[y],
                    )) by {
                    if forall|x: int, y: int|
                        0 <= x < v.len() && 0 <= y < v.len() ==> crate::computation::dbm::meets(
                            #[trigger] successor_bound(*class, t_index as int, ps, intervals@, from, x, y),
                            v[x] - v[y],
                        ) {
                        assert forall|x: int, y: int|
                            0 <= x < built.dim() && 0 <= y < built.dim() implies crate::computation::dbm::meets(
                            #[trigger] built.bound(x, y),
                            v[x] - v[y],
                        ) by {
                            assert(built.bound(x, y) == successor_bound(
                                *class,
                                t_index as int,
                                ps,
                                intervals@,
                                from,
                                x,
                                y,
                            ));
                        }
                        assert(built.satisfies(v));
                        assert(next_dbm.satisfies(v));
                    }
                }
            }
            return None;
        }
        let ghost fin = next_dbm;
        let sc = StateClass {
            discrete,
            dbm: next_dbm,
            to_dbm_index: to_dbm,
            from_dbm_index: from_dbm,
            index: 0,
            predecessors: vec![(class.index, t_index)],
        };
        proof {
            assert forall|v: Seq<int>|
                #[trigger] sc.dbm.satisfies(v) == (v.len() == sc.dbm.dim() && forall|x: int, y: int|
                    0 <= x < v.len() && 0 <= y < v.len() ==> crate::computation::dbm::meets(
                        #[trigger] successor_bound(*class, t_index as int, ps, intervals@, from, x, y),
                        v[x] - v[y],
                    )) by {
                assert(fin.satisfies(v) == built.satisfies(v));
                if built.satisfies(v) {
                    assert forall|x: int, y: int|
                        0 <= x < v.len() && 0 <= y < v.len() implies crate::computation::dbm::meets(
                        #[trigger] successor_bound(*class, t_index as int, ps, intervals@, from, x, y),
                        v[x] - v[y],
                    ) by {
                        assert(crate::computation::dbm::meets(built.bound(x, y), v[x] - v[y]));
                    }
                }
                if v.len() == sc.dbm.dim() && forall|x: int, y: int|
                    0 <= x < v.len() && 0 <= y < v.len() ==> crate::computation::dbm::meets(
                        #[trigger] successor_bound(*class, t_index as int, ps, intervals@, from, x, y),
                        v[x] - v[y],
                    ) {
                    assert forall|x: int, y: int|
                        0 <= x < built.dim() && 0 <= y < built.dim() implies crate::computation::dbm::meets(
                        #[trigger] built.bound(x, y),
                        v[x] - v[y],
                    ) by {
                        assert(built.bound(x, y) == successor_bound(
                            *class,
                            t_index as int,
                            ps,
                            intervals@,
                            from,
                            x,
                            y,
                        ));
                    }
                }
            }
            assert forall|t: int| 0 <= t < sc.to_dbm_index@.len() implies #[trigger] sc.to_dbm_index@[t]
                < sc.dbm.dim() by {
                assert(sc.to_dbm_index@[t] < m);
            }
            assert(is_successor(*class, t_index as int, discrete, ps, ns, intervals@, sc));
            assert forall|v: Seq<int>, w: Seq<int>|
                class.dbm.satisfies(v) && (forall|d: int|
                    1 <= d < sc.from_dbm_index@.len() && !ps[sc.from_dbm_index@[d] as int] ==> within_interval(
                        intervals@[sc.from_dbm_index@[d] as int],
                        #[trigger] w[d],
                    )) implies #[trigger] sc.dbm.satisfies(
                fired_valuation(*class, t_index as int, ps, sc.from_dbm_index@, sc.dbm.dim(), v, w),
            ) by {
                lemma_successor_holds_firings(*class, t_index as int, discrete, ps, ns, intervals@, sc, v, w);
            }
        }
        Some(sc)
    }
}

/// The number of classes past which the computation of a class graph gives up.
pub const CLASS_LIMIT: usize = 65535;

/// The class graph grew past `CLASS_LIMIT` classes: the net may not be bounded.
#[derive(Debug, Clone, Copy, PartialEq, Eq, Structural)]
pub struct ClassLimit;

impl ClassGraph {
    /// The classes reached from `initial`, the last found explored first: `fire` gives, for
    /// a marking and a transition, the marking after the firing and which transitions are
    /// then newly enabled and persistent. Classes with the same marking and matrix count as
    /// one. Each class gets its place in the graph as its index, and records every class it
    /// is reached from, with the transition fired there, among its predecessors; the initial
    /// class starts with none. Gives up with `ClassLimit` once more than `CLASS_LIMIT` classes
    /// are found.
    pub fn compute<F: Fn(&VirtualMemory, usize) -> (VirtualMemory, Vec<bool>, Vec<bool>)>(
        initial: StateClass,
        intervals: &Vec<(Bound, Bound)>,
        fire: F,
    ) -> (r: Result<ClassGraph, ClassLimit>)
        requires
            class_ok(initial, intervals@.len()),
            (2 * intervals@.len() + 1) * (2 * intervals@.len() + 1) <= usize::MAX,
            forall|t: int|
                0 <= t < intervals@.len() ==> (#[trigger] intervals@[t]).0 != Bound::Large(i32::MIN)
                    && intervals@[t].0 != Bound::Strict(i32::MIN),
            forall|m: &VirtualMemory, t: usize| t < intervals@.len() ==> #[trigger] fire.requires((m, t)),
            forall|m: &VirtualMemory, t: usize, out: (VirtualMemory, Vec<bool>, Vec<bool>)|
                #[trigger] fire.ensures((m, t), out) ==> out.1@.len() == intervals@.len() && out.2@.len()
                    == intervals@.len(),
        ensures
            r matches Ok(g) ==> {
                let cs = g.classes@;
                &&& 1 <= cs.len() <= CLASS_LIMIT
                &&& same_class(cs[0], initial)
                &&& forall|i: int| 0 <= i < cs.len() ==> class_ok(#[trigger] cs[i], intervals@.len())
                &&& forall|i: int, j: int|
                    0 <= i < j < cs.len() ==> !same_class(#[trigger] cs[i], #[trigger] cs[j])
                &&& forall|i: int| 0 <= i < cs.len() ==> #[trigger] closed_at(cs, i, fire, intervals@)
                &&& all_reached(cs, fire, intervals@)
                &&& forall|i: int| 0 <= i < cs.len() ==> (#[trigger] cs[i]).index == i
                &&& links_ok(cs, fire, intervals@)
            },
            r is Err ==> exists|cs: Seq<StateClass>|
                #![trigger all_reached(cs, fire, intervals@)]
                {
                    &&& cs.len() == CLASS_LIMIT + 1
                    &&& same_class(cs[0], initial)
                    &&& forall|i: int, j: int|
                        0 <= i < j < cs.len() ==> !same_class(#[trigger] cs[i], #[trigger] cs[j])
                    &&& all_reached(cs, fire, intervals@)
                },
    {
        let n = intervals.len();
        let ghost iv = intervals@;
        let ghost init = initial;
        let mut first = initial;
        first.index = 0;
        first.predecessors = Vec::new();
        let mut classes: Vec<StateClass> = Vec::new();
        classes.push(first);
        let mut to_see: Vec<usize> = Vec::new();
        to_see.push(0);
        proof {
            assert(same_class(classes@[0], init));
            assert(to_see@[0] == 0);
        }
        while to_see.len() > 0
            invariant
                n == iv.len(),
                iv == intervals@,
                (2 * n + 1) * (2 * n + 1) <= usize::MAX,
                forall|t: int|
                    0 <= t < n ==> (#[trigger] iv[t]).0 != Bound::Large(i32::MIN) && iv[t].0
                        != Bound::Strict(i32::MIN),
                forall|m: &VirtualMemory, t: usize| t < n ==> #[trigger] fire.requires((m, t)),
                forall|m: &VirtualMemory, t: usize, out: (VirtualMemory, Vec<bool>, Vec<bool>)|
                    #[trigger] fire.ensures((m, t), out) ==> out.1@.len() == n && out.2@.len() == n,
                1 <= classes@.len() <= CLASS_LIMIT,
                init == initial,
                same_class(classes@[0], init),
                forall|i: int| 0 <= i < classes@.len() ==> class_ok(#[trigger] classes@[i], n as nat),
                forall|i: int, j: int|
                    0 <= i < j < classes@.len() ==> !same_class(#[trigger] classes@[i], #[trigger] classes@[j]),
                forall|k: int| 0 <= k < to_see@.len() ==> (#[trigger] to_see@[k]) < classes@.len(),
                all_reached(classes@, fire, iv),
                forall|i: int| 0 <= i < classes@.len() ==> (#[trigger] classes@[i]).index == i,
                links_ok(classes@, fire, iv),
                forall|i: int|
                    0 <= i < classes@.len() ==> to_see@.contains(i as usize) || #[trigger] closed_at(
                        classes@,
                        i,
                        fire,
                        iv,
                    ),
            decreases CLASS_LIMIT - classes@.len(), to_see@.len(),
        {
            let ghost ts_old = to_see@;
            let ci = to_see.pop().unwrap();
            let ghost see0 = to_see@;
            proof {
                assert(see0 == ts_old.drop_last() && ci == ts_old.last());
                assert forall|i: int|
                    0 <= i < classes@.len() && i != ci && #[trigger] ts_old.contains(i as usize) implies see0.contains(
                    i as usize,
                ) by {
                    let k = choose|k: int| 0 <= k < ts_old.len() && ts_old[k] == i as usize;
                    assert(k < ts_old.len() - 1);
                    assert(see0[k] == i as usize);
                }
            }
            let ghost len0 = classes@.len();
            let m = classes[ci].from_dbm_index.len();
            let mut d: usize = 1;
            while d < m
                invariant
                    n == iv.len(),
                    iv == intervals@,
                    (2 * n + 1) * (2 * n + 1) <= usize::MAX,
                    forall|t: int|
                        0 <= t < n ==> (#[trigger] iv[t]).0 != Bound::Large(i32::MIN) && iv[t].0
                            != Bound::Strict(i32::MIN),
                    forall|mm: &VirtualMemory, t: usize| t < n ==> #[trigger] fire.requires((mm, t)),
                    forall|mm: &VirtualMemory, t: usize, out: (VirtualMemory, Vec<bool>, Vec<bool>)|
                        #[trigger] fire.ensures((mm, t), out) ==> out.1@.len() == n && out.2@.len() == n,
                    1 <= d,
                    ci < classes@.len(),
                    m == classes@[ci as int].from_dbm_index@.len(),
                    1 <= classes@.len() <= CLASS_LIMIT,
                    init == initial,
                    same_class(classes@[0], init),
                    forall|i: int| 0 <= i < classes@.len() ==> class_ok(#[trigger] classes@[i], n as nat),
                    forall|i: int, j: int|
                        0 <= i < j < classes@.len() ==> !same_class(
                            #[trigger] classes@[i],
                            #[trigger] classes@[j],
                        ),
                    forall|k: int| 0 <= k < to_see@.len() ==> (#[trigger] to_see@[k]) < classes@.len(),
                    all_reached(classes@, fire, iv),
                    forall|i: int| 0 <= i < classes@.len() ==> (#[trigger] classes@[i]).index == i,
                    links_ok(classes@, fire, iv),
                    forall|i: int|
                        0 <= i < classes@.len() && i != ci ==> to_see@.contains(i as usize) || #[trigger] closed_at(
                            classes@,
                            i,
                            fire,
                            iv,
                        ),
                    forall|dd: int| 1 <= dd < d && dd < m ==> #[trigger] closed_step(classes@, ci as int, dd, fire, iv),
                    classes@.len() >= len0,
                    classes@.len() - len0 == to_see@.len() - see0.len(),
                    forall|k: int| 0 <= k < see0.len() ==> to_see@[k] == see0[k],
                    to_see@.len() >= see0.len(),
                decreases m - d,
            {
                let t = classes[ci].from_dbm_index[d];
                proof {
                    assert(class_ok(classes@[ci as int], n as nat));
                }
                let out = fire(&classes[ci].discrete, t);
                let ghost og = out;
                let (disc, newen, pers) = out;
                let next = ClassGraph::successor(&classes[ci], t, disc, &newen, &pers, intervals);
                match next {
                    None => {
                        proof {
                            assert(closed_step(classes@, ci as int, d as int, fire, iv));
                        }
                    },
                    Some(mut sc) => {
                        let ghost sg = sc;
                        let mut j: usize = 0;
                        let mut found = false;
                        while j < classes.len()
                            invariant_except_break
                                !found,
                                forall|jj: int| 0 <= jj < j ==> !same_class(#[trigger] classes@[jj], sc),
                            invariant
                                j <= classes@.len(),
                                forall|i: int| 0 <= i < classes@.len() ==> class_ok(#[trigger] classes@[i], n as nat),
                                sc.wf(),
                                sc == sg,
                            ensures
                                found ==> j < classes@.len() && same_class(classes@[j as int], sc),
                                !found ==> forall|jj: int| 0 <= jj < classes@.len() ==> !same_class(#[trigger] classes@[jj], sc),
                            decreases classes@.len() - j,
                        {
                            let same = classes[j].discrete.same_bytes(&sc.discrete) && classes[j].dbm.same_as(
                                &sc.dbm,
                            );
                            if same {
                                found = true;
                                break;
                            }
                            j += 1;
                        }
                        if found {
                            let ghost before = classes@;
                            classes[j].predecessors.push((ci, t));
                            proof {
                                let cs = classes@;
                                assert forall|x: int| 0 <= x < before.len() implies same_core(#[trigger] cs[x], before[x])
                                    && before[x].predecessors@.len() <= cs[x].predecessors@.len() && forall|mm: int|
                                    0 <= mm < before[x].predecessors@.len() ==> #[trigger] cs[x].predecessors@[mm]
                                        == before[x].predecessors@[mm] by {
                                    if x != j {
                                        assert(cs[x] == before[x]);
                                    }
                                }
                                assert(grows_links(before, cs));
                                lemma_links_grow(before, cs, fire, iv);
                                lemma_core_successor(before[ci as int], cs[ci as int], t as int, og.0, og.2@, og.1@, iv, sg);
                                assert(same_core(cs[ci as int], before[ci as int]));
                                assert(same_class(cs[j as int], sg));
                                let last = cs[j as int].predecessors@.len() - 1;
                                assert(cs[j as int].predecessors@[last] == (ci, t));
                                assert(cs[j as int].predecessors@.contains((ci, t)));
                                assert(fire.ensures((&cs[ci as int].discrete, cs[ci as int].from_dbm_index@[d as int]), og));
                                assert(is_successor(cs[ci as int], cs[ci as int].from_dbm_index@[d as int] as int, og.0, og.2@, og.1@, iv, sg));
                                assert(closed_step(cs, ci as int, d as int, fire, iv));
                                assert(link_ok(cs, j as int, (ci, t), fire, iv));
                                assert forall|jj: int, mm: int|
                                    0 <= jj < cs.len() && 0 <= mm < cs[jj].predecessors@.len() implies #[trigger] link_ok(
                                    cs,
                                    jj,
                                    cs[jj].predecessors@[mm],
                                    fire,
                                    iv,
                                ) by {
                                    if jj == j && mm == last {
                                    } else {
                                        assert(mm < before[jj].predecessors@.len());
                                        assert(cs[jj].predecessors@[mm] == before[jj].predecessors@[mm]);
                                        assert(link_ok(before, jj, before[jj].predecessors@[mm], fire, iv));
                                    }
                                }
                                assert forall|dd: int| 1 <= dd < d && dd < m implies #[trigger] closed_step(
                                    cs,
                                    ci as int,
                                    dd,
                                    fire,
                                    iv,
                                ) by {
                                    assert(closed_step(before, ci as int, dd, fire, iv));
                                }
                                assert forall|i: int|
                                    0 <= i < cs.len() && i != ci implies to_see@.contains(i as usize) || #[trigger] closed_at(
                                    cs,
                                    i,
                                    fire,
                                    iv,
                                ) by {
                                    if !to_see@.contains(i as usize) {
                                        assert(closed_at(before, i, fire, iv));
                                    }
                                }
                                assert forall|i: int| 0 <= i < cs.len() implies class_ok(#[trigger] cs[i], n as nat) by {
                                    lemma_core_successor(before[i], cs[i], 0, og.0, og.2@, og.1@, iv, sg);
                                    assert(same_core(before[i], cs[i]));
                                }
                                assert forall|a: int, b: int|
                                    0 <= a < b < cs.len() implies !same_class(#[trigger] cs[a], #[trigger] cs[b]) by {
                                    assert(same_class(cs[a], cs[b]) == same_class(before[a], before[b]));
                                }
                                assert(same_core(cs[0], before[0]));
                                assert forall|i: int| 0 <= i < cs.len() implies (#[trigger] cs[i]).index == i by {
                                    assert(same_core(cs[i], before[i]));
                                }
                            }
                        } else {
                            let new_index = classes.len();
                            sc.index = new_index;
                            let ghost before = classes@;
                            proof {
                                lemma_kept_below(pers@, newen@, n as int);
                                assert(forall|jj: int| 0 <= jj < before.len() ==> !same_class(#[trigger] before[jj], sg));
                            }
                            let ghost ts_before = to_see@;
                            classes.push(sc);
                            to_see.push(new_index);
                            proof {
                                let cs = classes@;
                                assert(cs == before.push(cs[before.len() as int]));
                                lemma_reached_grows(before, cs[before.len() as int], fire, iv);
                                assert(reached_step(cs, new_index as int, fire, iv)) by {
                                    assert(cs[ci as int] == before[ci as int]);
                                    assert(same_class(cs[new_index as int], sg));
                                    assert(fire.ensures((&cs[ci as int].discrete, cs[ci as int].from_dbm_index@[d as int]), og));
                                    assert(is_successor(cs[ci as int], cs[ci as int].from_dbm_index@[d as int] as int, og.0, og.2@, og.1@, iv, sg));
                                }
                                assert(all_reached(cs, fire, iv));
                                assert(same_class(cs[before.len() as int], sg));
                                assert(cs[ci as int].index == ci);
                                assert(cs[new_index as int].predecessors@ == seq![(ci, t)]);
                                assert(cs[new_index as int].predecessors@[0] == (ci, t));
                                assert(cs[new_index as int].predecessors@.contains((ci, t)));
                                assert(link_ok(cs, new_index as int, (ci, t), fire, iv)) by {
                                    assert(cs[ci as int] == before[ci as int]);
                                    assert(fire.ensures((&cs[ci as int].discrete, cs[ci as int].from_dbm_index@[d as int]), og));
                                    assert(is_successor(cs[ci as int], cs[ci as int].from_dbm_index@[d as int] as int, og.0, og.2@, og.1@, iv, sg));
                                }
                                assert forall|jj: int, mm: int|
                                    0 <= jj < cs.len() && 0 <= mm < cs[jj].predecessors@.len() implies #[trigger] link_ok(
                                    cs,
                                    jj,
                                    cs[jj].predecessors@[mm],
                                    fire,
                                    iv,
                                ) by {
                                    if jj < before.len() {
                                        assert(cs[jj] == before[jj]);
                                        lemma_link_push(before, cs[new_index as int], jj, before[jj].predecessors@[mm], fire, iv);
                                    }
                                }
                                assert forall|i: int| 0 <= i < cs.len() implies (#[trigger] cs[i]).index == i by {
                                    if i < before.len() {
                                        assert(cs[i] == before[i]);
                                    }
                                }
                                assert(closed_step(cs, ci as int, d as int, fire, iv)) by {
                                    assert(cs[ci as int] == before[ci as int]);
                                    assert(same_class(cs[new_index as int], sg));
                                    assert(fire.ensures((&cs[ci as int].discrete, cs[ci as int].from_dbm_index@[d as int]), og));
                                    assert(is_successor(cs[ci as int], t as int, og.0, og.2@, og.1@, iv, sg));
                                }
                                assert forall|dd: int| 1 <= dd < d && dd < m implies #[trigger] closed_step(
                                    cs,
                                    ci as int,
                                    dd,
                                    fire,
                                    iv,
                                ) by {
                                    lemma_step_grows(before, cs[before.len() as int], ci as int, dd, fire, iv);
                                }
                                assert forall|i: int|
                                    0 <= i < cs.len() && i != ci implies to_see@.contains(i as usize) || #[trigger] closed_at(
                                    cs,
                                    i,
                                    fire,
                                    iv,
                                ) by {
                                    if i == new_index {
                                        assert(to_see@[to_see@.len() - 1] == new_index);
                                    } else if ts_before.contains(i as usize) {
                                        let k = choose|k: int| 0 <= k < ts_before.len() && ts_before[k] == i as usize;
                                        assert(to_see@[k] == i as usize);
                                    } else {
                                        lemma_closed_grows(before, cs[before.len() as int], i, fire, iv);
                                    }
                                }
                            }
                            if classes.len() > CLASS_LIMIT {
                                proof {
                                    let cs = classes@;
                                    assert(all_reached(cs, fire, iv));
                                    assert(cs.len() == CLASS_LIMIT + 1);
                                    assert(cs[0] == before[0]);
                                    assert(same_class(cs[0], init));
                                    assert forall|a: int, b: int|
                                        0 <= a < b < cs.len() implies !same_class(#[trigger] cs[a], #[trigger] cs[b]) by {
                                        if b == new_index {
                                            assert(cs[a] == before[a]);
                                            assert(!same_class(before[a], sg));
                                            assert(same_class(cs[b], sg));
                                            if same_class(cs[a], cs[b]) {
                                                assert(same_class(before[a], sg));
                                            }
                                        } else {
                                            assert(cs[a] == before[a] && cs[b] == before[b]);
                                        }
                                    }
                                }
                                return Err(ClassLimit);
                            }
                        }
                    },
                }
                d += 1;
            }
            proof {
                assert(closed_at(classes@, ci as int, fire, iv));
            }
        }
        Ok(ClassGraph { classes })
    }
}

/// A copy of `v`.
fn copy_indices(v: &Vec<usize>) -> (r: Vec<usize>)
    ensures
        r@ == v@,
{
    let mut r: Vec<usize> = Vec::new();
    let mut i: usize = 0;
    while i < v.len()
        invariant
            i <= v.len(),
            r@ == v@.take(i as int),
        decreases v.len() - i,
    {
        r.push(v[i]);
        i += 1;
        assert(r@ =~= v@.take(i as int));
    }
    assert(v@.take(v.len() as int) =~= v@);
    r
}

/// A class read as a state: its marking gives the values of the variables, and the clocks
/// are those of the state the class starts from, at zero for the enabled transitions; the
/// clock of a transition that is not enabled is off, and no comparison holds of it.
impl Verifiable for StateClass {
    open spec fn deadlocked(&self) -> bool {
        !self.dbm.wf() || self.dbm.dim() == 1 || below(self.dbm.bound(0, 0), Bound::Large(0))
    }

    open spec fn readable(&self, var: ModelVar) -> bool {
        fits(var, self.discrete@.len())
    }

    open spec fn var_value(&self, var: ModelVar) -> i32 {
        decode(self.discrete@, var.addr().unwrap() as int, var.typ())
    }

    open spec fn clock_compares(&self, op: PropositionType, clock: ModelClock, bound: i32) -> bool {
        clock.index < self.to_dbm_index@.len() && self.to_dbm_index@[clock.index as int] != 0 && compare(
            op,
            0,
            bound as int,
        )
    }

    fn evaluate_var(&self, var: &ModelVar) -> (r: i32) {
        self.discrete.evaluate(var)
    }

    fn compare_clock(&self, op: PropositionType, clock: &ModelClock, bound: i32) -> (r: bool) {
        if clock.index >= self.to_dbm_index.len() || self.to_dbm_index[clock.index] == 0 {
            return false;
        }
        match op {
            PropositionType::EQ => 0 == bound,
            PropositionType::NE => 0 != bound,
            PropositionType::LE => 0 <= bound,
            PropositionType::GE => 0 >= bound,
            PropositionType::LS => 0 < bound,
            PropositionType::GS => 0 > bound,
        }
    }

    /// A class is a deadlock where it has no clock or its matrix is marked empty.
    fn is_deadlocked(&self) -> (r: bool) {
        !self.dbm.is_square() || self.dbm.vars_count() == 0 || self.dbm.is_empty()
    }
}

/// A copy of the links `v`.
fn copy_links(v: &Vec<(usize, usize)>) -> (r: Vec<(usize, usize)>)
    ensures
        r@ == v@,
{
    let mut r: Vec<(usize, usize)> = Vec::new();
    let mut i: usize = 0;
    while i < v.len()
        invariant
            i <= v.len(),
            r@ == v@.take(i as int),
        decreases v.len() - i,
    {
        r.push(v[i]);
        i += 1;
        assert(r@ =~= v@.take(i as int));
    }
    assert(v@.take(v.len() as int) =~= v@);
    r
}

} // verus!
