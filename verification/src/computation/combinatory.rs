use vstd::prelude::*;

verus! {

/// Whether position `t` of the combination `c` of `c.len()` positions among `n` can still
/// be increased: it is below its largest value `n - c.len() + t`.
pub open spec fn movable(c: Seq<usize>, n: int, t: int) -> bool {
    c[t] + c.len() - t < n
}

/// The largest position `<= t` that can be increased, or `-1`.
pub open spec fn last_movable(c: Seq<usize>, n: int, t: int) -> int
    decreases t + 1,
{
    if t < 0 {
        -1
    } else if movable(c, n, t) {
        t
    } else {
        last_movable(c, n, t - 1)
    }
}

/// Whether `c` is a combination of positions among `n`: strictly increasing and below `n`.
pub open spec fn is_combination(c: Seq<usize>, n: int) -> bool {
    &&& forall|a: int, b: int| 0 <= a < b < c.len() ==> c[a] < c[b]
    &&& forall|a: int| 0 <= a < c.len() ==> c[a] < n
}

/// The combination that follows `c` in lexicographic order: the last position that can
/// grow grows by one and the positions after it follow it one by one; when none can, the
/// last position goes to `n` and marks the end.
pub open spec fn next_combination(c: Seq<usize>, n: int) -> Seq<usize> {
    let t = last_movable(c, n, c.len() - 1);
    if t >= 0 {
        Seq::new(c.len(), |s: int| if s < t { c[s] } else { (c[t] + 1 + (s - t)) as usize })
    } else {
        c.update(c.len() - 1, (c[c.len() - 1] + 1) as usize)
    }
}

/// Enumerates the combinations of `k` elements of a slice, keeping their relative order.
pub struct KInVec<'a, T> {
    vec: &'a [T],
    chosen: Vec<usize>,
}

impl<'a, T> KInVec<'a, T> {
    /// The elements combined.
    pub closed spec fn items(&self) -> Seq<T> {
        self.vec@
    }

    /// The positions of the combination to give next.
    pub closed spec fn positions(&self) -> Seq<usize> {
        self.chosen@
    }

    /// The enumeration of the combinations of `k` elements of `value`, from the first
    /// `k` positions.
    pub fn of(k: usize, value: &'a [T]) -> (r: Self)
        ensures
            r.items() == value@,
            r.positions() == Seq::new(k as nat, |s: int| s as usize),
    {
        let mut chosen: Vec<usize> = Vec::new();
        for i in 0..k
            invariant
                chosen@ == Seq::new(i as nat, |s: int| s as usize),
        {
            chosen.push(i);
        }
        KInVec { vec: value, chosen }
    }

    /// The elements at the current positions, and the positions move on to the next
    /// combination; `None` once the positions run past the elements.
    pub fn next(&mut self) -> (r: Option<Vec<&'a T>>)
        requires
            old(self).positions().len() >= 1,
            old(self).positions().len() <= old(self).items().len() ==> {
                let c = old(self).positions();
                let n = old(self).items().len() as int;
                &&& forall|a: int, b: int| 0 <= a < b < c.len() ==> c[a] < c[b]
                &&& forall|a: int| 0 <= a < c.len() - 1 ==> c[a] < n
                &&& c[c.len() - 1] <= n
            },
        ensures
            final(self).items() == old(self).items(),
            ({
                let c = old(self).positions();
                let n = old(self).items().len() as int;
                if c.len() > n || c[c.len() - 1] >= n {
                    r.is_none() && final(self).positions() == c
                } else {
                    &&& r.is_some()
                    &&& r.unwrap()@.len() == c.len()
                    &&& forall|s: int| 0 <= s < c.len() ==> *r.unwrap()@[s] == old(self).items()[c[s] as int]
                    &&& final(self).positions() == next_combination(c, n)
                }
            }),
    {
        let n = self.vec.len();
        let k = self.chosen.len();
        let last_i = k - 1;
        if k > n || self.chosen[last_i] >= n {
            return None;
        }
        let ghost c = self.chosen@;
        let mut res: Vec<&'a T> = Vec::new();
        for s in 0..k
            invariant
                k == self.chosen@.len(),
                n == self.vec@.len(),
                self.vec == old(self).vec,
                self.chosen@ == c,
                forall|a: int| 0 <= a < c.len() ==> c[a] < n,
                res@.len() == s,
                forall|t: int| 0 <= t < s ==> *res@[t] == self.vec@[c[t] as int],
        {
            res.push(&self.vec[self.chosen[s]]);
        }
        self.chosen.set(last_i, self.chosen[last_i] + 1);
        proof {
            assert forall|a: int| 0 <= a < c.len() implies #[trigger] c[a] + c.len() - a <= n by {
                lemma_gap(c, a, c.len() - 1);
            }
        }
        if self.chosen[last_i] == n && self.chosen[0] < n - k {
            let mut pending: usize = 1;
            let mut to_move: usize = last_i - pending;
            self.chosen.set(to_move, self.chosen[to_move] + 1);
            while (self.chosen[to_move] == n - pending) && (to_move > 0)
                invariant
                    k == c.len(),
                    last_i == k - 1,
                    n == self.vec@.len(),
                    self.vec == old(self).vec,
                    1 <= pending <= last_i,
                    to_move == last_i - pending,
                    self.chosen@.len() == k,
                    c[0] < n - k,
                    forall|a: int| 0 <= a < c.len() ==> c[a] + c.len() - a <= n,
                    forall|a: int, b: int| 0 <= a < b < c.len() ==> c[a] < c[b],
                    forall|a: int| to_move < a < k ==> !movable(c, n as int, a),
                    forall|a: int| 0 <= a < to_move ==> self.chosen@[a] == c[a],
                    self.chosen@[to_move as int] == c[to_move as int] + 1,
                decreases to_move,
            {
                pending += 1;
                to_move -= 1;
                assert(self.chosen@[to_move as int] == c[to_move as int]);
                assert(c[to_move as int] + c.len() - to_move <= n);
                self.chosen.set(to_move, self.chosen[to_move] + 1);
            }
            let ghost t = to_move as int;
            proof {
                assert(movable(c, n as int, t)) by {
                    if t > 0 {
                        assert(self.chosen@[t] != n - pending);
                    }
                }
                lemma_last_movable(c, n as int, c.len() - 1, t);
            }
            for i in 0..pending
                invariant
                    k == c.len(),
                    n == self.vec@.len(),
                    self.vec == old(self).vec,
                    pending + t == k - 1,
                    t == to_move,
                    0 <= t < k,
                    self.chosen@.len() == k,
                    c[t] + k - t < n,
                    forall|a: int| 0 <= a < t ==> self.chosen@[a] == c[a],
                    forall|a: int| t <= a <= t + i ==> self.chosen@[a] == c[t] + 1 + (a - t),
            {
                self.chosen.set(to_move + i + 1, self.chosen[to_move + i] + 1);
            }
            proof {
                assert(self.chosen@ =~= next_combination(c, n as int));
            }
        } else {
            proof {
                if self.chosen@[last_i as int] == n {
                    assert forall|a: int| 0 <= a < c.len() implies !movable(c, n as int, a) by {
                        if a < c.len() - 1 {
                            lemma_gap(c, 0, a);
                        }
                    }
                    lemma_none_movable(c, n as int, c.len() - 1);
                } else {
                    assert(movable(c, n as int, c.len() - 1));
                }
                assert(self.chosen@ =~= next_combination(c, n as int));
            }
        }
        Some(res)
    }
}

/// In a strictly increasing sequence, later positions are at least as far above.
proof fn lemma_gap(c: Seq<usize>, a: int, b: int)
    requires
        0 <= a <= b < c.len(),
        forall|x: int, y: int| 0 <= x < y < c.len() ==> c[x] < c[y],
    ensures
        c[a] + (b - a) <= c[b],
    decreases b - a,
{
    if a < b {
        lemma_gap(c, a, b - 1);
    }
}

proof fn lemma_last_movable(c: Seq<usize>, n: int, t: int, m: int)
    requires
        0 <= m <= t < c.len(),
        movable(c, n, m),
        forall|a: int| m < a <= t ==> !movable(c, n, a),
    ensures
        last_movable(c, n, t) == m,
    decreases t,
{
    if t > m {
        lemma_last_movable(c, n, t - 1, m);
    }
}

proof fn lemma_none_movable(c: Seq<usize>, n: int, t: int)
    requires
        t < c.len(),
        forall|a: int| 0 <= a <= t ==> !movable(c, n, a),
    ensures
        last_movable(c, n, t) == -1,
    decreases t + 1,
{
    if t >= 0 {
        lemma_none_movable(c, n, t - 1);
    }
}

proof fn lemma_last_movable_found(c: Seq<usize>, n: int, t: int)
    requires
        t < c.len(),
        last_movable(c, n, t) >= 0,
    ensures
        0 <= last_movable(c, n, t) <= t,
        movable(c, n, last_movable(c, n, t)),
    decreases t + 1,
{
    if t >= 0 && !movable(c, n, t) {
        lemma_last_movable_found(c, n, t - 1);
    }
}

/// The combination that follows a combination, when there is one, is again a combination,
/// and comes after it in lexicographic order: equal up to some position, greater there.
pub proof fn lemma_next_combination(c: Seq<usize>, n: int)
    requires
        c.len() >= 1,
        n <= usize::MAX,
        is_combination(c, n),
        last_movable(c, n, c.len() - 1) >= 0,
    ensures
        is_combination(next_combination(c, n), n),
        next_combination(c, n).len() == c.len(),
        exists|t: int|
            0 <= t < c.len() && (forall|s: int| 0 <= s < t ==> next_combination(c, n)[s] == c[s])
                && next_combination(c, n)[t] > c[t],
{
    let t = last_movable(c, n, c.len() - 1);
    lemma_last_movable_found(c, n, c.len() - 1);
    let d = next_combination(c, n);
    assert forall|a: int, b: int| 0 <= a < b < d.len() implies d[a] < d[b] by {
        if a < t && b >= t {
            assert(c[a] < c[t]);
        }
        if a >= t {
            assert(c[t] + 1 + (b - t) <= c[t] + c.len() - t);
        }
    }
    assert forall|a: int| 0 <= a < d.len() implies d[a] < n by {
        if a < t {
            lemma_gap(c, a, c.len() - 1);
        }
    }
    assert(forall|s: int| 0 <= s < t ==> d[s] == c[s]);
    assert(d[t] == c[t] + 1);
}

/// Whether `a` comes before `b` in lexicographic order: they agree up to some position,
/// where `a` is smaller.
pub open spec fn lex_before(a: Seq<usize>, b: Seq<usize>) -> bool {
    exists|p: int|
        0 <= p < a.len() && p < b.len() && a[p] < b[p] && forall|s: int|
            0 <= s < p ==> #[trigger] a[s] == b[s]
}

/// The first `k` positions make the smallest combination of `k` positions among `n`.
pub proof fn lemma_first_combination(k: nat, n: int, d: Seq<usize>)
    requires
        k <= n,
        d.len() == k,
        is_combination(d, n),
    ensures
        is_combination(Seq::new(k, |s: int| s as usize), n),
        d == Seq::new(k, |s: int| s as usize) || lex_before(Seq::new(k, |s: int| s as usize), d),
{
    let f = Seq::new(k, |s: int| s as usize);
    assert forall|a: int| 0 <= a < k implies d[a] >= a && f[a] == a by {
        if a > 0 {
            lemma_gap(d, 0, a);
        }
    }
    if d != f {
        assert(!(d =~= f));
        let p = choose|p: int| 0 <= p < k && d[p] != f[p];
        lemma_first_difference(f, d, p);
    }
}

/// When two sequences of equal length differ, there is a first position where they do.
proof fn lemma_first_difference(a: Seq<usize>, b: Seq<usize>, q: int)
    requires
        a.len() == b.len(),
        0 <= q < a.len(),
        a[q] != b[q],
        forall|s: int| 0 <= s < a.len() ==> a[s] <= b[s],
    ensures
        lex_before(a, b),
    decreases q,
{
    if exists|s: int| 0 <= s < q && a[s] != b[s] {
        let s = choose|s: int| 0 <= s < q && a[s] != b[s];
        lemma_first_difference(a, b, s);
    } else {
        assert(forall|s: int| 0 <= s < q ==> #[trigger] a[s] == b[s]);
    }
}

/// No combination comes between a combination and the one that follows it: every
/// combination after `c` is the next one or comes after it. When no position of `c` can
/// grow, no combination comes after `c`.
pub proof fn lemma_next_combination_is_least(c: Seq<usize>, n: int, d: Seq<usize>)
    requires
        c.len() >= 1,
        n <= usize::MAX,
        is_combination(c, n),
        is_combination(d, n),
        d.len() == c.len(),
        lex_before(c, d),
    ensures
        last_movable(c, n, c.len() - 1) >= 0,
        d == next_combination(c, n) || lex_before(next_combination(c, n), d),
{
    let k = c.len() as int;
    let p = choose|p: int|
        0 <= p < c.len() && p < d.len() && c[p] < d[p] && forall|s: int| 0 <= s < p ==> #[trigger] c[s] == d[s];
    // Past the first difference, every position of `c` is at its largest value.
    assert(movable(c, n, p)) by {
        lemma_gap(d, p, k - 1);
    }
    if last_movable(c, n, k - 1) < p {
        lemma_last_movable_at_least(c, n, k - 1, p);
    }
    lemma_last_movable_found(c, n, k - 1);
    let t = last_movable(c, n, k - 1);
    let e = next_combination(c, n);
    if t > p {
        assert forall|s: int| 0 <= s < p implies #[trigger] e[s] == d[s] by {}
        assert(e[p] == c[p]);
    } else {
        assert(t == p);
        assert forall|s: int| 0 <= s < t implies #[trigger] e[s] == d[s] by {}
        assert forall|s: int| 0 <= s < k implies e[s] <= d[s] by {
            if s >= t {
                lemma_gap(d, t, s);
            }
        }
        if e != d {
            assert(!(e =~= d));
            let q = choose|q: int| 0 <= q < k && e[q] != d[q];
            lemma_first_difference(e, d, q);
        }
    }
}

/// The last position that can grow is at least any position that can.
proof fn lemma_last_movable_at_least(c: Seq<usize>, n: int, t: int, m: int)
    requires
        0 <= m <= t < c.len(),
        movable(c, n, m),
    ensures
        last_movable(c, n, t) >= m,
    decreases t,
{
    if t > m && !movable(c, n, t) {
        lemma_last_movable_at_least(c, n, t - 1, m);
    }
}

/// The combination reached from `c` after `m` steps to the next one.
pub open spec fn iterate_combination(c: Seq<usize>, n: int, m: nat) -> Seq<usize>
    decreases m,
{
    if m == 0 {
        c
    } else {
        iterate_combination(next_combination(c, n), n, (m - 1) as nat)
    }
}

/// The positions of `c` read as the digits of a number in base `base`.
pub open spec fn combination_value(c: Seq<usize>, base: int) -> int
    decreases c.len(),
{
    if c.len() == 0 {
        0
    } else {
        combination_value(c.drop_last(), base) * base + c.last()
    }
}

/// Positions below `base` read as digits give a number between 0 and `base` to the length.
proof fn lemma_value_nonnegative(c: Seq<usize>, base: int)
    requires
        base >= 1,
    ensures
        combination_value(c, base) >= 0,
    decreases c.len(),
{
    if c.len() > 0 {
        lemma_value_nonnegative(c.drop_last(), base);
        let v = combination_value(c.drop_last(), base);
        assert(v * base >= 0) by (nonlinear_arith)
            requires
                v >= 0,
                base >= 1,
        ;
    }
}

/// Lexicographic order on digits below `base` is the order of the numbers they make.
proof fn lemma_value_increases(a: Seq<usize>, b: Seq<usize>, base: int)
    requires
        a.len() == b.len(),
        base >= 1,
        forall|s: int| 0 <= s < a.len() ==> a[s] < base && b[s] < base,
        lex_before(a, b),
    ensures
        combination_value(a, base) < combination_value(b, base),
    decreases a.len(),
{
    let p = choose|p: int|
        0 <= p < a.len() && p < b.len() && a[p] < b[p] && forall|s: int| 0 <= s < p ==> #[trigger] a[s] == b[s];
    let k = a.len() - 1;
    let va = combination_value(a.drop_last(), base);
    let vb = combination_value(b.drop_last(), base);
    if p < k {
        assert(lex_before(a.drop_last(), b.drop_last())) by {
            assert(forall|s: int| 0 <= s < p ==> #[trigger] a.drop_last()[s] == b.drop_last()[s]);
            assert(a.drop_last()[p] < b.drop_last()[p]);
        }
        lemma_value_increases(a.drop_last(), b.drop_last(), base);
        let x = a.last() as int;
        let y = b.last() as int;
        assert(va * base + x < vb * base + y) by (nonlinear_arith)
            requires
                va < vb,
                0 <= x < base,
                0 <= y,
        ;
    } else {
        assert(a.drop_last() =~= b.drop_last()) by {
            assert forall|s: int| 0 <= s < k implies a.drop_last()[s] == b.drop_last()[s] by {
                assert(a[s] == b[s]);
            }
        }
    }
}

/// Every combination that comes after `c`, or is `c`, is reached from `c` by steps to the
/// next combination, each step from a combination to a combination.
proof fn lemma_reached_from(c: Seq<usize>, n: int, d: Seq<usize>) -> (m: nat)
    requires
        c.len() >= 1,
        1 <= n <= usize::MAX,
        is_combination(c, n),
        is_combination(d, n),
        d.len() == c.len(),
        c == d || lex_before(c, d),
    ensures
        iterate_combination(c, n, m) == d,
        forall|j: nat| j <= m ==> is_combination(#[trigger] iterate_combination(c, n, j), n),
    decreases combination_value(d, n) - combination_value(c, n),
{
    if c == d {
        assert(iterate_combination(c, n, 0) == c);
        0
    } else {
        lemma_next_combination_is_least(c, n, d);
        lemma_next_combination(c, n);
        let e = next_combination(c, n);
        assert(lex_before(c, e)) by {
            let t = choose|t: int|
                0 <= t < c.len() && (forall|s: int| 0 <= s < t ==> e[s] == c[s]) && e[t] > c[t];
            assert(forall|s: int| 0 <= s < t ==> #[trigger] c[s] == e[s]);
        }
        lemma_value_increases(c, e, n);
        if e != d {
            lemma_value_increases(e, d, n);
        }
        let m1 = lemma_reached_from(e, n, d);
        assert forall|j: nat| j <= m1 + 1 implies is_combination(#[trigger] iterate_combination(c, n, j), n) by {
            if j > 0 {
                assert(iterate_combination(c, n, j) == iterate_combination(e, n, (j - 1) as nat));
            }
        }
        m1 + 1
    }
}

/// The first `k` positions, where the enumeration of combinations of `k` positions starts.
pub open spec fn first_combination(k: nat) -> Seq<usize> {
    Seq::new(k, |s: int| s as usize)
}

/// The enumeration of the combinations of `k` positions among `n` from the first `k`
/// positions reaches every combination: after some number of steps, every step before it
/// from a combination to a combination. After a combination where no position can grow, the
/// next step marks the end, which the enumeration gives as `None`.
pub proof fn lemma_combinations_enumerated(k: nat, n: int, d: Seq<usize>)
    requires
        1 <= k <= n <= usize::MAX,
        d.len() == k,
        is_combination(d, n),
    ensures
        exists|m: nat|
            iterate_combination(first_combination(k), n, m) == d && forall|j: nat|
                j <= m ==> is_combination(#[trigger] iterate_combination(first_combination(k), n, j), n),
        last_movable(d, n, k - 1) < 0 ==> next_combination(d, n)[k - 1] >= n,
{
    let f = first_combination(k);
    lemma_first_combination(k, n, d);
    let m = lemma_reached_from(f, n, d);
}

/// The enumeration of combinations gives each combination once and in lexicographic order:
/// each step goes to a combination that comes after, and along the steps the number that the
/// positions make in base `n` grows, so no combination comes twice.
pub proof fn lemma_enumeration_in_order(k: nat, n: int, m1: nat, m2: nat)
    requires
        1 <= k <= n <= usize::MAX,
        m1 < m2,
        forall|j: nat| j <= m2 ==> is_combination(#[trigger] iterate_combination(first_combination(k), n, j), n),
    ensures
        lex_before(
            iterate_combination(first_combination(k), n, m1),
            iterate_combination(first_combination(k), n, m1 + 1),
        ),
        combination_value(iterate_combination(first_combination(k), n, m1), n)
            < combination_value(iterate_combination(first_combination(k), n, m2), n),
        iterate_combination(first_combination(k), n, m1) != iterate_combination(first_combination(k), n, m2),
{
    let f = first_combination(k);
    lemma_enumeration_increases(f, n, m1, m2);
    lemma_step_is_lex(f, n, m1 + 1);
}

/// Along steps between combinations, the number that the positions make grows.
proof fn lemma_enumeration_increases(c: Seq<usize>, n: int, m1: nat, m2: nat)
    requires
        c.len() >= 1,
        1 <= n <= usize::MAX,
        m1 < m2,
        forall|j: nat| j <= m2 ==> is_combination(#[trigger] iterate_combination(c, n, j), n),
    ensures
        combination_value(iterate_combination(c, n, m1), n) < combination_value(
            iterate_combination(c, n, m2),
            n,
        ),
    decreases m2,
{
    let a = iterate_combination(c, n, (m2 - 1) as nat);
    let b = iterate_combination(c, n, m2);
    lemma_step_is_lex(c, n, m2);
    lemma_iterate_len(c, n, (m2 - 1) as nat);
    lemma_iterate_len(c, n, m2);
    lemma_value_increases(a, b, n);
    if m1 < m2 - 1 {
        lemma_enumeration_increases(c, n, m1, (m2 - 1) as nat);
    }
}

/// A step between two combinations of the enumeration goes forward in lexicographic order.
proof fn lemma_step_is_lex(c: Seq<usize>, n: int, m: nat)
    requires
        c.len() >= 1,
        1 <= n <= usize::MAX,
        m >= 1,
        is_combination(iterate_combination(c, n, (m - 1) as nat), n),
        is_combination(iterate_combination(c, n, m), n),
    ensures
        lex_before(iterate_combination(c, n, (m - 1) as nat), iterate_combination(c, n, m)),
{
    let a = iterate_combination(c, n, (m - 1) as nat);
    let b = iterate_combination(c, n, m);
    lemma_iterate_last(c, n, (m - 1) as nat);
    lemma_iterate_len(c, n, (m - 1) as nat);
    if last_movable(a, n, a.len() - 1) < 0 {
        assert(!movable(a, n, a.len() - 1));
        assert(b[a.len() - 1] >= n);
    }
    lemma_next_combination(a, n);
    let t = choose|t: int|
        0 <= t < a.len() && (forall|s: int| 0 <= s < t ==> b[s] == a[s]) && b[t] > a[t];
    assert(forall|s: int| 0 <= s < t ==> #[trigger] a[s] == b[s]);
}

/// One more step is a step from the combination reached so far.
proof fn lemma_iterate_last(c: Seq<usize>, n: int, m: nat)
    ensures
        iterate_combination(c, n, m + 1) == next_combination(iterate_combination(c, n, m), n),
    decreases m,
{
    assert(iterate_combination(c, n, m + 1) == iterate_combination(next_combination(c, n), n, m));
    if m > 0 {
        lemma_iterate_last(next_combination(c, n), n, (m - 1) as nat);
        assert(iterate_combination(c, n, m) == iterate_combination(
            next_combination(c, n),
            n,
            (m - 1) as nat,
        ));
    }
}

/// Steps to the next combination keep the number of positions.
proof fn lemma_iterate_len(c: Seq<usize>, n: int, m: nat)
    requires
        c.len() >= 1,
    ensures
        iterate_combination(c, n, m).len() == c.len(),
    decreases m,
{
    if m > 0 {
        lemma_iterate_len(next_combination(c, n), n, (m - 1) as nat);
    }
}

/// Whether each position of `c` is below the length at the same position of `lens`.
pub open spec fn in_ranges(c: Seq<usize>, lens: Seq<nat>) -> bool {
    forall|a: int| 0 <= a < c.len() ==> c[a] < lens[a]
}

/// The largest position `<= t` that can grow by one and stay within its length, or `-1`.
pub open spec fn last_growable(c: Seq<usize>, lens: Seq<nat>, t: int) -> int
    decreases t + 1,
{
    if t < 0 {
        -1
    } else if c[t] + 1 < lens[t] {
        t
    } else {
        last_growable(c, lens, t - 1)
    }
}

/// The positions that follow `c` when it is counted like an odometer over `lens`: the
/// last position that can grow grows by one and the positions after it go back to zero;
/// when none can, the first position grows by one, up to its length, and the others go to
/// zero.
pub open spec fn next_tuple(c: Seq<usize>, lens: Seq<nat>) -> Seq<usize> {
    let t = last_growable(c, lens, c.len() - 1);
    if t >= 0 {
        Seq::new(c.len(), |s: int| if s < t { c[s] } else if s == t { (c[t] + 1) as usize } else { 0usize })
    } else {
        Seq::new(c.len(), |s: int| if s == 0 { (c[0] + 1) as usize } else { 0usize })
    }
}

/// Enumerates the tuples made of one element of each vector, like an odometer.
pub struct CartesianProduct<'a, T> {
    vecs: &'a [Vec<T>],
    chosen: Vec<usize>,
}

impl<'a, T> CartesianProduct<'a, T> {
    /// The vectors combined.
    pub closed spec fn items(&self) -> Seq<Seq<T>> {
        self.vecs@.map_values(|v: Vec<T>| v@)
    }

    /// The lengths of the vectors.
    pub closed spec fn lens(&self) -> Seq<nat> {
        self.vecs@.map_values(|v: Vec<T>| v@.len())
    }

    /// The positions of the tuple to give next.
    pub closed spec fn positions(&self) -> Seq<usize> {
        self.chosen@
    }

    /// The lengths are those of the vectors combined.
    pub proof fn lemma_lens(&self)
        ensures
            self.lens().len() == self.items().len(),
            forall|s: int| 0 <= s < self.lens().len() ==> #[trigger] self.lens()[s] == self.items()[s].len(),
    {
    }

    /// The enumeration of the tuples of `value`, from the first elements.
    pub fn of(value: &'a [Vec<T>]) -> (r: Self)
        ensures
            r.items() == value@.map_values(|v: Vec<T>| v@),
            r.lens() == value@.map_values(|v: Vec<T>| v@.len()),
            r.positions() == Seq::new(value@.len(), |s: int| 0usize),
    {
        let n = value.len();
        let mut chosen: Vec<usize> = Vec::new();
        for i in 0..n
            invariant
                chosen@ == Seq::new(i as nat, |s: int| 0usize),
        {
            chosen.push(0);
        }
        CartesianProduct { vecs: value, chosen }
    }

    /// The elements at the current positions, and the positions move on like an odometer;
    /// `None` once the first position has run past its vector.
    pub fn next(&mut self) -> (r: Option<Vec<&'a T>>)
        requires
            old(self).items().len() >= 1,
            old(self).positions().len() == old(self).items().len(),
            old(self).positions()[0] == old(self).lens()[0] || in_ranges(old(self).positions(), old(self).lens()),
        ensures
            final(self).items() == old(self).items(),
            final(self).lens() == old(self).lens(),
            ({
                let c = old(self).positions();
                if c[0] == old(self).lens()[0] {
                    r.is_none() && final(self).positions() == c
                } else {
                    &&& r.is_some()
                    &&& r.unwrap()@.len() == c.len()
                    &&& forall|s: int| 0 <= s < c.len() ==> *r.unwrap()@[s] == old(self).items()[s][c[s] as int]
                    &&& final(self).positions() == next_tuple(c, old(self).lens())
                }
            }),
    {
        let n_vecs = self.vecs.len();
        let last_i = n_vecs - 1;
        proof {
            assert(self.lens()[0] == self.vecs@[0]@.len());
        }
        if self.chosen[0] == self.vecs[0].len() {
            return None;
        }
        let ghost c = self.chosen@;
        let ghost lens = self.lens();
        let mut res: Vec<&'a T> = Vec::new();
        for s in 0..n_vecs
            invariant
                n_vecs == self.vecs@.len(),
                n_vecs == c.len(),
                self.chosen@ == c,
                self.vecs == old(self).vecs,
                lens == self.lens(),
                in_ranges(c, lens),
                res@.len() == s,
                forall|t: int| 0 <= t < s ==> *res@[t] == self.items()[t][c[t] as int],
        {
            assert(lens[s as int] == self.vecs@[s as int]@.len());
            res.push(&self.vecs[s][self.chosen[s]]);
        }
        let last_len = self.vecs[last_i].len();
        assert(lens[last_i as int] == last_len);
        self.chosen.set(last_i, self.chosen[last_i] + 1);
        if self.chosen[last_i] == self.vecs[last_i].len() && self.chosen[0] < self.vecs[0].len() {
            let mut to_move = last_i;
            while self.chosen[to_move] == self.vecs[to_move].len() && to_move > 0
                invariant
                    n_vecs == c.len(),
                    last_i == n_vecs - 1,
                    to_move <= last_i,
                    self.vecs == old(self).vecs,
                    lens == self.lens(),
                    n_vecs == self.vecs@.len(),
                    in_ranges(c, lens),
                    self.chosen@.len() == n_vecs,
                    forall|a: int| 0 <= a < to_move ==> self.chosen@[a] == c[a],
                    self.chosen@[to_move as int] == c[to_move as int] + 1,
                    forall|a: int| to_move < a < n_vecs ==> self.chosen@[a] == 0,
                    forall|a: int| to_move < a < n_vecs ==> c[a] + 1 == lens[a],
                decreases to_move,
            {
                assert(lens[to_move as int] == self.vecs@[to_move as int]@.len());
                self.chosen.set(to_move, 0);
                to_move -= 1;
                let bound = self.vecs[to_move].len();
                assert(lens[to_move as int] == bound);
                self.chosen.set(to_move, self.chosen[to_move] + 1);
            }
            proof {
                assert(lens[to_move as int] == self.vecs@[to_move as int]@.len());
                let t = to_move as int;
                if self.chosen@[t] < lens[t] {
                    lemma_last_growable(c, lens, c.len() - 1, t);
                } else {
                    assert(t == 0);
                    assert forall|a: int| 0 <= a < c.len() implies !(c[a] + 1 < lens[a]) by {}
                    lemma_none_growable(c, lens, c.len() - 1);
                }
                assert(self.chosen@ =~= next_tuple(c, lens));
            }
        } else {
            proof {
                assert(lens[0] == self.vecs@[0]@.len());
                if self.chosen@[last_i as int] == lens[last_i as int] {
                    assert(last_i == 0);
                    lemma_none_growable(c, lens, c.len() - 1);
                } else {
                    lemma_last_growable(c, lens, c.len() - 1, c.len() - 1);
                }
                assert(self.chosen@ =~= next_tuple(c, lens));
            }
        }
        Some(res)
    }
}

proof fn lemma_last_growable(c: Seq<usize>, lens: Seq<nat>, t: int, m: int)
    requires
        0 <= m <= t < c.len(),
        c[m] + 1 < lens[m],
        forall|a: int| m < a <= t ==> !(c[a] + 1 < lens[a]),
    ensures
        last_growable(c, lens, t) == m,
    decreases t,
{
    if t > m {
        lemma_last_growable(c, lens, t - 1, m);
    }
}

proof fn lemma_none_growable(c: Seq<usize>, lens: Seq<nat>, t: int)
    requires
        t < c.len(),
        forall|a: int| 0 <= a <= t ==> !(c[a] + 1 < lens[a]),
    ensures
        last_growable(c, lens, t) == -1,
    decreases t + 1,
{
    if t >= 0 {
        lemma_none_growable(c, lens, t - 1);
    }
}

/// The last position that can grow is at least any position that can.
proof fn lemma_last_growable_at_least(c: Seq<usize>, lens: Seq<nat>, t: int, m: int)
    requires
        0 <= m <= t < c.len(),
        c[m] + 1 < lens[m],
    ensures
        m <= last_growable(c, lens, t) <= t,
        c[last_growable(c, lens, t)] + 1 < lens[last_growable(c, lens, t)],
    decreases t,
{
    if t > m && !(c[t] + 1 < lens[t]) {
        lemma_last_growable_at_least(c, lens, t - 1, m);
    }
}

/// The tuple of first elements comes before every other tuple.
pub proof fn lemma_first_tuple(lens: Seq<nat>, d: Seq<usize>)
    requires
        d.len() == lens.len(),
        in_ranges(d, lens),
    ensures
        d == Seq::new(lens.len(), |s: int| 0usize) || lex_before(Seq::new(lens.len(), |s: int| 0usize), d),
{
    let f = Seq::new(lens.len(), |s: int| 0usize);
    if d != f {
        assert(!(d =~= f));
        let p = choose|p: int| 0 <= p < d.len() && d[p] != f[p];
        lemma_first_difference(f, d, p);
    }
}

/// No tuple comes between a tuple and the one that follows it: every tuple after `c` is
/// the next one or comes after it. When no position of `c` can grow, no tuple comes after
/// `c`.
pub proof fn lemma_next_tuple_is_least(c: Seq<usize>, lens: Seq<nat>, d: Seq<usize>)
    requires
        c.len() == lens.len(),
        d.len() == lens.len(),
        in_ranges(c, lens),
        in_ranges(d, lens),
        lex_before(c, d),
    ensures
        last_growable(c, lens, c.len() - 1) >= 0,
        d == next_tuple(c, lens) || lex_before(next_tuple(c, lens), d),
{
    let k = c.len() as int;
    let p = choose|p: int|
        0 <= p < c.len() && p < d.len() && c[p] < d[p] && forall|s: int| 0 <= s < p ==> #[trigger] c[s] == d[s];
    lemma_last_growable_at_least(c, lens, k - 1, p);
    let t = last_growable(c, lens, k - 1);
    let e = next_tuple(c, lens);
    if t > p {
        assert forall|s: int| 0 <= s < p implies #[trigger] e[s] == d[s] by {}
        assert(e[p] == c[p]);
    } else {
        assert forall|s: int| 0 <= s < t implies #[trigger] e[s] == d[s] by {}
        assert forall|s: int| 0 <= s < k implies e[s] <= d[s] by {}
        if e != d {
            assert(!(e =~= d));
            let q = choose|q: int| 0 <= q < k && e[q] != d[q];
            lemma_first_difference(e, d, q);
        }
    }
}

} // verus!
