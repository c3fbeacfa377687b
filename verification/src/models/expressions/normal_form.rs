use super::{
    conj, disj, distributed, holds, lemma_distribute_not_keeps_meaning, lemma_folding_meaning,
    lemma_until_congruence, negation, Condition, Expr,
};
use crate::models::model_clock::ModelClock;
use std::ops::Not;
use vstd::arithmetic::power::lemma_pow0;
use vstd::arithmetic::power2::{lemma_pow2_adds, lemma_pow2_strictly_increases, lemma_pow2_unfold, pow2};
use vstd::prelude::*;

verus! {

/// A weight of a condition that every rewriting step towards the disjunctive normal form
/// makes smaller: a negation weighs two to the weight of what it negates, a conjunction the
/// product of its parts, `Next` the square of its part.
pub open spec fn weight(c: Condition) -> nat
    decreases c,
{
    match c {
        Condition::Not(a) => pow2(weight(*a)),
        Condition::And(a, b) => weight(*a) * weight(*b),
        Condition::Or(a, b) => weight(*a) + weight(*b) + 1,
        Condition::Implies(a, b) => pow2(weight(*a)) + weight(*b) + 1,
        Condition::Next(a) => weight(*a) * weight(*a),
        Condition::Until(a, b) => weight(*a) + weight(*b) + 1,
        _ => 3,
    }
}

/// The rewriting of `c` towards a disjunction of conjunctions, carried out to a depth of
/// `n` steps; at depth `0` the condition is left as it is.
pub open spec fn dnf_within(c: Condition, n: nat) -> Condition
    decreases n,
{
    if n == 0 {
        c
    } else {
        let k = (n - 1) as nat;
        match c {
            Condition::Not(s) => match *s {
                Condition::Not(c1) => dnf_within(*c1, k),
                Condition::And(c1, c2) => Condition::Or(
                    Box::new(dnf_within(Condition::Not(c1), k)),
                    Box::new(dnf_within(Condition::Not(c2), k)),
                ),
                Condition::Or(c1, c2) => dnf_within(
                    Condition::And(Box::new(Condition::Not(c1)), Box::new(Condition::Not(c2))),
                    k,
                ),
                Condition::Implies(c1, c2) => dnf_within(
                    Condition::And(c1, Box::new(Condition::Not(c2))),
                    k,
                ),
                Condition::Next(x) => dnf_within(
                    Condition::Next(Box::new(Condition::Not(x))),
                    k,
                ),
                Condition::Until(a, b) => Condition::Not(
                    Box::new(
                        Condition::Until(Box::new(dnf_within(*a, k)), Box::new(dnf_within(*b, k))),
                    ),
                ),
                _ => distributed(c),
            },
            Condition::Or(c1, c2) => Condition::Or(
                Box::new(dnf_within(*c1, k)),
                Box::new(dnf_within(*c2, k)),
            ),
            Condition::Implies(c1, c2) => Condition::Or(
                Box::new(dnf_within(Condition::Not(c1), k)),
                Box::new(dnf_within(*c2, k)),
            ),
            Condition::And(c1, c2) => {
                let r1 = dnf_within(*c1, k);
                let r2 = dnf_within(*c2, k);
                match r1 {
                    Condition::Or(a, b) => match r2 {
                        Condition::Or(x, y) => Condition::Or(
                            Box::new(
                                Condition::Or(
                                    Box::new(dnf_within(Condition::And(a, x), k)),
                                    Box::new(dnf_within(Condition::And(a, y), k)),
                                ),
                            ),
                            Box::new(
                                Condition::Or(
                                    Box::new(dnf_within(Condition::And(b, x), k)),
                                    Box::new(dnf_within(Condition::And(b, y), k)),
                                ),
                            ),
                        ),
                        _ => Condition::Or(
                            Box::new(dnf_within(Condition::And(a, Box::new(r2)), k)),
                            Box::new(dnf_within(Condition::And(b, Box::new(r2)), k)),
                        ),
                    },
                    _ => match r2 {
                        Condition::Or(x, y) => Condition::Or(
                            Box::new(dnf_within(Condition::And(x, Box::new(r1)), k)),
                            Box::new(dnf_within(Condition::And(y, Box::new(r1)), k)),
                        ),
                        _ => conj(r1, r2),
                    },
                }
            },
            Condition::Next(s) => {
                let t = dnf_within(*s, k);
                match t {
                    Condition::Or(a, b) => disj(
                        dnf_within(Condition::Next(a), k),
                        dnf_within(Condition::Next(b), k),
                    ),
                    Condition::And(a, b) => conj(
                        dnf_within(Condition::Next(a), k),
                        dnf_within(Condition::Next(b), k),
                    ),
                    _ => Condition::Next(Box::new(t)),
                }
            },
            Condition::Until(a, b) => Condition::Until(
                Box::new(dnf_within(*a, k)),
                Box::new(dnf_within(*b, k)),
            ),
            _ => c,
        }
    }
}

/// `c` rewritten as a disjunction of conjunctions: the negations pushed down, implications
/// unfolded, conjunctions distributed over disjunctions and `Next` over both.
pub open spec fn disjunctive_form(c: Condition) -> Condition {
    dnf_within(c, weight(c))
}

/// The negation of the disjunctive form of `c`, with its negations pushed down: a
/// conjunction of disjunctions.
pub open spec fn conjunctive_form(c: Condition) -> Condition {
    distributed(negation(disjunctive_form(c)))
}

proof fn lemma_pow2_exceeds(x: nat)
    ensures
        x < pow2(x),
    decreases x,
{
    if x == 0 {
        lemma_pow0(2);
    } else {
        lemma_pow2_unfold(x);
        lemma_pow2_exceeds((x - 1) as nat);
    }
}

proof fn lemma_pow2_monotone(a: nat, b: nat)
    requires
        a <= b,
    ensures
        pow2(a) <= pow2(b),
{
    if a < b {
        lemma_pow2_strictly_increases(a, b);
    }
}

proof fn lemma_mul_strict(a: int, b: int, c: int, d: int)
    by (nonlinear_arith)
    requires
        0 <= a < c,
        0 < b <= d,
    ensures
        a * b < c * d,
        b * a < c * d,
        a * b < d * c,
{
}

proof fn lemma_mul_le(a: int, b: int, c: int, d: int)
    by (nonlinear_arith)
    requires
        0 <= a <= c,
        0 <= b <= d,
    ensures
        a * b <= c * d,
{
}

proof fn lemma_mul_grows(x: int, y: int)
    by (nonlinear_arith)
    requires
        x >= 3,
        y >= 3,
    ensures
        x < x * y,
        y < x * y,
        x + y + 1 <= x * y,
        x + y < x * y,
{
}

/// Every condition weighs at least three.
pub proof fn lemma_weight_least(c: Condition)
    ensures
        weight(c) >= 3,
    decreases c,
{
    match c {
        Condition::Not(a) => {
            lemma_weight_least(*a);
            lemma_pow2_exceeds(weight(*a));
        },
        Condition::And(a, b) => {
            lemma_weight_least(*a);
            lemma_weight_least(*b);
            lemma_mul_grows(weight(*a) as int, weight(*b) as int);
        },
        Condition::Or(a, b) => {
            lemma_weight_least(*a);
        },
        Condition::Implies(a, b) => {
            lemma_weight_least(*b);
        },
        Condition::Next(a) => {
            lemma_weight_least(*a);
            lemma_mul_grows(weight(*a) as int, weight(*a) as int);
        },
        Condition::Until(a, b) => {
            lemma_weight_least(*a);
        },
        _ => {},
    }
}

proof fn lemma_conj_weight(x: Condition, y: Condition)
    ensures
        weight(conj(x, y)) <= weight(x) * weight(y),
{
    lemma_weight_least(x);
    lemma_weight_least(y);
    lemma_mul_grows(weight(x) as int, weight(y) as int);
}

proof fn lemma_disj_weight(x: Condition, y: Condition)
    ensures
        weight(disj(x, y)) <= weight(x) + weight(y) + 1,
{
    lemma_weight_least(x);
    lemma_weight_least(y);
}


/// Rewriting to a depth at least the weight of `c` gives the same result at every such
/// depth, and the result weighs no more than `c`.
pub open spec fn settled(c: Condition, n: nat, m: nat) -> bool {
    dnf_within(c, n) == dnf_within(c, m) && weight(dnf_within(c, n)) <= weight(c)
}

proof fn lemma_settled(c: Condition, n: nat, m: nat)
    requires
        weight(c) <= n <= m,
    ensures
        settled(c, n, m),
    decreases n, 1nat,
{
    lemma_weight_least(c);
    let k = (n - 1) as nat;
    let l = (m - 1) as nat;
    match c {
        Condition::Not(s) => {
            lemma_settled_not(c, n, m);
        },
        Condition::And(c1, c2) => {
            lemma_settled_and(c, n, m);
        },
        Condition::Next(s) => {
            lemma_settled_next(c, n, m);
        },
        Condition::Or(c1, c2) => {
            lemma_weight_least(*c1);
            lemma_weight_least(*c2);
            lemma_settled(*c1, k, l);
            lemma_settled(*c2, k, l);
        },
        Condition::Until(c1, c2) => {
            lemma_weight_least(*c1);
            lemma_weight_least(*c2);
            lemma_settled(*c1, k, l);
            lemma_settled(*c2, k, l);
        },
        Condition::Implies(c1, c2) => {
            lemma_weight_least(*c1);
            lemma_weight_least(*c2);
            lemma_pow2_exceeds(weight(*c1));
            assert(weight(Condition::Not(c1)) == pow2(weight(*c1)));
            lemma_settled(Condition::Not(c1), k, l);
            lemma_settled(*c2, k, l);
        },
        _ => {},
    }
}

proof fn lemma_settled_not(c: Condition, n: nat, m: nat)
    requires
        weight(c) <= n <= m,
        c is Not,
    ensures
        settled(c, n, m),
    decreases n, 0nat,
{
    lemma_weight_least(c);
    let k = (n - 1) as nat;
    let l = (m - 1) as nat;
    let s = *c->Not_0;
    let w = weight(s);
    lemma_weight_least(s);
    assert(weight(c) == pow2(w));
    match s {
        Condition::Not(c1) => {
            let w1 = weight(*c1);
            assert(w == pow2(w1));
            lemma_pow2_exceeds(w1);
            lemma_pow2_exceeds(pow2(w1));
            lemma_settled(*c1, k, l);
            assert(dnf_within(c, n) == dnf_within(*c1, k));
            assert(weight(c) == pow2(pow2(w1)));
        },
        Condition::And(c1, c2) => {
            let w1 = weight(*c1);
            let w2 = weight(*c2);
            lemma_weight_least(*c1);
            lemma_weight_least(*c2);
            lemma_mul_grows(w1 as int, w2 as int);
            lemma_pow2_strictly_increases(w1, w1 * w2);
            lemma_pow2_strictly_increases(w2, w1 * w2);
            assert(weight(Condition::Not(c1)) == pow2(w1));
            assert(weight(Condition::Not(c2)) == pow2(w2));
            lemma_settled(Condition::Not(c1), k, l);
            lemma_settled(Condition::Not(c2), k, l);
            lemma_pow2_exceeds(w1);
            lemma_pow2_exceeds(w2);
            lemma_pow2_adds(w1, w2);
            lemma_mul_grows(pow2(w1) as int, pow2(w2) as int);
            lemma_pow2_monotone(w1 + w2, w1 * w2);
        },
        Condition::Or(c1, c2) => {
            let w1 = weight(*c1);
            let w2 = weight(*c2);
            let x = Condition::And(Box::new(Condition::Not(c1)), Box::new(Condition::Not(c2)));
            assert(weight(Condition::Not(c1)) == pow2(w1));
            assert(weight(Condition::Not(c2)) == pow2(w2));
            assert(weight(x) == pow2(w1) * pow2(w2));
            lemma_pow2_adds(w1, w2);
            lemma_pow2_strictly_increases(w1 + w2, w1 + w2 + 1);
            lemma_settled(x, k, l);
        },
        Condition::Implies(c1, c2) => {
            let w1 = weight(*c1);
            let w2 = weight(*c2);
            let x = Condition::And(c1, Box::new(Condition::Not(c2)));
            assert(weight(Condition::Not(c2)) == pow2(w2));
            assert(weight(x) == w1 * pow2(w2));
            lemma_pow2_exceeds(w1);
            lemma_pow2_pos_local(w2);
            lemma_mul_strict(w1 as int, pow2(w2) as int, pow2(w1) as int, pow2(w2) as int);
            lemma_pow2_adds(w1, w2);
            lemma_pow2_strictly_increases(w1 + w2, pow2(w1) + w2 + 1);
            lemma_settled(x, k, l);
        },
        Condition::Next(x0) => {
            let w0 = weight(*x0);
            lemma_weight_least(*x0);
            let x = Condition::Next(Box::new(Condition::Not(x0)));
            assert(weight(Condition::Not(x0)) == pow2(w0));
            assert(weight(x) == pow2(w0) * pow2(w0));
            lemma_pow2_adds(w0, w0);
            lemma_mul_grows(w0 as int, w0 as int);
            assert(w0 + w0 < w0 * w0) by (nonlinear_arith)
                requires
                    w0 >= 3,
            ;
            lemma_pow2_strictly_increases(w0 + w0, w0 * w0);
            lemma_settled(x, k, l);
        },
        Condition::Until(a, b) => {
            let wa = weight(*a);
            let wb = weight(*b);
            lemma_pow2_exceeds(wa + wb + 1);
            lemma_settled(*a, k, l);
            lemma_settled(*b, k, l);
            let u = Condition::Until(Box::new(dnf_within(*a, k)), Box::new(dnf_within(*b, k)));
            assert(w == wa + wb + 1);
            assert(weight(u) == weight(dnf_within(*a, k)) + weight(dnf_within(*b, k)) + 1);
            assert(dnf_within(c, n) == Condition::Not(Box::new(u)));
            lemma_pow2_monotone(weight(u), w);
        },
        _ => {
            lemma_pow2_exceeds(3);
        },
    }
}

proof fn lemma_pow2_pos_local(x: nat)
    ensures
        pow2(x) > 0,
{
    lemma_pow2_exceeds(x);
}

proof fn lemma_settled_and(c: Condition, n: nat, m: nat)
    requires
        weight(c) <= n <= m,
        c is And,
    ensures
        settled(c, n, m),
    decreases n, 0nat,
{
    lemma_weight_least(c);
    let k = (n - 1) as nat;
    let l = (m - 1) as nat;
    let c1 = *c->And_0;
    let c2 = *c->And_1;
    let w1 = weight(c1);
    let w2 = weight(c2);
    lemma_weight_least(c1);
    lemma_weight_least(c2);
    lemma_mul_grows(w1 as int, w2 as int);
    lemma_settled(c1, k, l);
    lemma_settled(c2, k, l);
    let r1 = dnf_within(c1, k);
    let r2 = dnf_within(c2, k);
    let p = weight(r1);
    let q = weight(r2);
    lemma_weight_least(r1);
    lemma_weight_least(r2);
    lemma_mul_le(p as int, q as int, w1 as int, w2 as int);
    assert(weight(c) == w1 * w2);
    match r1 {
        Condition::Or(a, b) => {
            let wa = weight(*a);
            let wb = weight(*b);
            lemma_weight_least(*a);
            lemma_weight_least(*b);
            match r2 {
                Condition::Or(x, y) => {
                    let wx = weight(*x);
                    let wy = weight(*y);
                    lemma_weight_least(*x);
                    lemma_weight_least(*y);
                    lemma_mul_strict(wa as int, wx as int, w1 as int, w2 as int);
                    lemma_mul_strict(wa as int, wy as int, w1 as int, w2 as int);
                    lemma_mul_strict(wb as int, wx as int, w1 as int, w2 as int);
                    lemma_mul_strict(wb as int, wy as int, w1 as int, w2 as int);
                    lemma_settled(Condition::And(a, x), k, l);
                    lemma_settled(Condition::And(a, y), k, l);
                    lemma_settled(Condition::And(b, x), k, l);
                    lemma_settled(Condition::And(b, y), k, l);
                    assert(p == wa + wb + 1);
                    assert(q == wx + wy + 1);
                    let d1 = dnf_within(Condition::And(a, x), k);
                    let d2 = dnf_within(Condition::And(a, y), k);
                    let d3 = dnf_within(Condition::And(b, x), k);
                    let d4 = dnf_within(Condition::And(b, y), k);
                    assert(weight(d1) <= wa * wx);
                    assert(weight(d2) <= wa * wy);
                    assert(weight(d3) <= wb * wx);
                    assert(weight(d4) <= wb * wy);
                    let o1 = Condition::Or(Box::new(d1), Box::new(d2));
                    let o2 = Condition::Or(Box::new(d3), Box::new(d4));
                    assert(dnf_within(c, n) == Condition::Or(Box::new(o1), Box::new(o2)));
                    assert(weight(o1) == weight(d1) + weight(d2) + 1);
                    assert(weight(o2) == weight(d3) + weight(d4) + 1);
                    assert((wa + wb + 1) * (wx + wy + 1) == wa * wx + wa * wy + wb * wx + wb * wy
                        + wa + wb + wx + wy + 1) by (nonlinear_arith);
                },
                _ => {
                    lemma_mul_strict(wa as int, q as int, w1 as int, w2 as int);
                    lemma_mul_strict(wb as int, q as int, w1 as int, w2 as int);
                    lemma_settled(Condition::And(a, Box::new(r2)), k, l);
                    lemma_settled(Condition::And(b, Box::new(r2)), k, l);
                    assert(p == wa + wb + 1);
                    assert(weight(Condition::And(a, Box::new(r2))) == wa * q);
                    assert(weight(Condition::And(b, Box::new(r2))) == wb * q);
                    assert((wa + wb + 1) * q == wa * q + wb * q + q) by (nonlinear_arith);
                },
            }
        },
        _ => match r2 {
            Condition::Or(x, y) => {
                let wx = weight(*x);
                let wy = weight(*y);
                lemma_weight_least(*x);
                lemma_weight_least(*y);
                lemma_mul_strict(wx as int, p as int, w2 as int, w1 as int);
                lemma_mul_strict(wy as int, p as int, w2 as int, w1 as int);
                lemma_settled(Condition::And(x, Box::new(r1)), k, l);
                lemma_settled(Condition::And(y, Box::new(r1)), k, l);
                assert(q == wx + wy + 1);
                assert(weight(Condition::And(x, Box::new(r1))) == wx * p);
                assert(weight(Condition::And(y, Box::new(r1))) == wy * p);
                assert((wx + wy + 1) * p == wx * p + wy * p + p) by (nonlinear_arith);
                assert(p * q == q * p) by (nonlinear_arith);
            },
            _ => {
                lemma_conj_weight(r1, r2);
            },
        },
    }
}

proof fn lemma_settled_next(c: Condition, n: nat, m: nat)
    requires
        weight(c) <= n <= m,
        c is Next,
    ensures
        settled(c, n, m),
    decreases n, 0nat,
{
    lemma_weight_least(c);
    let k = (n - 1) as nat;
    let l = (m - 1) as nat;
    let s = *c->Next_0;
    let ws = weight(s);
    assert(weight(c) == ws * ws);
    lemma_weight_least(s);
    lemma_mul_grows(ws as int, ws as int);
    lemma_settled(s, k, l);
    let t = dnf_within(s, k);
    let wt = weight(t);
    lemma_weight_least(t);
    lemma_mul_le(wt as int, wt as int, ws as int, ws as int);
    match t {
        Condition::Or(a, b) => {
            let wa = weight(*a);
            let wb = weight(*b);
            lemma_weight_least(*a);
            lemma_weight_least(*b);
            assert(wt == wa + wb + 1);
            lemma_mul_strict(wa as int, wa as int, ws as int, ws as int);
            lemma_mul_strict(wb as int, wb as int, ws as int, ws as int);
            assert(weight(Condition::Next(a)) == wa * wa);
            assert(weight(Condition::Next(b)) == wb * wb);
            lemma_settled(Condition::Next(a), k, l);
            lemma_settled(Condition::Next(b), k, l);
            lemma_disj_weight(dnf_within(Condition::Next(a), k), dnf_within(Condition::Next(b), k));
            assert(wt * wt >= wa * wa + wb * wb + 1) by (nonlinear_arith)
                requires
                    wa >= 3,
                    wb >= 3,
                    wt == wa + wb + 1,
            ;
            assert(dnf_within(c, n) == disj(
                dnf_within(Condition::Next(a), k),
                dnf_within(Condition::Next(b), k),
            ));
        },
        Condition::And(a, b) => {
            let wa = weight(*a);
            let wb = weight(*b);
            lemma_weight_least(*a);
            lemma_weight_least(*b);
            lemma_mul_grows(wa as int, wb as int);
            lemma_mul_strict(wa as int, wa as int, ws as int, ws as int);
            lemma_mul_strict(wb as int, wb as int, ws as int, ws as int);
            assert(weight(Condition::Next(a)) == wa * wa);
            assert(weight(Condition::Next(b)) == wb * wb);
            lemma_settled(Condition::Next(a), k, l);
            lemma_settled(Condition::Next(b), k, l);
            lemma_conj_weight(dnf_within(Condition::Next(a), k), dnf_within(Condition::Next(b), k));
            lemma_mul_le(
                weight(dnf_within(Condition::Next(a), k)) as int,
                weight(dnf_within(Condition::Next(b), k)) as int,
                (wa * wa) as int,
                (wb * wb) as int,
            );
            assert((wa * wa) * (wb * wb) == (wa * wb) * (wa * wb)) by (nonlinear_arith);
        },
        _ => {},
    }
}

impl Condition {
    /// This condition rewritten as a disjunction of conjunctions: negations pushed down,
    /// implications unfolded, conjunctions distributed over disjunctions and `Next` over
    /// both.
    pub fn disjunctive_normal(&self) -> (r: Condition)
        ensures
            r == disjunctive_form(*self),
            weight(r) <= weight(*self),
        decreases weight(*self), 1nat,
    {
        let ghost w = weight(*self);
        let ghost k = (w - 1) as nat;
        proof {
            lemma_weight_least(*self);
            lemma_settled(*self, w, w);
        }
        match self {
            Condition::Not(c) => {
                let sub = Condition::clone(c);
                proof {
                    lemma_weight_least(sub);
                    assert(w == pow2(weight(sub)));
                }
                match sub {
                    Condition::Not(c1) => {
                        proof {
                            lemma_pow2_exceeds(weight(*c1));
                            lemma_pow2_exceeds(pow2(weight(*c1)));
                            lemma_settled(*c1, weight(*c1), k);
                        }
                        c1.disjunctive_normal()
                    },
                    Condition::And(c1, c2) => {
                        let n1 = Condition::Not(c1);
                        let n2 = Condition::Not(c2);
                        proof {
                            let w1 = weight(*c1);
                            let w2 = weight(*c2);
                            lemma_weight_least(*c1);
                            lemma_weight_least(*c2);
                            lemma_mul_grows(w1 as int, w2 as int);
                            lemma_pow2_strictly_increases(w1, w1 * w2);
                            lemma_pow2_strictly_increases(w2, w1 * w2);
                            lemma_settled(n1, weight(n1), k);
                            lemma_settled(n2, weight(n2), k);
                        }
                        Condition::Or(Box::new(n1.disjunctive_normal()), Box::new(n2.disjunctive_normal()))
                    },
                    Condition::Or(c1, c2) => {
                        let x = Condition::And(Box::new(Condition::Not(c1)), Box::new(Condition::Not(c2)));
                        proof {
                            let w1 = weight(*c1);
                            let w2 = weight(*c2);
                            assert(weight(Condition::Not(c1)) == pow2(w1));
                            assert(weight(Condition::Not(c2)) == pow2(w2));
                            lemma_pow2_adds(w1, w2);
                            lemma_pow2_strictly_increases(w1 + w2, w1 + w2 + 1);
                            lemma_settled(x, weight(x), k);
                        }
                        x.disjunctive_normal()
                    },
                    Condition::Implies(c1, c2) => {
                        let x = Condition::And(c1, Box::new(Condition::Not(c2)));
                        proof {
                            let w1 = weight(*x->And_0);
                            let w2 = weight(*c2);
                            assert(weight(Condition::Not(c2)) == pow2(w2));
                            lemma_pow2_exceeds(w1);
                            lemma_pow2_exceeds(w2);
                            lemma_mul_strict(w1 as int, pow2(w2) as int, pow2(w1) as int, pow2(w2) as int);
                            lemma_pow2_adds(w1, w2);
                            lemma_pow2_strictly_increases(w1 + w2, pow2(w1) + w2 + 1);
                            lemma_settled(x, weight(x), k);
                        }
                        x.disjunctive_normal()
                    },
                    Condition::Next(x0) => {
                        let x = Condition::Next(Box::new(Condition::Not(x0)));
                        proof {
                            let w0 = weight(*x0);
                            lemma_weight_least(*x0);
                            assert(weight(Condition::Not(x0)) == pow2(w0));
                            lemma_pow2_adds(w0, w0);
                            assert(w0 + w0 < w0 * w0) by (nonlinear_arith)
                                requires
                                    w0 >= 3,
                            ;
                            lemma_pow2_strictly_increases(w0 + w0, w0 * w0);
                            lemma_settled(x, weight(x), k);
                        }
                        x.disjunctive_normal()
                    },
                    Condition::Until(a, b) => {
                        proof {
                            lemma_pow2_exceeds(weight(*a) + weight(*b) + 1);
                            lemma_settled(*a, weight(*a), k);
                            lemma_settled(*b, weight(*b), k);
                        }
                        Condition::Not(
                            Box::new(
                                Condition::Until(
                                    Box::new(a.disjunctive_normal()),
                                    Box::new(b.disjunctive_normal()),
                                ),
                            ),
                        )
                    },
                    _ => Condition::Not(c.clone()).distribute_not(),
                }
            },
            Condition::Or(c1, c2) => {
                proof {
                    lemma_weight_least(**c1);
                    lemma_weight_least(**c2);
                    lemma_settled(**c1, weight(**c1), k);
                    lemma_settled(**c2, weight(**c2), k);
                }
                Condition::Or(Box::new(c1.disjunctive_normal()), Box::new(c2.disjunctive_normal()))
            },
            Condition::Implies(c1, c2) => {
                let n1 = Condition::Not(c1.clone());
                proof {
                    lemma_weight_least(**c2);
                    lemma_settled(n1, weight(n1), k);
                    lemma_settled(**c2, weight(**c2), k);
                }
                Condition::Or(Box::new(n1.disjunctive_normal()), Box::new(c2.disjunctive_normal()))
            },
            Condition::And(c1, c2) => self.distributed_conjunction(),
            Condition::Next(s) => self.distributed_next(),
            Condition::Until(a, b) => {
                proof {
                    lemma_weight_least(**a);
                    lemma_weight_least(**b);
                    lemma_settled(**a, weight(**a), k);
                    lemma_settled(**b, weight(**b), k);
                }
                Condition::Until(Box::new(a.disjunctive_normal()), Box::new(b.disjunctive_normal()))
            },
            _ => self.clone(),
        }
    }
}

impl Condition {
    /// The disjunctive normal form of a conjunction: both parts in that form, and the
    /// disjunctions of either part distributed over the other.
    fn distributed_conjunction(&self) -> (r: Condition)
        requires
            *self is And,
        ensures
            r == disjunctive_form(*self),
            weight(r) <= weight(*self),
        decreases weight(*self), 0nat,
    {
        let ghost w = weight(*self);
        let ghost k = (w - 1) as nat;
        match self {
            Condition::And(c1, c2) => {
                let ghost w1 = weight(**c1);
                let ghost w2 = weight(**c2);
                proof {
                    lemma_weight_least(**c1);
                    lemma_weight_least(**c2);
                    lemma_mul_grows(w1 as int, w2 as int);
                    lemma_settled(*self, w, w);
                    lemma_settled(**c1, w1, k);
                    lemma_settled(**c2, w2, k);
                }
                let r1 = c1.disjunctive_normal();
                let r2 = c2.disjunctive_normal();
                let ghost p = weight(r1);
                let ghost q = weight(r2);
                proof {
                    lemma_weight_least(r1);
                    lemma_weight_least(r2);
                }
                match r1 {
                    Condition::Or(a, b) => {
                        proof {
                            lemma_weight_least(*a);
                            lemma_weight_least(*b);
                        }
                        match r2 {
                            Condition::Or(x, y) => {
                                let ax = Condition::And(Box::new((*a).clone()), Box::new((*x).clone()));
                                let ay = Condition::And(Box::new((*a).clone()), Box::new((*y).clone()));
                                let bx = Condition::And(Box::new((*b).clone()), Box::new((*x).clone()));
                                let by = Condition::And(b, y);
                                proof {
                                    lemma_weight_least(*x);
                                    lemma_weight_least(*y);
                                    let wa = weight(*a);
                                    let wb = weight(*b);
                                    let wx = weight(*x);
                                    let wy = weight(*y);
                                    lemma_mul_strict(wa as int, wx as int, w1 as int, w2 as int);
                                    lemma_mul_strict(wa as int, wy as int, w1 as int, w2 as int);
                                    lemma_mul_strict(wb as int, wx as int, w1 as int, w2 as int);
                                    lemma_mul_strict(wb as int, wy as int, w1 as int, w2 as int);
                                    lemma_settled(ax, weight(ax), k);
                                    lemma_settled(ay, weight(ay), k);
                                    lemma_settled(bx, weight(bx), k);
                                    lemma_settled(by, weight(by), k);
                                }
                                Condition::Or(
                                    Box::new(
                                        Condition::Or(
                                            Box::new(ax.disjunctive_normal()),
                                            Box::new(ay.disjunctive_normal()),
                                        ),
                                    ),
                                    Box::new(
                                        Condition::Or(
                                            Box::new(bx.disjunctive_normal()),
                                            Box::new(by.disjunctive_normal()),
                                        ),
                                    ),
                                )
                            },
                            _ => {
                                let ar = Condition::And(a, Box::new(r2.clone()));
                                let br = Condition::And(b, Box::new(r2));
                                proof {
                                    lemma_mul_strict(weight(*ar->And_0) as int, q as int, w1 as int, w2 as int);
                                    lemma_mul_strict(weight(*br->And_0) as int, q as int, w1 as int, w2 as int);
                                    lemma_settled(ar, weight(ar), k);
                                    lemma_settled(br, weight(br), k);
                                }
                                Condition::Or(Box::new(ar.disjunctive_normal()), Box::new(br.disjunctive_normal()))
                            },
                        }
                    },
                    _ => match r2 {
                        Condition::Or(x, y) => {
                            let xr = Condition::And(x, Box::new(r1.clone()));
                            let yr = Condition::And(y, Box::new(r1));
                            proof {
                                lemma_weight_least(*xr->And_0);
                                lemma_weight_least(*yr->And_0);
                                lemma_mul_strict(weight(*xr->And_0) as int, p as int, w2 as int, w1 as int);
                                lemma_mul_strict(weight(*yr->And_0) as int, p as int, w2 as int, w1 as int);
                                lemma_settled(xr, weight(xr), k);
                                lemma_settled(yr, weight(yr), k);
                            }
                            Condition::Or(Box::new(xr.disjunctive_normal()), Box::new(yr.disjunctive_normal()))
                        },
                        _ => r1 & r2,
                    },
                }
            },
            _ => self.clone(),
        }
    }

    /// The disjunctive normal form of `Next` of a condition: `Next` distributed over the
    /// disjunction or conjunction that the normal form of its part has at the top.
    fn distributed_next(&self) -> (r: Condition)
        requires
            *self is Next,
        ensures
            r == disjunctive_form(*self),
            weight(r) <= weight(*self),
        decreases weight(*self), 0nat,
    {
        let ghost w = weight(*self);
        let ghost k = (w - 1) as nat;
        match self {
            Condition::Next(s) => {
                let ghost ws = weight(**s);
                proof {
                    lemma_weight_least(**s);
                    lemma_mul_grows(ws as int, ws as int);
                    lemma_settled(*self, w, w);
                    lemma_settled(**s, ws, k);
                }
                let t = s.disjunctive_normal();
                proof {
                    lemma_weight_least(t);
                }
                match t {
                    Condition::Or(a, b) => {
                        let na = Condition::Next(a);
                        let nb = Condition::Next(b);
                        proof {
                            let wa = weight(*na->Next_0);
                            let wb = weight(*nb->Next_0);
                            lemma_weight_least(*na->Next_0);
                            lemma_weight_least(*nb->Next_0);
                            lemma_mul_strict(wa as int, wa as int, ws as int, ws as int);
                            lemma_mul_strict(wb as int, wb as int, ws as int, ws as int);
                            lemma_settled(na, weight(na), k);
                            lemma_settled(nb, weight(nb), k);
                        }
                        na.disjunctive_normal() | nb.disjunctive_normal()
                    },
                    Condition::And(a, b) => {
                        let na = Condition::Next(a);
                        let nb = Condition::Next(b);
                        proof {
                            let wa = weight(*na->Next_0);
                            let wb = weight(*nb->Next_0);
                            lemma_weight_least(*na->Next_0);
                            lemma_weight_least(*nb->Next_0);
                            lemma_mul_grows(wa as int, wb as int);
                            lemma_mul_strict(wa as int, wa as int, ws as int, ws as int);
                            lemma_mul_strict(wb as int, wb as int, ws as int, ws as int);
                            lemma_settled(na, weight(na), k);
                            lemma_settled(nb, weight(nb), k);
                        }
                        na.disjunctive_normal() & nb.disjunctive_normal()
                    },
                    _ => Condition::Next(Box::new(t)),
                }
            },
            _ => self.clone(),
        }
    }

    /// The negation of this condition's disjunctive normal form, with its negations pushed
    /// down: a conjunction of disjunctions that holds exactly where this condition does not.
    pub fn conjunctive_normal(&self) -> (r: Condition)
        ensures
            r == conjunctive_form(*self),
    {
        Not::not(self.disjunctive_normal()).distribute_not()
    }
}

/// Each rewriting step keeps the meaning of a condition, whatever the depth.
proof fn lemma_dnf_within_meaning(
    c: Condition,
    n: nat,
    dead: spec_fn(nat) -> bool,
    value: spec_fn(nat, Expr) -> int,
    clock: spec_fn(nat, ModelClock) -> int,
)
    ensures
        forall|i: nat|
            #[trigger] holds(dnf_within(c, n), dead, value, clock, i) == holds(c, dead, value, clock, i),
    decreases n, 1nat,
{
    if n > 0 {
        let k = (n - 1) as nat;
        match c {
            Condition::Not(s) => lemma_dnf_within_meaning_not(c, n, dead, value, clock),
            Condition::And(c1, c2) => lemma_dnf_within_meaning_and(c, n, dead, value, clock),
            Condition::Next(s) => lemma_dnf_within_meaning_next(c, n, dead, value, clock),
            Condition::Or(c1, c2) => {
                lemma_dnf_within_meaning(*c1, k, dead, value, clock);
                lemma_dnf_within_meaning(*c2, k, dead, value, clock);
                assert forall|i: nat|
                    #[trigger] holds(dnf_within(c, n), dead, value, clock, i) == holds(c, dead, value, clock, i) by {
                    assert(holds(dnf_within(*c1, k), dead, value, clock, i) == holds(*c1, dead, value, clock, i));
                    assert(holds(dnf_within(*c2, k), dead, value, clock, i) == holds(*c2, dead, value, clock, i));
                }
            },
            Condition::Implies(c1, c2) => {
                lemma_dnf_within_meaning(Condition::Not(c1), k, dead, value, clock);
                lemma_dnf_within_meaning(*c2, k, dead, value, clock);
                assert forall|i: nat|
                    #[trigger] holds(dnf_within(c, n), dead, value, clock, i) == holds(c, dead, value, clock, i) by {
                    assert(holds(dnf_within(Condition::Not(c1), k), dead, value, clock, i) == holds(
                        Condition::Not(c1),
                        dead,
                        value,
                        clock,
                        i,
                    ));
                    assert(holds(dnf_within(*c2, k), dead, value, clock, i) == holds(*c2, dead, value, clock, i));
                }
            },
            Condition::Until(a, b) => {
                lemma_dnf_within_meaning(*a, k, dead, value, clock);
                lemma_dnf_within_meaning(*b, k, dead, value, clock);
                lemma_until_congruence(dnf_within(*a, k), dnf_within(*b, k), *a, *b, dead, value, clock);
            },
            _ => {},
        }
    }
}

proof fn lemma_dnf_within_meaning_not(
    c: Condition,
    n: nat,
    dead: spec_fn(nat) -> bool,
    value: spec_fn(nat, Expr) -> int,
    clock: spec_fn(nat, ModelClock) -> int,
)
    requires
        n > 0,
        c is Not,
    ensures
        forall|i: nat|
            #[trigger] holds(dnf_within(c, n), dead, value, clock, i) == holds(c, dead, value, clock, i),
    decreases n, 0nat,
{
    let k = (n - 1) as nat;
    let s = *c->Not_0;
    match s {
        Condition::Not(c1) => {
            lemma_dnf_within_meaning(*c1, k, dead, value, clock);
            assert forall|i: nat|
                #[trigger] holds(dnf_within(c, n), dead, value, clock, i) == holds(c, dead, value, clock, i) by {
                assert(holds(dnf_within(*c1, k), dead, value, clock, i) == holds(*c1, dead, value, clock, i));
                assert(holds(s, dead, value, clock, i) == !holds(*c1, dead, value, clock, i));
            }
        },
        Condition::And(c1, c2) => {
            let n1 = Condition::Not(c1);
            let n2 = Condition::Not(c2);
            lemma_dnf_within_meaning(n1, k, dead, value, clock);
            lemma_dnf_within_meaning(n2, k, dead, value, clock);
            assert forall|i: nat|
                #[trigger] holds(dnf_within(c, n), dead, value, clock, i) == holds(c, dead, value, clock, i) by {
                assert(holds(c, dead, value, clock, i) == !holds(s, dead, value, clock, i));
                assert(holds(s, dead, value, clock, i) == (holds(*c1, dead, value, clock, i) && holds(*c2, dead, value, clock, i)));
                assert(holds(n1, dead, value, clock, i) == !holds(*c1, dead, value, clock, i));
                assert(holds(n2, dead, value, clock, i) == !holds(*c2, dead, value, clock, i));
                assert(holds(dnf_within(n1, k), dead, value, clock, i) == holds(n1, dead, value, clock, i));
                assert(holds(dnf_within(n2, k), dead, value, clock, i) == holds(n2, dead, value, clock, i));
            }
        },
        Condition::Or(c1, c2) => {
            let x = Condition::And(Box::new(Condition::Not(c1)), Box::new(Condition::Not(c2)));
            lemma_dnf_within_meaning(x, k, dead, value, clock);
            assert forall|i: nat|
                #[trigger] holds(dnf_within(c, n), dead, value, clock, i) == holds(c, dead, value, clock, i) by {
                assert(holds(c, dead, value, clock, i) == !holds(s, dead, value, clock, i));
                assert(holds(s, dead, value, clock, i) == (holds(*c1, dead, value, clock, i) || holds(*c2, dead, value, clock, i)));
                assert(holds(x, dead, value, clock, i) == (holds(Condition::Not(c1), dead, value, clock, i) && holds(Condition::Not(c2), dead, value, clock, i)));
                assert(holds(dnf_within(x, k), dead, value, clock, i) == holds(x, dead, value, clock, i));
                assert(holds(Condition::Not(c1), dead, value, clock, i) == !holds(*c1, dead, value, clock, i));
                assert(holds(Condition::Not(c2), dead, value, clock, i) == !holds(*c2, dead, value, clock, i));
            }
        },
        Condition::Implies(c1, c2) => {
            let x = Condition::And(c1, Box::new(Condition::Not(c2)));
            lemma_dnf_within_meaning(x, k, dead, value, clock);
            assert forall|i: nat|
                #[trigger] holds(dnf_within(c, n), dead, value, clock, i) == holds(c, dead, value, clock, i) by {
                assert(holds(c, dead, value, clock, i) == !holds(s, dead, value, clock, i));
                assert(holds(s, dead, value, clock, i) == (!holds(*c1, dead, value, clock, i) || holds(*c2, dead, value, clock, i)));
                assert(holds(x, dead, value, clock, i) == (holds(*c1, dead, value, clock, i) && holds(Condition::Not(c2), dead, value, clock, i)));
                assert(holds(dnf_within(x, k), dead, value, clock, i) == holds(x, dead, value, clock, i));
                assert(holds(Condition::Not(c2), dead, value, clock, i) == !holds(*c2, dead, value, clock, i));
            }
        },
        Condition::Next(x0) => {
            let x = Condition::Next(Box::new(Condition::Not(x0)));
            lemma_dnf_within_meaning(x, k, dead, value, clock);
            assert forall|i: nat|
                #[trigger] holds(dnf_within(c, n), dead, value, clock, i) == holds(c, dead, value, clock, i) by {
                assert(holds(c, dead, value, clock, i) == !holds(s, dead, value, clock, i));
                assert(holds(s, dead, value, clock, i) == holds(*x0, dead, value, clock, i + 1));
                assert(holds(x, dead, value, clock, i) == holds(Condition::Not(x0), dead, value, clock, i + 1));
                assert(holds(dnf_within(x, k), dead, value, clock, i) == holds(x, dead, value, clock, i));
                assert(holds(Condition::Not(x0), dead, value, clock, i + 1) == !holds(
                    *x0,
                    dead,
                    value,
                    clock,
                    i + 1,
                ));
            }
        },
        Condition::Until(a, b) => {
            lemma_dnf_within_meaning(*a, k, dead, value, clock);
            lemma_dnf_within_meaning(*b, k, dead, value, clock);
            lemma_until_congruence(dnf_within(*a, k), dnf_within(*b, k), *a, *b, dead, value, clock);
            assert forall|i: nat|
                #[trigger] holds(dnf_within(c, n), dead, value, clock, i) == holds(c, dead, value, clock, i) by {
                assert(holds(Condition::Until(Box::new(dnf_within(*a, k)), Box::new(dnf_within(*b, k))), dead, value, clock, i)
                    == holds(Condition::Until(a, b), dead, value, clock, i));
            }
        },
        _ => {
            lemma_distribute_not_keeps_meaning(c, dead, value, clock);
        },
    }
}

proof fn lemma_dnf_within_meaning_and(
    c: Condition,
    n: nat,
    dead: spec_fn(nat) -> bool,
    value: spec_fn(nat, Expr) -> int,
    clock: spec_fn(nat, ModelClock) -> int,
)
    requires
        n > 0,
        c is And,
    ensures
        forall|i: nat|
            #[trigger] holds(dnf_within(c, n), dead, value, clock, i) == holds(c, dead, value, clock, i),
    decreases n, 0nat,
{
    let k = (n - 1) as nat;
    let c1 = *c->And_0;
    let c2 = *c->And_1;
    lemma_dnf_within_meaning(c1, k, dead, value, clock);
    lemma_dnf_within_meaning(c2, k, dead, value, clock);
    let r1 = dnf_within(c1, k);
    let r2 = dnf_within(c2, k);
    match r1 {
        Condition::Or(a, b) => match r2 {
            Condition::Or(x, y) => {
                let ax = Condition::And(a, x);
                let ay = Condition::And(a, y);
                let bx = Condition::And(b, x);
                let by = Condition::And(b, y);
                lemma_dnf_within_meaning(ax, k, dead, value, clock);
                lemma_dnf_within_meaning(ay, k, dead, value, clock);
                lemma_dnf_within_meaning(bx, k, dead, value, clock);
                lemma_dnf_within_meaning(by, k, dead, value, clock);
                assert forall|i: nat|
                    #[trigger] holds(dnf_within(c, n), dead, value, clock, i) == holds(c, dead, value, clock, i) by {
                    assert(holds(r1, dead, value, clock, i) == holds(c1, dead, value, clock, i));
                    assert(holds(r2, dead, value, clock, i) == holds(c2, dead, value, clock, i));
                    assert(holds(dnf_within(ax, k), dead, value, clock, i) == holds(ax, dead, value, clock, i));
                    assert(holds(dnf_within(ay, k), dead, value, clock, i) == holds(ay, dead, value, clock, i));
                    assert(holds(dnf_within(bx, k), dead, value, clock, i) == holds(bx, dead, value, clock, i));
                    assert(holds(dnf_within(by, k), dead, value, clock, i) == holds(by, dead, value, clock, i));
                    assert(holds(r1, dead, value, clock, i) == (holds(*a, dead, value, clock, i) || holds(*b, dead, value, clock, i)));
                    assert(holds(r2, dead, value, clock, i) == (holds(*x, dead, value, clock, i) || holds(*y, dead, value, clock, i)));
                    assert(holds(ax, dead, value, clock, i) == (holds(*a, dead, value, clock, i) && holds(*x, dead, value, clock, i)));
                    assert(holds(ay, dead, value, clock, i) == (holds(*a, dead, value, clock, i) && holds(*y, dead, value, clock, i)));
                    assert(holds(bx, dead, value, clock, i) == (holds(*b, dead, value, clock, i) && holds(*x, dead, value, clock, i)));
                    assert(holds(by, dead, value, clock, i) == (holds(*b, dead, value, clock, i) && holds(*y, dead, value, clock, i)));
                    assert(holds(c, dead, value, clock, i) == (holds(c1, dead, value, clock, i) && holds(c2, dead, value, clock, i)));
                    let o1 = Condition::Or(Box::new(dnf_within(ax, k)), Box::new(dnf_within(ay, k)));
                    let o2 = Condition::Or(Box::new(dnf_within(bx, k)), Box::new(dnf_within(by, k)));
                    assert(dnf_within(c, n) == Condition::Or(Box::new(o1), Box::new(o2)));
                    assert(holds(o1, dead, value, clock, i) == (holds(dnf_within(ax, k), dead, value, clock, i) || holds(dnf_within(ay, k), dead, value, clock, i)));
                    assert(holds(o2, dead, value, clock, i) == (holds(dnf_within(bx, k), dead, value, clock, i) || holds(dnf_within(by, k), dead, value, clock, i)));
                }
            },
            _ => {
                let ar = Condition::And(a, Box::new(r2));
                let br = Condition::And(b, Box::new(r2));
                lemma_dnf_within_meaning(ar, k, dead, value, clock);
                lemma_dnf_within_meaning(br, k, dead, value, clock);
                assert forall|i: nat|
                    #[trigger] holds(dnf_within(c, n), dead, value, clock, i) == holds(c, dead, value, clock, i) by {
                    assert(holds(r1, dead, value, clock, i) == holds(c1, dead, value, clock, i));
                    assert(holds(r2, dead, value, clock, i) == holds(c2, dead, value, clock, i));
                    assert(holds(dnf_within(ar, k), dead, value, clock, i) == holds(ar, dead, value, clock, i));
                    assert(holds(dnf_within(br, k), dead, value, clock, i) == holds(br, dead, value, clock, i));
                }
            },
        },
        _ => match r2 {
            Condition::Or(x, y) => {
                let xr = Condition::And(x, Box::new(r1));
                let yr = Condition::And(y, Box::new(r1));
                lemma_dnf_within_meaning(xr, k, dead, value, clock);
                lemma_dnf_within_meaning(yr, k, dead, value, clock);
                assert forall|i: nat|
                    #[trigger] holds(dnf_within(c, n), dead, value, clock, i) == holds(c, dead, value, clock, i) by {
                    assert(holds(r1, dead, value, clock, i) == holds(c1, dead, value, clock, i));
                    assert(holds(r2, dead, value, clock, i) == holds(c2, dead, value, clock, i));
                    assert(holds(dnf_within(xr, k), dead, value, clock, i) == holds(xr, dead, value, clock, i));
                    assert(holds(dnf_within(yr, k), dead, value, clock, i) == holds(yr, dead, value, clock, i));
                }
            },
            _ => {
                lemma_folding_meaning(r1, r2, dead, value, clock);
                assert forall|i: nat|
                    #[trigger] holds(dnf_within(c, n), dead, value, clock, i) == holds(c, dead, value, clock, i) by {
                    assert(holds(r1, dead, value, clock, i) == holds(c1, dead, value, clock, i));
                    assert(holds(r2, dead, value, clock, i) == holds(c2, dead, value, clock, i));
                    assert(holds(conj(r1, r2), dead, value, clock, i) == (holds(r1, dead, value, clock, i)
                        && holds(r2, dead, value, clock, i)));
                }
            },
        },
    }
}

proof fn lemma_dnf_within_meaning_next(
    c: Condition,
    n: nat,
    dead: spec_fn(nat) -> bool,
    value: spec_fn(nat, Expr) -> int,
    clock: spec_fn(nat, ModelClock) -> int,
)
    requires
        n > 0,
        c is Next,
    ensures
        forall|i: nat|
            #[trigger] holds(dnf_within(c, n), dead, value, clock, i) == holds(c, dead, value, clock, i),
    decreases n, 0nat,
{
    let k = (n - 1) as nat;
    let s = *c->Next_0;
    lemma_dnf_within_meaning(s, k, dead, value, clock);
    let t = dnf_within(s, k);
    match t {
        Condition::Or(a, b) => {
            let na = Condition::Next(a);
            let nb = Condition::Next(b);
            lemma_dnf_within_meaning(na, k, dead, value, clock);
            lemma_dnf_within_meaning(nb, k, dead, value, clock);
            lemma_folding_meaning(dnf_within(na, k), dnf_within(nb, k), dead, value, clock);
            assert forall|i: nat|
                #[trigger] holds(dnf_within(c, n), dead, value, clock, i) == holds(c, dead, value, clock, i) by {
                assert(holds(t, dead, value, clock, i + 1) == holds(s, dead, value, clock, i + 1));
                assert(holds(dnf_within(na, k), dead, value, clock, i) == holds(na, dead, value, clock, i));
                assert(holds(dnf_within(nb, k), dead, value, clock, i) == holds(nb, dead, value, clock, i));
                assert(holds(disj(dnf_within(na, k), dnf_within(nb, k)), dead, value, clock, i) == (holds(
                    dnf_within(na, k),
                    dead,
                    value,
                    clock,
                    i,
                ) || holds(dnf_within(nb, k), dead, value, clock, i)));
            }
        },
        Condition::And(a, b) => {
            let na = Condition::Next(a);
            let nb = Condition::Next(b);
            lemma_dnf_within_meaning(na, k, dead, value, clock);
            lemma_dnf_within_meaning(nb, k, dead, value, clock);
            lemma_folding_meaning(dnf_within(na, k), dnf_within(nb, k), dead, value, clock);
            assert forall|i: nat|
                #[trigger] holds(dnf_within(c, n), dead, value, clock, i) == holds(c, dead, value, clock, i) by {
                assert(holds(t, dead, value, clock, i + 1) == holds(s, dead, value, clock, i + 1));
                assert(holds(dnf_within(na, k), dead, value, clock, i) == holds(na, dead, value, clock, i));
                assert(holds(dnf_within(nb, k), dead, value, clock, i) == holds(nb, dead, value, clock, i));
                assert(holds(conj(dnf_within(na, k), dnf_within(nb, k)), dead, value, clock, i) == (holds(
                    dnf_within(na, k),
                    dead,
                    value,
                    clock,
                    i,
                ) && holds(dnf_within(nb, k), dead, value, clock, i)));
            }
        },
        _ => {
            assert forall|i: nat|
                #[trigger] holds(dnf_within(c, n), dead, value, clock, i) == holds(c, dead, value, clock, i) by {
                assert(holds(t, dead, value, clock, i + 1) == holds(s, dead, value, clock, i + 1));
            }
        },
    }
}

/// The disjunctive normal form of a condition means what the condition means, at every
/// position of every run.
pub proof fn lemma_disjunctive_normal_keeps_meaning(
    c: Condition,
    dead: spec_fn(nat) -> bool,
    value: spec_fn(nat, Expr) -> int,
    clock: spec_fn(nat, ModelClock) -> int,
)
    ensures
        forall|i: nat|
            #[trigger] holds(disjunctive_form(c), dead, value, clock, i) == holds(c, dead, value, clock, i),
{
    lemma_dnf_within_meaning(c, weight(c), dead, value, clock);
}

/// The conjunctive normal form that `conjunctive_normal` gives holds exactly where the
/// condition does not: it is built from the negation of the disjunctive normal form.
pub proof fn lemma_conjunctive_normal_negates(
    c: Condition,
    dead: spec_fn(nat) -> bool,
    value: spec_fn(nat, Expr) -> int,
    clock: spec_fn(nat, ModelClock) -> int,
)
    ensures
        forall|i: nat|
            #[trigger] holds(conjunctive_form(c), dead, value, clock, i) == !holds(c, dead, value, clock, i),
{
    let d = disjunctive_form(c);
    lemma_disjunctive_normal_keeps_meaning(c, dead, value, clock);
    lemma_folding_meaning(d, d, dead, value, clock);
    lemma_distribute_not_keeps_meaning(negation(d), dead, value, clock);
    assert forall|i: nat|
        #[trigger] holds(conjunctive_form(c), dead, value, clock, i) == !holds(c, dead, value, clock, i) by {
        assert(holds(d, dead, value, clock, i) == holds(c, dead, value, clock, i));
        assert(holds(negation(d), dead, value, clock, i) == !holds(d, dead, value, clock, i));
        assert(holds(distributed(negation(d)), dead, value, clock, i) == holds(negation(d), dead, value, clock, i));
    }
}

/// Whether `c` is a literal of a disjunctive normal form: a constant, a comparison, a
/// negated deadlock or evaluation, an `Until` of two normal forms or its negation, or
/// `Next` of a literal.
pub open spec fn is_literal(c: Condition) -> bool
    decreases c, 0nat,
{
    match c {
        Condition::Not(s) => match *s {
            Condition::Deadlock => true,
            Condition::Evaluation(_) => true,
            Condition::Until(a, b) => in_disjunctive_form(*a) && in_disjunctive_form(*b),
            _ => false,
        },
        Condition::Until(a, b) => in_disjunctive_form(*a) && in_disjunctive_form(*b),
        Condition::Next(s) => is_literal(*s),
        Condition::And(_, _) => false,
        Condition::Or(_, _) => false,
        Condition::Implies(_, _) => false,
        _ => true,
    }
}

/// Whether `c` is a conjunction of literals.
pub open spec fn is_conjunction(c: Condition) -> bool
    decreases c, 1nat,
{
    match c {
        Condition::And(a, b) => is_conjunction(*a) && is_conjunction(*b),
        _ => is_literal(c),
    }
}

/// Whether `c` is a disjunction of conjunctions of literals.
pub open spec fn in_disjunctive_form(c: Condition) -> bool
    decreases c, 2nat,
{
    match c {
        Condition::Or(a, b) => in_disjunctive_form(*a) && in_disjunctive_form(*b),
        _ => is_conjunction(c),
    }
}

/// The conditions that one rewriting step of `c` rewrites further all weigh at most `k`.
spec fn step_fits(c: Condition, k: nat) -> bool {
    match c {
        Condition::Not(s) => match *s {
            Condition::Not(c1) => weight(*c1) <= k,
            Condition::And(c1, c2) => weight(Condition::Not(c1)) <= k && weight(Condition::Not(c2)) <= k,
            Condition::Or(c1, c2) => weight(
                Condition::And(Box::new(Condition::Not(c1)), Box::new(Condition::Not(c2))),
            ) <= k,
            Condition::Implies(c1, c2) => weight(Condition::And(c1, Box::new(Condition::Not(c2)))) <= k,
            Condition::Next(x) => weight(Condition::Next(Box::new(Condition::Not(x)))) <= k,
            Condition::Until(a, b) => weight(*a) <= k && weight(*b) <= k,
            _ => true,
        },
        Condition::And(c1, c2) => weight(*c1) <= k && weight(*c2) <= k,
        Condition::Or(c1, c2) => weight(*c1) <= k && weight(*c2) <= k,
        Condition::Until(c1, c2) => weight(*c1) <= k && weight(*c2) <= k,
        Condition::Implies(c1, c2) => weight(Condition::Not(c1)) <= k && weight(*c2) <= k,
        Condition::Next(s) => weight(*s) <= k,
        _ => true,
    }
}

/// The conjunctions that distributing the normal forms `r1` and `r2` of two parts of a
/// conjunction rewrites further all weigh at most `k`.
spec fn distribution_fits(r1: Condition, r2: Condition, k: nat) -> bool {
    match r1 {
        Condition::Or(a, b) => match r2 {
            Condition::Or(x, y) => weight(Condition::And(a, x)) <= k && weight(Condition::And(a, y)) <= k
                && weight(Condition::And(b, x)) <= k && weight(Condition::And(b, y)) <= k,
            _ => weight(Condition::And(a, Box::new(r2))) <= k && weight(Condition::And(b, Box::new(r2)))
                <= k,
        },
        _ => match r2 {
            Condition::Or(x, y) => weight(Condition::And(x, Box::new(r1))) <= k && weight(
                Condition::And(y, Box::new(r1)),
            ) <= k,
            _ => true,
        },
    }
}

/// The `Next` conditions that distributing `Next` over the normal form `t` of its part
/// rewrites further all weigh at most `k`.
spec fn next_distribution_fits(t: Condition, k: nat) -> bool {
    match t {
        Condition::Or(a, b) => weight(Condition::Next(a)) <= k && weight(Condition::Next(b)) <= k,
        Condition::And(a, b) => weight(Condition::Next(a)) <= k && weight(Condition::Next(b)) <= k,
        _ => true,
    }
}

proof fn lemma_step_fits(c: Condition, n: nat)
    requires
        weight(c) <= n,
    ensures
        n > 0,
        step_fits(c, (n - 1) as nat),
{
    lemma_weight_least(c);
    match c {
        Condition::Not(s) => {
            let w = weight(*s);
            lemma_weight_least(*s);
            match *s {
                Condition::Not(c1) => {
                    lemma_pow2_exceeds(weight(*c1));
                    lemma_pow2_exceeds(pow2(weight(*c1)));
                },
                Condition::And(c1, c2) => {
                    let w1 = weight(*c1);
                    let w2 = weight(*c2);
                    lemma_weight_least(*c1);
                    lemma_weight_least(*c2);
                    lemma_mul_grows(w1 as int, w2 as int);
                    lemma_pow2_strictly_increases(w1, w1 * w2);
                    lemma_pow2_strictly_increases(w2, w1 * w2);
                },
                Condition::Or(c1, c2) => {
                    let w1 = weight(*c1);
                    let w2 = weight(*c2);
                    assert(weight(Condition::Not(c1)) == pow2(w1));
                    assert(weight(Condition::Not(c2)) == pow2(w2));
                    lemma_pow2_adds(w1, w2);
                    lemma_pow2_strictly_increases(w1 + w2, w1 + w2 + 1);
                },
                Condition::Implies(c1, c2) => {
                    let w1 = weight(*c1);
                    let w2 = weight(*c2);
                    assert(weight(Condition::Not(c2)) == pow2(w2));
                    lemma_pow2_exceeds(w1);
                    lemma_pow2_exceeds(w2);
                    lemma_mul_strict(w1 as int, pow2(w2) as int, pow2(w1) as int, pow2(w2) as int);
                    lemma_pow2_adds(w1, w2);
                    lemma_pow2_strictly_increases(w1 + w2, pow2(w1) + w2 + 1);
                },
                Condition::Next(x0) => {
                    let w0 = weight(*x0);
                    lemma_weight_least(*x0);
                    assert(weight(Condition::Not(x0)) == pow2(w0));
                    lemma_pow2_adds(w0, w0);
                    assert(w0 + w0 < w0 * w0) by (nonlinear_arith)
                        requires
                            w0 >= 3,
                    ;
                    lemma_pow2_strictly_increases(w0 + w0, w0 * w0);
                },
                Condition::Until(a, b) => {
                    lemma_pow2_exceeds(weight(*a) + weight(*b) + 1);
                },
                _ => {},
            }
        },
        Condition::And(c1, c2) => {
            lemma_weight_least(*c1);
            lemma_weight_least(*c2);
            lemma_mul_grows(weight(*c1) as int, weight(*c2) as int);
        },
        Condition::Next(s) => {
            lemma_weight_least(*s);
            lemma_mul_grows(weight(*s) as int, weight(*s) as int);
        },
        Condition::Implies(c1, c2) => {
            lemma_weight_least(*c2);
        },
        Condition::Or(c1, c2) => {
            lemma_weight_least(*c1);
            lemma_weight_least(*c2);
        },
        Condition::Until(c1, c2) => {
            lemma_weight_least(*c1);
            lemma_weight_least(*c2);
        },
        _ => {},
    }
}

proof fn lemma_distribution_fits(c1: Condition, c2: Condition, r1: Condition, r2: Condition, n: nat)
    requires
        weight(c1) * weight(c2) <= n,
        weight(r1) <= weight(c1),
        weight(r2) <= weight(c2),
    ensures
        distribution_fits(r1, r2, (n - 1) as nat),
{
    let w1 = weight(c1);
    let w2 = weight(c2);
    lemma_weight_least(r1);
    lemma_weight_least(r2);
    lemma_weight_least(c1);
    lemma_weight_least(c2);
    lemma_mul_grows(w1 as int, w2 as int);
    match r1 {
        Condition::Or(a, b) => {
            lemma_weight_least(*a);
            lemma_weight_least(*b);
            match r2 {
                Condition::Or(x, y) => {
                    lemma_weight_least(*x);
                    lemma_weight_least(*y);
                    lemma_mul_strict(weight(*a) as int, weight(*x) as int, w1 as int, w2 as int);
                    lemma_mul_strict(weight(*a) as int, weight(*y) as int, w1 as int, w2 as int);
                    lemma_mul_strict(weight(*b) as int, weight(*x) as int, w1 as int, w2 as int);
                    lemma_mul_strict(weight(*b) as int, weight(*y) as int, w1 as int, w2 as int);
                },
                _ => {
                    lemma_mul_strict(weight(*a) as int, weight(r2) as int, w1 as int, w2 as int);
                    lemma_mul_strict(weight(*b) as int, weight(r2) as int, w1 as int, w2 as int);
                },
            }
        },
        _ => match r2 {
            Condition::Or(x, y) => {
                lemma_weight_least(*x);
                lemma_weight_least(*y);
                lemma_mul_strict(weight(*x) as int, weight(r1) as int, w2 as int, w1 as int);
                lemma_mul_strict(weight(*y) as int, weight(r1) as int, w2 as int, w1 as int);
            },
            _ => {},
        },
    }
}

proof fn lemma_next_distribution_fits(s: Condition, t: Condition, n: nat)
    requires
        weight(s) * weight(s) <= n,
        weight(t) <= weight(s),
    ensures
        next_distribution_fits(t, (n - 1) as nat),
{
    let ws = weight(s);
    lemma_weight_least(s);
    lemma_weight_least(t);
    lemma_mul_grows(ws as int, ws as int);
    match t {
        Condition::Or(a, b) => {
            lemma_weight_least(*a);
            lemma_weight_least(*b);
            lemma_mul_strict(weight(*a) as int, weight(*a) as int, ws as int, ws as int);
            lemma_mul_strict(weight(*b) as int, weight(*b) as int, ws as int, ws as int);
        },
        Condition::And(a, b) => {
            lemma_weight_least(*a);
            lemma_weight_least(*b);
            lemma_mul_grows(weight(*a) as int, weight(*b) as int);
            lemma_mul_strict(weight(*a) as int, weight(*a) as int, ws as int, ws as int);
            lemma_mul_strict(weight(*b) as int, weight(*b) as int, ws as int, ws as int);
        },
        _ => {},
    }
}

proof fn lemma_shape_facts(c: Condition)
    ensures
        is_conjunction(c) ==> !(c is Or) && !(c is Implies),
        is_literal(c) ==> !(c is And) && !(c is Or),
        !(c is And) ==> (is_conjunction(c) == is_literal(c)),
        !(c is Or) ==> (in_disjunctive_form(c) == is_conjunction(c)),
        c is Next ==> (is_literal(c) == is_literal(*c->Next_0)),
        c is And ==> (is_conjunction(c) == (is_conjunction(*c->And_0) && is_conjunction(*c->And_1))),
{
    assert(is_literal(c) == is_literal(c));
    assert(is_conjunction(c) == is_conjunction(c));
    match c {
        Condition::Or(a, b) => {
            assert(is_conjunction(c) == is_literal(c));
            assert(!is_literal(c));
        },
        Condition::And(a, b) => {
            assert(!is_literal(c));
        },
        Condition::Next(a) => {
            assert(is_conjunction(c) == is_literal(c));
            assert(in_disjunctive_form(c) == is_conjunction(c));
        },
        Condition::Not(a) => {
            assert(is_conjunction(c) == is_literal(c));
            assert(in_disjunctive_form(c) == is_conjunction(c));
        },
        Condition::Until(a, b) => {
            assert(is_conjunction(c) == is_literal(c));
            assert(in_disjunctive_form(c) == is_conjunction(c));
        },
        Condition::Implies(a, b) => {
            assert(is_conjunction(c) == is_literal(c));
            assert(!is_literal(c));
            assert(in_disjunctive_form(c) == is_conjunction(c));
        },
        _ => {
            assert(is_conjunction(c) == is_literal(c));
            assert(in_disjunctive_form(c) == is_conjunction(c));
        },
    }
}

proof fn lemma_conj_conjunction(x: Condition, y: Condition)
    requires
        is_conjunction(x),
        is_conjunction(y),
    ensures
        is_conjunction(conj(x, y)),
{
}

proof fn lemma_disj_normal(x: Condition, y: Condition)
    requires
        in_disjunctive_form(x),
        in_disjunctive_form(y),
    ensures
        in_disjunctive_form(disj(x, y)),
{
}

/// Rewriting to a depth at least the weight of `c` gives a disjunctive normal form.
proof fn lemma_dnf_within_normal(c: Condition, n: nat)
    requires
        weight(c) <= n,
    ensures
        in_disjunctive_form(dnf_within(c, n)),
    decreases n, 2nat,
{
    lemma_step_fits(c, n);
    lemma_shape_facts(c);
    lemma_shape_facts(dnf_within(c, n));
    let k = (n - 1) as nat;
    match c {
        Condition::Not(s) => match *s {
            Condition::Not(c1) => lemma_dnf_within_normal(*c1, k),
            Condition::And(c1, c2) => {
                lemma_dnf_within_normal(Condition::Not(c1), k);
                lemma_dnf_within_normal(Condition::Not(c2), k);
            },
            Condition::Or(c1, c2) => {
                lemma_dnf_within_normal(
                    Condition::And(Box::new(Condition::Not(c1)), Box::new(Condition::Not(c2))),
                    k,
                );
            },
            Condition::Implies(c1, c2) => {
                lemma_dnf_within_normal(Condition::And(c1, Box::new(Condition::Not(c2))), k);
            },
            Condition::Next(x) => {
                lemma_dnf_within_normal(Condition::Next(Box::new(Condition::Not(x))), k);
            },
            Condition::Until(a, b) => {
                lemma_dnf_within_normal(*a, k);
                lemma_dnf_within_normal(*b, k);
                let u = Condition::Until(Box::new(dnf_within(*a, k)), Box::new(dnf_within(*b, k)));
                assert(dnf_within(c, n) == Condition::Not(Box::new(u)));
                assert(is_literal(Condition::Not(Box::new(u))));
                lemma_shape_facts(Condition::Not(Box::new(u)));
            },
            _ => {
                assert(is_literal(distributed(c)));
                lemma_shape_facts(distributed(c));
            },
        },
        Condition::Or(c1, c2) => {
            lemma_dnf_within_normal(*c1, k);
            lemma_dnf_within_normal(*c2, k);
        },
        Condition::Implies(c1, c2) => {
            lemma_dnf_within_normal(Condition::Not(c1), k);
            lemma_dnf_within_normal(*c2, k);
        },
        Condition::Until(c1, c2) => {
            lemma_dnf_within_normal(*c1, k);
            lemma_dnf_within_normal(*c2, k);
            assert(is_literal(dnf_within(c, n)));
        },
        Condition::And(c1, c2) => {
            lemma_dnf_within_normal(*c1, k);
            lemma_dnf_within_normal(*c2, k);
            lemma_settled(*c1, k, k);
            lemma_settled(*c2, k, k);
            let r1 = dnf_within(*c1, k);
            let r2 = dnf_within(*c2, k);
            lemma_distribution_fits(*c1, *c2, r1, r2, n);
            match r1 {
                Condition::Or(a, b) => match r2 {
                    Condition::Or(x, y) => {
                        lemma_dnf_within_normal(Condition::And(a, x), k);
                        lemma_dnf_within_normal(Condition::And(a, y), k);
                        lemma_dnf_within_normal(Condition::And(b, x), k);
                        lemma_dnf_within_normal(Condition::And(b, y), k);
                        let o1 = Condition::Or(
                            Box::new(dnf_within(Condition::And(a, x), k)),
                            Box::new(dnf_within(Condition::And(a, y), k)),
                        );
                        let o2 = Condition::Or(
                            Box::new(dnf_within(Condition::And(b, x), k)),
                            Box::new(dnf_within(Condition::And(b, y), k)),
                        );
                        assert(in_disjunctive_form(o1));
                        assert(in_disjunctive_form(o2));
                        assert(dnf_within(c, n) == Condition::Or(Box::new(o1), Box::new(o2)));
                    },
                    _ => {
                        lemma_dnf_within_normal(Condition::And(a, Box::new(r2)), k);
                        lemma_dnf_within_normal(Condition::And(b, Box::new(r2)), k);
                    },
                },
                _ => match r2 {
                    Condition::Or(x, y) => {
                        lemma_dnf_within_normal(Condition::And(x, Box::new(r1)), k);
                        lemma_dnf_within_normal(Condition::And(y, Box::new(r1)), k);
                    },
                    _ => {
                        lemma_shape_facts(r1);
                        lemma_shape_facts(r2);
                        lemma_conj_conjunction(r1, r2);
                    },
                },
            }
        },
        Condition::Next(s) => {
            lemma_dnf_within_normal(*s, k);
            lemma_settled(*s, k, k);
            let t = dnf_within(*s, k);
            lemma_next_distribution_fits(*s, t, n);
            match t {
                Condition::Or(a, b) => {
                    lemma_dnf_within_normal(Condition::Next(a), k);
                    lemma_dnf_within_normal(Condition::Next(b), k);
                    lemma_disj_normal(
                        dnf_within(Condition::Next(a), k),
                        dnf_within(Condition::Next(b), k),
                    );
                },
                Condition::And(a, b) => {
                    lemma_shape_facts(t);
                    lemma_next_normal(*a, k);
                    lemma_next_normal(*b, k);
                    lemma_conj_conjunction(
                        dnf_within(Condition::Next(a), k),
                        dnf_within(Condition::Next(b), k),
                    );
                },
                _ => {
                    lemma_shape_facts(t);
                    lemma_shape_facts(Condition::Next(Box::new(t)));
                },
            }
        },
        _ => {},
    }
}

/// Rewriting a conjunction of literals gives a conjunction of literals.
proof fn lemma_conjunction_normal(c: Condition, n: nat)
    requires
        weight(c) <= n,
        is_conjunction(c),
    ensures
        is_conjunction(dnf_within(c, n)),
    decreases n, 1nat,
{
    lemma_step_fits(c, n);
    lemma_shape_facts(c);
    let k = (n - 1) as nat;
    match c {
        Condition::And(c1, c2) => {
            lemma_conjunction_normal(*c1, k);
            lemma_conjunction_normal(*c2, k);
            lemma_shape_facts(dnf_within(*c1, k));
            lemma_shape_facts(dnf_within(*c2, k));
            assert(dnf_within(c, n) == conj(dnf_within(*c1, k), dnf_within(*c2, k)));
            lemma_conj_conjunction(dnf_within(*c1, k), dnf_within(*c2, k));
        },
        Condition::Not(s) => match *s {
            Condition::Until(a, b) => {
                lemma_dnf_within_normal(*a, k);
                lemma_dnf_within_normal(*b, k);
                let u = Condition::Until(Box::new(dnf_within(*a, k)), Box::new(dnf_within(*b, k)));
                assert(dnf_within(c, n) == Condition::Not(Box::new(u)));
                assert(is_literal(Condition::Not(Box::new(u))));
                lemma_shape_facts(Condition::Not(Box::new(u)));
            },
            _ => {
                lemma_shape_facts(c);
                assert(is_literal(distributed(c)));
                lemma_shape_facts(distributed(c));
            },
        },
        Condition::Until(a, b) => {
            lemma_dnf_within_normal(*a, k);
            lemma_dnf_within_normal(*b, k);
            let u = Condition::Until(Box::new(dnf_within(*a, k)), Box::new(dnf_within(*b, k)));
            assert(dnf_within(c, n) == u);
            assert(is_literal(u));
            lemma_shape_facts(u);
        },
        Condition::Next(s) => {
            lemma_shape_facts(c);
            lemma_shape_facts(*s);
            lemma_next_normal(*s, n);
        },
        _ => {},
    }
}

/// Rewriting `Next` of a conjunction of literals gives a conjunction of literals.
proof fn lemma_next_normal(a: Condition, n: nat)
    requires
        weight(Condition::Next(Box::new(a))) <= n,
        is_conjunction(a),
    ensures
        is_conjunction(dnf_within(Condition::Next(Box::new(a)), n)),
    decreases n, 0nat,
{
    let c = Condition::Next(Box::new(a));
    lemma_step_fits(c, n);
    let k = (n - 1) as nat;
    lemma_conjunction_normal(a, k);
    lemma_settled(a, k, k);
    let t = dnf_within(a, k);
    lemma_next_distribution_fits(a, t, n);
    lemma_shape_facts(t);
    lemma_shape_facts(Condition::Next(Box::new(t)));
    match t {
        Condition::And(p, q) => {
            lemma_shape_facts(t);
            lemma_next_normal(*p, k);
            lemma_next_normal(*q, k);
            lemma_conj_conjunction(
                dnf_within(Condition::Next(p), k),
                dnf_within(Condition::Next(q), k),
            );
        },
        _ => {},
    }
}

/// The disjunctive normal form of a condition is a disjunction of conjunctions of
/// literals.
pub proof fn lemma_disjunctive_normal_is_normal(c: Condition)
    ensures
        in_disjunctive_form(disjunctive_form(c)),
{
    lemma_dnf_within_normal(c, weight(c));
}

} // verus!
