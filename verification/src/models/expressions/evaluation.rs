use super::{
    compare, distributed, has_clock, holds, lemma_distribute_not_keeps_meaning, lemma_distributed_state_only,
    lemma_until_step, state_only, until_at, Condition, Expr, PropositionType,
};
use crate::models::model_clock::ModelClock;
use crate::verification::{status_and, status_not, status_or, Verifiable, VerificationStatus};
use std::ops::{BitAnd, BitOr, Not};
use vstd::arithmetic::power::pow;
use vstd::prelude::*;

verus! {

/// Powers of a base other than 0 grow in size with the exponent.
proof fn lemma_pow_grows(b: int, i: nat, j: nat)
    requires
        b != 0,
        i <= j,
    ensures
        abs(pow(b, i)) <= abs(pow(b, j)),
    decreases j,
{
    reveal(pow);
    if j > i {
        lemma_pow_grows(b, i, (j - 1) as nat);
        let p = pow(b, (j - 1) as nat);
        assert(abs(b * p) >= abs(p)) by (nonlinear_arith)
            requires
                b != 0,
        ;
    }
}

/// The size of an integer.
spec fn abs(x: int) -> int {
    if x < 0 {
        -x
    } else {
        x
    }
}

/// `base` raised to `exp`, where the power fits in an `i32`.
fn power(base: i32, exp: u32) -> (r: i32)
    requires
        i32::MIN <= pow(base as int, exp as nat) <= i32::MAX,
    ensures
        r == pow(base as int, exp as nat),
{
    proof {
        reveal(pow);
    }
    if base == 0 {
        proof {
            if exp > 0 {
                assert(pow(0, exp as nat) == 0 * pow(0, (exp - 1) as nat));
            }
        }
        return if exp == 0 {
            1
        } else {
            0
        };
    }
    let mut acc: i64 = 1;
    let mut e: u32 = 0;
    while e < exp
        invariant
            base != 0,
            e <= exp,
            acc == pow(base as int, e as nat),
            i32::MIN <= pow(base as int, exp as nat) <= i32::MAX,
        decreases exp - e,
    {
        proof {
            reveal(pow);
            lemma_pow_grows(base as int, e as nat, exp as nat);
            assert(pow(base as int, (e + 1) as nat) == base * pow(base as int, e as nat));
            let a = acc as int;
            let b = base as int;
            assert(-0x4000_0000_0000_0000 <= a * b <= 0x4000_0000_0000_0000) by (nonlinear_arith)
                requires
                    -0x8000_0000 <= a <= 0x8000_0000,
                    -0x8000_0000 <= b <= 0x8000_0000,
            ;
        }
        acc = acc * (base as i64);
        e = e + 1;
    }
    acc as i32
}

/// The remainder of `x` by `d`, of the sign of `x`, as Rust's `%` gives it.
pub open spec fn trunc_rem(x: int, d: int) -> int {
    let m = if d < 0 {
        -d
    } else {
        d
    };
    if x >= 0 {
        x % m
    } else {
        -((-x) % m)
    }
}

/// `checked_rem` gives the remainder of the sign of the dividend, which fits.
proof fn lemma_trunc_rem(x: i32, d: i32)
    requires
        d != 0,
        !(x == i32::MIN && d == -1),
    ensures
        x.checked_rem(d) == Some(trunc_rem(x as int, d as int) as i32),
        (trunc_rem(x as int, d as int) as i32) as int == trunc_rem(x as int, d as int),
{
    let xi = x as int;
    let di = d as int;
    let output = if xi == 0 {
        0
    } else if xi > 0 && di > 0 {
        xi % di
    } else if xi < 0 && di < 0 {
        ((xi * -1) % (di * -1)) * -1
    } else if xi < 0 {
        ((xi * -1) % di) * -1
    } else {
        xi % (di * -1)
    };
    if xi == 0 {
        assert(0int % (if di < 0 { -di } else { di }) == 0);
    } else if xi > 0 && di > 0 {
        assert(0 <= xi % di < di);
    } else if xi < 0 && di < 0 {
        assert(xi * -1 == -xi && di * -1 == -di);
        assert(0 <= (-xi) % (-di) < -di);
    } else if xi < 0 {
        assert(xi * -1 == -xi);
        assert(0 <= (-xi) % di < di);
    } else {
        assert(di * -1 == -di);
        assert(0 <= xi % (-di) < -di);
    }
    assert(output == trunc_rem(xi, di));
}

/// Whether `x` fits in an `i32`.
pub open spec fn fits_i32(x: int) -> bool {
    i32::MIN <= x <= i32::MAX
}

/// The value of an expression in a state.
pub open spec fn expr_value<S: Verifiable>(e: Expr, state: S) -> int
    decreases e,
{
    match e {
        Expr::Var(x) => state.var_value(x) as int,
        Expr::Constant(i) => i as int,
        Expr::Plus(a, b) => expr_value(*a, state) + expr_value(*b, state),
        Expr::Minus(a, b) => expr_value(*a, state) - expr_value(*b, state),
        Expr::Multiply(a, b) => expr_value(*a, state) * expr_value(*b, state),
        Expr::Negative(a) => -expr_value(*a, state),
        Expr::Modulo(a, b) => trunc_rem(expr_value(*a, state), expr_value(*b, state)),
        Expr::Pow(a, b) => pow(expr_value(*a, state), (expr_value(*b, state) as u32) as nat),
    }
}

/// Whether an expression can be computed in a state without overflow or division by zero:
/// its variables can be read, and each of its parts has a value that fits in an `i32`.
pub open spec fn expr_fits<S: Verifiable>(e: Expr, state: S) -> bool
    decreases e,
{
    &&& fits_i32(expr_value(e, state))
    &&& match e {
        Expr::Var(x) => state.readable(x),
        Expr::Constant(_) => true,
        Expr::Plus(a, b) => expr_fits(*a, state) && expr_fits(*b, state),
        Expr::Minus(a, b) => expr_fits(*a, state) && expr_fits(*b, state),
        Expr::Multiply(a, b) => expr_fits(*a, state) && expr_fits(*b, state),
        Expr::Negative(a) => expr_fits(*a, state),
        Expr::Modulo(a, b) => expr_fits(*a, state) && expr_fits(*b, state) && expr_value(*b, state) != 0
            && !(expr_value(*a, state) == i32::MIN && expr_value(*b, state) == -1),
        Expr::Pow(a, b) => expr_fits(*a, state) && expr_fits(*b, state),
    }
}

/// Whether every expression of a condition can be computed in a state.
pub open spec fn condition_fits<S: Verifiable>(c: Condition, state: S) -> bool
    decreases c,
{
    match c {
        Condition::Evaluation(e) => expr_fits(e, state),
        Condition::Proposition(_, a, b) => expr_fits(a, state) && expr_fits(b, state),
        Condition::And(a, b) => condition_fits(*a, state) && condition_fits(*b, state),
        Condition::Or(a, b) => condition_fits(*a, state) && condition_fits(*b, state),
        Condition::Implies(a, b) => condition_fits(*a, state) && condition_fits(*b, state),
        Condition::Until(a, b) => condition_fits(*a, state) && condition_fits(*b, state),
        Condition::Not(a) => condition_fits(*a, state),
        _ => true,
    }
}

/// The status of a test, and no condition left.
pub open spec fn decided(b: bool) -> (VerificationStatus, Option<Condition>) {
    if b {
        (VerificationStatus::Verified, None)
    } else {
        (VerificationStatus::Unverified, None)
    }
}

/// The conditions left by both sides of a conjunction, joined when both left one.
pub open spec fn rest_and(a: Option<Condition>, b: Option<Condition>) -> Option<Condition> {
    match (a, b) {
        (None, None) => None,
        (Some(c), None) => Some(c),
        (None, Some(c)) => Some(c),
        (Some(x), Some(y)) => Some(Condition::And(Box::new(x), Box::new(y))),
    }
}

/// The conditions left by both sides of a disjunction, joined when both left one.
pub open spec fn rest_or(a: Option<Condition>, b: Option<Condition>) -> Option<Condition> {
    match (a, b) {
        (None, None) => None,
        (Some(c), None) => Some(c),
        (None, Some(c)) => Some(c),
        (Some(x), Some(y)) => Some(Condition::Or(Box::new(x), Box::new(y))),
    }
}

/// What checking a condition on a state gives: whether it holds there, and, when that
/// depends on the states that follow, the condition left for the next state.
pub open spec fn progress<S: Verifiable>(c: Condition, state: S) -> (VerificationStatus, Option<Condition>)
    decreases c,
{
    match c {
        Condition::True => (VerificationStatus::Verified, None),
        Condition::False => (VerificationStatus::Unverified, None),
        Condition::Deadlock => decided(state.deadlocked()),
        Condition::Evaluation(e) => decided(expr_value(e, state) > 0),
        Condition::Proposition(op, a, b) => decided(compare(op, expr_value(a, state), expr_value(b, state))),
        Condition::ClockComparison(op, k, v) => decided(state.clock_compares(op, k, v)),
        Condition::And(a, b) => {
            let (s1, r1) = progress(*a, state);
            let (s2, r2) = progress(*b, state);
            let s = status_and(s1, s2);
            if s is Maybe {
                (s, rest_and(r1, r2))
            } else {
                (s, None)
            }
        },
        Condition::Or(a, b) => {
            let (s1, r1) = progress(*a, state);
            let (s2, r2) = progress(*b, state);
            let s = status_or(s1, s2);
            if s is Maybe {
                (s, rest_or(r1, r2))
            } else {
                (s, None)
            }
        },
        Condition::Not(a) => {
            let (s1, r1) = progress(*a, state);
            let s = status_not(s1);
            if s is Maybe {
                (s, Some(Condition::Not(Box::new(r1.unwrap()))))
            } else {
                (s, None)
            }
        },
        Condition::Implies(a, b) => {
            let (s1, r1) = progress(*a, state);
            let (s2, r2) = progress(*b, state);
            let s = status_or(status_not(s1), s2);
            if s is Maybe {
                (
                    s,
                    match (r1, r2) {
                        (None, None) => None,
                        (Some(x), None) => Some(Condition::Not(Box::new(x))),
                        (None, Some(y)) => Some(y),
                        (Some(x), Some(y)) => Some(
                            Condition::Or(Box::new(Condition::Not(Box::new(x))), Box::new(y)),
                        ),
                    },
                )
            } else {
                (s, None)
            }
        },
        Condition::Next(a) => (VerificationStatus::Maybe, Some(*a)),
        Condition::Until(a, b) => {
            let (s1, r1) = progress(*a, state);
            let (s2, r2) = progress(*b, state);
            let me = Condition::Until(a, b);
            match (s1, s2) {
                (_, VerificationStatus::Verified) => (VerificationStatus::Verified, None),
                (VerificationStatus::Unverified, VerificationStatus::Unverified) => (VerificationStatus::Unverified, None),
                (VerificationStatus::Verified, VerificationStatus::Unverified) => (VerificationStatus::Maybe, Some(me)),
                (VerificationStatus::Maybe, VerificationStatus::Unverified) => (
                    VerificationStatus::Maybe,
                    Some(Condition::And(Box::new(r1.unwrap()), Box::new(me))),
                ),
                (VerificationStatus::Maybe, VerificationStatus::Maybe) => (
                    VerificationStatus::Maybe,
                    Some(
                        Condition::Or(
                            Box::new(r2.unwrap()),
                            Box::new(Condition::And(Box::new(r1.unwrap()), Box::new(me))),
                        ),
                    ),
                ),
                (VerificationStatus::Unverified, VerificationStatus::Maybe) => (VerificationStatus::Maybe, r2),
                (VerificationStatus::Verified, VerificationStatus::Maybe) => (
                    VerificationStatus::Maybe,
                    Some(Condition::Or(Box::new(r2.unwrap()), Box::new(me))),
                ),
            }
        },
    }
}

/// An open outcome always leaves a condition for the next state, and a decided one never
/// does.
pub proof fn lemma_progress_leaves_rest<S: Verifiable>(c: Condition, state: S)
    ensures
        (progress(c, state).0 is Maybe) == (progress(c, state).1 is Some),
    decreases c,
{
    match c {
        Condition::And(a, b) => {
            lemma_progress_leaves_rest(*a, state);
            lemma_progress_leaves_rest(*b, state);
        },
        Condition::Or(a, b) => {
            lemma_progress_leaves_rest(*a, state);
            lemma_progress_leaves_rest(*b, state);
        },
        Condition::Implies(a, b) => {
            lemma_progress_leaves_rest(*a, state);
            lemma_progress_leaves_rest(*b, state);
        },
        Condition::Until(a, b) => {
            lemma_progress_leaves_rest(*a, state);
            lemma_progress_leaves_rest(*b, state);
        },
        Condition::Not(a) => {
            lemma_progress_leaves_rest(*a, state);
        },
        _ => {},
    }
}

/// On a condition about the current state alone, with no clock, checking decides: it holds
/// exactly when the condition holds at a position of a run whose values there are those of
/// the state.
pub proof fn lemma_progress_decides_state_conditions<S: Verifiable>(
    c: Condition,
    state: S,
    dead: spec_fn(nat) -> bool,
    value: spec_fn(nat, Expr) -> int,
    clock: spec_fn(nat, ModelClock) -> int,
    i: nat,
)
    requires
        state_only(c),
        !has_clock(c),
        dead(i) == state.deadlocked(),
        forall|e: Expr| #[trigger] value(i, e) == expr_value(e, state),
    ensures
        progress(c, state) == decided(holds(c, dead, value, clock, i)),
    decreases c,
{
    match c {
        Condition::And(a, b) => {
            lemma_progress_decides_state_conditions(*a, state, dead, value, clock, i);
            lemma_progress_decides_state_conditions(*b, state, dead, value, clock, i);
        },
        Condition::Or(a, b) => {
            lemma_progress_decides_state_conditions(*a, state, dead, value, clock, i);
            lemma_progress_decides_state_conditions(*b, state, dead, value, clock, i);
        },
        Condition::Implies(a, b) => {
            lemma_progress_decides_state_conditions(*a, state, dead, value, clock, i);
            lemma_progress_decides_state_conditions(*b, state, dead, value, clock, i);
        },
        Condition::Not(a) => {
            lemma_progress_decides_state_conditions(*a, state, dead, value, clock, i);
        },
        Condition::Evaluation(e) => {
            assert(value(i, e) == expr_value(e, state));
        },
        Condition::Proposition(op, a, b) => {
            assert(value(i, a) == expr_value(a, state));
            assert(value(i, b) == expr_value(b, state));
        },
        _ => {},
    }
}

/// Whether `state` is what a run is at position `i`: same deadlock flag, same values of
/// the expressions, and clocks that compare as the run's clocks do.
pub open spec fn state_at<S: Verifiable>(
    state: S,
    dead: spec_fn(nat) -> bool,
    value: spec_fn(nat, Expr) -> int,
    clock: spec_fn(nat, ModelClock) -> int,
    i: nat,
) -> bool {
    &&& dead(i) == state.deadlocked()
    &&& forall|e: Expr| #[trigger] value(i, e) == expr_value(e, state)
    &&& forall|op: PropositionType, k: ModelClock, v: i32|
        #[trigger] state.clock_compares(op, k, v) == compare(op, clock(i, k), v as int)
}

/// Checking a condition on the state at position `i` of a run tells whether it holds there:
/// when it is decided, it holds exactly when the outcome is `Verified`; when it is open, it
/// holds exactly when the condition left holds at the next position.
pub proof fn lemma_progress_meaning<S: Verifiable>(
    c: Condition,
    state: S,
    dead: spec_fn(nat) -> bool,
    value: spec_fn(nat, Expr) -> int,
    clock: spec_fn(nat, ModelClock) -> int,
    i: nat,
)
    requires
        state_at(state, dead, value, clock, i),
    ensures
        progress(c, state).0 is Verified ==> holds(c, dead, value, clock, i),
        progress(c, state).0 is Unverified ==> !holds(c, dead, value, clock, i),
        progress(c, state).0 is Maybe ==> holds(c, dead, value, clock, i) == holds(
            progress(c, state).1.unwrap(),
            dead,
            value,
            clock,
            i + 1,
        ),
    decreases c,
{
    lemma_progress_leaves_rest(c, state);
    match c {
        Condition::Evaluation(e) => {
            assert(value(i, e) == expr_value(e, state));
        },
        Condition::Proposition(op, a, b) => {
            assert(value(i, a) == expr_value(a, state));
            assert(value(i, b) == expr_value(b, state));
        },
        Condition::ClockComparison(op, k, v) => {
            assert(state.clock_compares(op, k, v) == compare(op, clock(i, k), v as int));
        },
        Condition::And(a, b) => {
            lemma_progress_meaning(*a, state, dead, value, clock, i);
            lemma_progress_meaning(*b, state, dead, value, clock, i);
            lemma_progress_leaves_rest(*a, state);
            lemma_progress_leaves_rest(*b, state);
        },
        Condition::Or(a, b) => {
            lemma_progress_meaning(*a, state, dead, value, clock, i);
            lemma_progress_meaning(*b, state, dead, value, clock, i);
            lemma_progress_leaves_rest(*a, state);
            lemma_progress_leaves_rest(*b, state);
        },
        Condition::Implies(a, b) => {
            lemma_progress_meaning(*a, state, dead, value, clock, i);
            lemma_progress_meaning(*b, state, dead, value, clock, i);
            lemma_progress_leaves_rest(*a, state);
            lemma_progress_leaves_rest(*b, state);
            let (s1, r1) = progress(*a, state);
            let (s2, r2) = progress(*b, state);
            if progress(c, state).0 is Maybe {
                if r1 is Some && r2 is Some {
                    let n = Condition::Not(Box::new(r1.unwrap()));
                    assert(holds(n, dead, value, clock, i + 1) == !holds(r1.unwrap(), dead, value, clock, i + 1));
                } else if r1 is Some {
                    assert(s2 is Unverified);
                    let n = Condition::Not(Box::new(r1.unwrap()));
                    assert(holds(n, dead, value, clock, i + 1) == !holds(r1.unwrap(), dead, value, clock, i + 1));
                } else {
                    assert(s1 is Verified);
                }
            }
        },
        Condition::Not(a) => {
            lemma_progress_meaning(*a, state, dead, value, clock, i);
            lemma_progress_leaves_rest(*a, state);
        },
        Condition::Until(a, b) => {
            lemma_progress_meaning(*a, state, dead, value, clock, i);
            lemma_progress_meaning(*b, state, dead, value, clock, i);
            lemma_progress_leaves_rest(*a, state);
            lemma_progress_leaves_rest(*b, state);
            lemma_until_step(*a, *b, dead, value, clock, i);
            assert(holds(c, dead, value, clock, i) == until_at(*a, *b, dead, value, clock, i));
            assert(holds(c, dead, value, clock, i + 1) == until_at(*a, *b, dead, value, clock, i + 1));
            let (s1, r1) = progress(*a, state);
            let (s2, r2) = progress(*b, state);
            let hc = holds(c, dead, value, clock, i + 1);
            match (s1, s2) {
                (VerificationStatus::Maybe, VerificationStatus::Unverified) => {
                    let k = Condition::And(Box::new(r1.unwrap()), Box::new(c));
                    assert(holds(k, dead, value, clock, i + 1) == (holds(r1.unwrap(), dead, value, clock, i + 1) && hc));
                },
                (VerificationStatus::Maybe, VerificationStatus::Maybe) => {
                    let k = Condition::And(Box::new(r1.unwrap()), Box::new(c));
                    let o = Condition::Or(Box::new(r2.unwrap()), Box::new(k));
                    assert(holds(k, dead, value, clock, i + 1) == (holds(r1.unwrap(), dead, value, clock, i + 1) && hc));
                    assert(holds(o, dead, value, clock, i + 1) == (holds(r2.unwrap(), dead, value, clock, i + 1) || holds(k, dead, value, clock, i + 1)));
                },
                (VerificationStatus::Verified, VerificationStatus::Maybe) => {
                    let o = Condition::Or(Box::new(r2.unwrap()), Box::new(c));
                    assert(holds(o, dead, value, clock, i + 1) == (holds(r2.unwrap(), dead, value, clock, i + 1) || hc));
                },
                _ => {},
            }
        },
        _ => {},
    }
}

impl Expr {
    /// The value of the expression in `state`.
    pub fn evaluate<S: Verifiable>(&self, state: &S) -> (r: i32)
        requires
            expr_fits(*self, *state),
        ensures
            r == expr_value(*self, *state),
        decreases self,
    {
        match self {
            Expr::Constant(i) => *i,
            Expr::Var(x) => state.evaluate_var(x),
            Expr::Plus(a, b) => a.evaluate(state) + b.evaluate(state),
            Expr::Minus(a, b) => a.evaluate(state) - b.evaluate(state),
            Expr::Multiply(a, b) => a.evaluate(state) * b.evaluate(state),
            Expr::Negative(a) => -a.evaluate(state),
            Expr::Modulo(a, b) => {
                let x = a.evaluate(state);
                let d = b.evaluate(state);
                proof {
                    lemma_trunc_rem(x, d);
                }
                match x.checked_rem(d) {
                    Some(r) => r,
                    None => 0,
                }
            },
            Expr::Pow(a, b) => {
                let x = a.evaluate(state);
                let e = b.evaluate(state);
                power(x, #[verifier::truncate] (e as u32))
            },
        }
    }
}

impl Condition {
    /// Checks the condition on `state`: whether it holds there, and, when that depends on
    /// the states that follow, the condition left for the next state.
    pub fn evaluate<S: Verifiable>(&self, state: &S) -> (r: (VerificationStatus, Option<Condition>))
        requires
            condition_fits(*self, *state),
        ensures
            r == progress(*self, *state),
        decreases self,
    {
        proof {
            lemma_progress_leaves_rest(*self, *state);
        }
        match self {
            Condition::True => (VerificationStatus::Verified, None),
            Condition::False => (VerificationStatus::Unverified, None),
            Condition::Deadlock => {
                if state.is_deadlocked() {
                    (VerificationStatus::Verified, None)
                } else {
                    (VerificationStatus::Unverified, None)
                }
            },
            Condition::Evaluation(e) => {
                if e.evaluate(state) > 0 {
                    (VerificationStatus::Verified, None)
                } else {
                    (VerificationStatus::Unverified, None)
                }
            },
            Condition::Proposition(t, e1, e2) => {
                let res1 = e1.evaluate(state);
                let res2 = e2.evaluate(state);
                let prop_res = match t {
                    PropositionType::EQ => res1 == res2,
                    PropositionType::NE => res1 != res2,
                    PropositionType::LE => res1 <= res2,
                    PropositionType::GE => res1 >= res2,
                    PropositionType::LS => res1 < res2,
                    PropositionType::GS => res1 > res2,
                };
                if prop_res {
                    (VerificationStatus::Verified, None)
                } else {
                    (VerificationStatus::Unverified, None)
                }
            },
            Condition::ClockComparison(prop_type, clock, value) => {
                if state.compare_clock(*prop_type, clock, *value) {
                    (VerificationStatus::Verified, None)
                } else {
                    (VerificationStatus::Unverified, None)
                }
            },
            Condition::And(c1, c2) => {
                let res1 = c1.evaluate(state);
                let res2 = c2.evaluate(state);
                let status = BitAnd::bitand(res1.0, res2.0);
                match status {
                    VerificationStatus::Maybe => (
                        VerificationStatus::Maybe,
                        match (res1.1, res2.1) {
                            (None, None) => None,
                            (Some(c), None) => Some(c),
                            (None, Some(c)) => Some(c),
                            (Some(sub_c1), Some(sub_c2)) => Some(Condition::And(Box::new(sub_c1), Box::new(sub_c2))),
                        },
                    ),
                    _ => (status, None),
                }
            },
            Condition::Or(c1, c2) => {
                let res1 = c1.evaluate(state);
                let res2 = c2.evaluate(state);
                let status = BitOr::bitor(res1.0, res2.0);
                match status {
                    VerificationStatus::Maybe => (
                        VerificationStatus::Maybe,
                        match (res1.1, res2.1) {
                            (None, None) => None,
                            (Some(c), None) => Some(c),
                            (None, Some(c)) => Some(c),
                            (Some(sub_c1), Some(sub_c2)) => Some(Condition::Or(Box::new(sub_c1), Box::new(sub_c2))),
                        },
                    ),
                    _ => (status, None),
                }
            },
            Condition::Not(c) => {
                let (status, sub_c) = c.evaluate(state);
                proof {
                    lemma_progress_leaves_rest(**c, *state);
                }
                let status = Not::not(status);
                match status {
                    VerificationStatus::Maybe => (VerificationStatus::Maybe, Some(Condition::Not(Box::new(sub_c.unwrap())))),
                    _ => (status, None),
                }
            },
            Condition::Implies(c1, c2) => {
                let res1 = c1.evaluate(state);
                let res2 = c2.evaluate(state);
                let status = BitOr::bitor(Not::not(res1.0), res2.0);
                match status {
                    VerificationStatus::Maybe => (
                        VerificationStatus::Maybe,
                        match (res1.1, res2.1) {
                            (None, None) => None,
                            (Some(c), None) => Some(Condition::Not(Box::new(c))),
                            (None, Some(c)) => Some(c),
                            (Some(sub_c1), Some(sub_c2)) => Some(
                                Condition::Or(Box::new(Condition::Not(Box::new(sub_c1))), Box::new(sub_c2)),
                            ),
                        },
                    ),
                    _ => (status, None),
                }
            },
            Condition::Next(c1) => (VerificationStatus::Maybe, Some((**c1).clone())),
            Condition::Until(c1, c2) => {
                let res1 = c1.evaluate(state);
                let res2 = c2.evaluate(state);
                proof {
                    lemma_progress_leaves_rest(**c1, *state);
                    lemma_progress_leaves_rest(**c2, *state);
                }
                match (res1.0, res2.0) {
                    (_, VerificationStatus::Verified) => (VerificationStatus::Verified, None),
                    (VerificationStatus::Unverified, VerificationStatus::Unverified) => (VerificationStatus::Unverified, None),
                    (VerificationStatus::Verified, VerificationStatus::Unverified) => (VerificationStatus::Maybe, Some(self.clone())),
                    (VerificationStatus::Maybe, VerificationStatus::Unverified) => (
                        VerificationStatus::Maybe,
                        Some(Condition::And(Box::new(res1.1.unwrap()), Box::new(self.clone()))),
                    ),
                    (VerificationStatus::Maybe, VerificationStatus::Maybe) => (
                        VerificationStatus::Maybe,
                        Some(
                            Condition::Or(
                                Box::new(res2.1.unwrap()),
                                Box::new(Condition::And(Box::new(res1.1.unwrap()), Box::new(self.clone()))),
                            ),
                        ),
                    ),
                    (VerificationStatus::Unverified, VerificationStatus::Maybe) => (VerificationStatus::Maybe, Some(res2.1.unwrap())),
                    (VerificationStatus::Verified, VerificationStatus::Maybe) => (
                        VerificationStatus::Maybe,
                        Some(Condition::Or(Box::new(res2.1.unwrap()), Box::new(self.clone()))),
                    ),
                }
            },
        }
    }

    /// Whether the condition is found to hold on `state`.
    pub fn is_true<S: Verifiable>(&self, state: &S) -> (r: bool)
        requires
            condition_fits(*self, *state),
        ensures
            r == (progress(*self, *state).0 is Verified),
    {
        self.evaluate(state).0.good()
    }
}

/// A condition on the current state alone is always decided.
proof fn lemma_state_decided<S: Verifiable>(c: Condition, state: S)
    requires
        state_only(c),
    ensures
        !(progress(c, state).0 is Maybe),
    decreases c,
{
    match c {
        Condition::And(a, b) => {
            lemma_state_decided(*a, state);
            lemma_state_decided(*b, state);
        },
        Condition::Or(a, b) => {
            lemma_state_decided(*a, state);
            lemma_state_decided(*b, state);
        },
        Condition::Implies(a, b) => {
            lemma_state_decided(*a, state);
            lemma_state_decided(*b, state);
        },
        Condition::Not(a) => {
            lemma_state_decided(*a, state);
        },
        _ => {},
    }
}

/// Pushing the negations down does not change the outcome of checking a condition on the
/// current state alone, on a state that a run agrees with at some position.
pub proof fn lemma_distribute_not_keeps_status<S: Verifiable>(
    c: Condition,
    state: S,
    dead: spec_fn(nat) -> bool,
    value: spec_fn(nat, Expr) -> int,
    clock: spec_fn(nat, ModelClock) -> int,
    i: nat,
)
    requires
        state_only(c),
        state_at(state, dead, value, clock, i),
    ensures
        progress(distributed(c), state).0 == progress(c, state).0,
        !(progress(c, state).0 is Maybe),
{
    lemma_state_decided(c, state);
    lemma_distributed_state_only(c);
    lemma_state_decided(distributed(c), state);
    lemma_progress_meaning(c, state, dead, value, clock, i);
    lemma_progress_meaning(distributed(c), state, dead, value, clock, i);
    lemma_distribute_not_keeps_meaning(c, dead, value, clock);
    assert(holds(distributed(c), dead, value, clock, i) == holds(c, dead, value, clock, i));
}

} // verus!
