pub mod evaluation;
pub mod normal_form;
pub mod text;

use std::ops::{BitAnd, BitAndAssign, BitOr, BitOrAssign, Not};

use super::model_clock::ModelClock;
use super::model_context::{local_name, lookup, ModelContext};
use super::model_var::{MappingError, MappingResult, ModelVar};
use vstd::prelude::*;

verus! {

/// A comparison between two values.
#[derive(Debug, Clone, Copy, PartialEq, Eq, Structural)]
pub enum PropositionType {
    EQ,
    NE,
    LE,
    GE,
    LS,
    GS,
}

/// The comparison that holds exactly when `op` does not.
pub open spec fn negated_op(op: PropositionType) -> PropositionType {
    match op {
        PropositionType::EQ => PropositionType::NE,
        PropositionType::NE => PropositionType::EQ,
        PropositionType::LE => PropositionType::GS,
        PropositionType::GE => PropositionType::LS,
        PropositionType::LS => PropositionType::GE,
        PropositionType::GS => PropositionType::LE,
    }
}

/// Whether `a op b`.
pub open spec fn compare(op: PropositionType, a: int, b: int) -> bool {
    match op {
        PropositionType::EQ => a == b,
        PropositionType::NE => a != b,
        PropositionType::LE => a <= b,
        PropositionType::GE => a >= b,
        PropositionType::LS => a < b,
        PropositionType::GS => a > b,
    }
}

/// Negating a comparison twice gives it back, and the negated comparison holds exactly
/// where the comparison does not.
pub proof fn lemma_negated_op(op: PropositionType, a: int, b: int)
    ensures
        negated_op(negated_op(op)) == op,
        compare(negated_op(op), a, b) == !compare(op, a, b),
{
}

impl vstd::std_specs::ops::NotSpecImpl for PropositionType {
    open spec fn obeys_not_spec() -> bool {
        false
    }

    open spec fn not_req(self) -> bool {
        true
    }

    open spec fn not_spec(self) -> PropositionType {
        self
    }
}

impl Not for PropositionType {
    type Output = PropositionType;

    fn not(self) -> (r: PropositionType)
        ensures
            r == negated_op(self),
    {
        match self {
            PropositionType::EQ => PropositionType::NE,
            PropositionType::NE => PropositionType::EQ,
            PropositionType::LE => PropositionType::GS,
            PropositionType::GE => PropositionType::LS,
            PropositionType::LS => PropositionType::GE,
            PropositionType::GS => PropositionType::LE,
        }
    }
}

/// An integer expression over model variables.
#[derive(Debug, PartialEq, Eq)]
pub enum Expr {
    Var(ModelVar),
    Constant(i32),
    Plus(Box<Expr>, Box<Expr>),
    Minus(Box<Expr>, Box<Expr>),
    Multiply(Box<Expr>, Box<Expr>),
    Negative(Box<Expr>),
    Modulo(Box<Expr>, Box<Expr>),
    Pow(Box<Expr>, Box<Expr>),
}

impl Clone for Expr {
    fn clone(&self) -> (r: Self)
        ensures
            r == *self,
        decreases self,
    {
        match self {
            Expr::Var(x) => Expr::Var(x.clone()),
            Expr::Constant(i) => Expr::Constant(*i),
            Expr::Plus(a, b) => Expr::Plus(Box::new((**a).clone()), Box::new((**b).clone())),
            Expr::Minus(a, b) => Expr::Minus(Box::new((**a).clone()), Box::new((**b).clone())),
            Expr::Multiply(a, b) => Expr::Multiply(Box::new((**a).clone()), Box::new((**b).clone())),
            Expr::Negative(a) => Expr::Negative(Box::new((**a).clone())),
            Expr::Modulo(a, b) => Expr::Modulo(Box::new((**a).clone()), Box::new((**b).clone())),
            Expr::Pow(a, b) => Expr::Pow(Box::new((**a).clone()), Box::new((**b).clone())),
        }
    }
}


/// `e` with each variable replaced by the variable of the same name under `domains` in
/// `vars`; `None` when a variable has no such match.
pub open spec fn mapped_expr(e: Expr, vars: Seq<ModelVar>, domains: Seq<Seq<char>>) -> Option<Expr>
    decreases e,
{
    match e {
        Expr::Var(x) => match lookup(vars, local_name(domains, x.var_name())) {
            Some(v) => Some(Expr::Var(v)),
            None => None,
        },
        Expr::Constant(_) => Some(e),
        Expr::Plus(a, b) => match (mapped_expr(*a, vars, domains), mapped_expr(*b, vars, domains)) {
            (Some(x), Some(y)) => Some(Expr::Plus(Box::new(x), Box::new(y))),
            _ => None,
        },
        Expr::Minus(a, b) => match (mapped_expr(*a, vars, domains), mapped_expr(*b, vars, domains)) {
            (Some(x), Some(y)) => Some(Expr::Minus(Box::new(x), Box::new(y))),
            _ => None,
        },
        Expr::Multiply(a, b) => match (mapped_expr(*a, vars, domains), mapped_expr(*b, vars, domains)) {
            (Some(x), Some(y)) => Some(Expr::Multiply(Box::new(x), Box::new(y))),
            _ => None,
        },
        Expr::Modulo(a, b) => match (mapped_expr(*a, vars, domains), mapped_expr(*b, vars, domains)) {
            (Some(x), Some(y)) => Some(Expr::Modulo(Box::new(x), Box::new(y))),
            _ => None,
        },
        Expr::Pow(a, b) => match (mapped_expr(*a, vars, domains), mapped_expr(*b, vars, domains)) {
            (Some(x), Some(y)) => Some(Expr::Pow(Box::new(x), Box::new(y))),
            _ => None,
        },
        Expr::Negative(a) => match mapped_expr(*a, vars, domains) {
            Some(x) => Some(Expr::Negative(Box::new(x))),
            None => None,
        },
    }
}

impl Expr {
    /// This expression with its variables replaced by those of `ctx` of the same names;
    /// an error when a variable is not found.
    pub fn apply_to(&self, ctx: &ModelContext) -> (r: MappingResult<Expr>)
        requires
            ctx.wf(),
        ensures
            match mapped_expr(*self, ctx.variables(), ctx.domains()) {
                Some(e) => r == Ok::<Expr, MappingError>(e),
                None => r matches Err(e) && e.0@ == "Unable to map var to index !"@,
            },
        decreases self,
    {
        match self {
            Expr::Var(x) => match x.clone().apply_to(ctx) {
                Ok(v) => Ok(Expr::Var(v)),
                Err(e) => Err(e),
            },
            Expr::Plus(a, b) => match (a.apply_to(ctx), b.apply_to(ctx)) {
                (Ok(x), Ok(y)) => Ok(Expr::Plus(Box::new(x), Box::new(y))),
                (Err(e), _) => Err(e),
                (_, Err(e)) => Err(e),
            },
            Expr::Minus(a, b) => match (a.apply_to(ctx), b.apply_to(ctx)) {
                (Ok(x), Ok(y)) => Ok(Expr::Minus(Box::new(x), Box::new(y))),
                (Err(e), _) => Err(e),
                (_, Err(e)) => Err(e),
            },
            Expr::Multiply(a, b) => match (a.apply_to(ctx), b.apply_to(ctx)) {
                (Ok(x), Ok(y)) => Ok(Expr::Multiply(Box::new(x), Box::new(y))),
                (Err(e), _) => Err(e),
                (_, Err(e)) => Err(e),
            },
            Expr::Modulo(a, b) => match (a.apply_to(ctx), b.apply_to(ctx)) {
                (Ok(x), Ok(y)) => Ok(Expr::Modulo(Box::new(x), Box::new(y))),
                (Err(e), _) => Err(e),
                (_, Err(e)) => Err(e),
            },
            Expr::Pow(a, b) => match (a.apply_to(ctx), b.apply_to(ctx)) {
                (Ok(x), Ok(y)) => Ok(Expr::Pow(Box::new(x), Box::new(y))),
                (Err(e), _) => Err(e),
                (_, Err(e)) => Err(e),
            },
            Expr::Negative(a) => match a.apply_to(ctx) {
                Ok(x) => Ok(Expr::Negative(Box::new(x))),
                Err(e) => Err(e),
            },
            Expr::Constant(_) => Ok(self.clone()),
        }
    }
}

/// A condition on the states of a model, possibly temporal.
#[derive(Debug, PartialEq, Eq)]
pub enum Condition {
    True,
    False,
    Deadlock,
    Evaluation(Expr),
    ClockComparison(PropositionType, ModelClock, i32),
    Proposition(PropositionType, Expr, Expr),
    And(Box<Condition>, Box<Condition>),
    Or(Box<Condition>, Box<Condition>),
    Not(Box<Condition>),
    Implies(Box<Condition>, Box<Condition>),
    Next(Box<Condition>),
    Until(Box<Condition>, Box<Condition>),
}

impl Clone for Condition {
    fn clone(&self) -> (r: Self)
        ensures
            r == *self,
        decreases self,
    {
        match self {
            Condition::True => Condition::True,
            Condition::False => Condition::False,
            Condition::Deadlock => Condition::Deadlock,
            Condition::Evaluation(e) => Condition::Evaluation(e.clone()),
            Condition::ClockComparison(op, c, v) => Condition::ClockComparison(*op, c.clone(), *v),
            Condition::Proposition(op, a, b) => Condition::Proposition(*op, a.clone(), b.clone()),
            Condition::And(a, b) => Condition::And(Box::new((**a).clone()), Box::new((**b).clone())),
            Condition::Or(a, b) => Condition::Or(Box::new((**a).clone()), Box::new((**b).clone())),
            Condition::Not(a) => Condition::Not(Box::new((**a).clone())),
            Condition::Implies(a, b) => Condition::Implies(
                Box::new((**a).clone()),
                Box::new((**b).clone()),
            ),
            Condition::Next(a) => Condition::Next(Box::new((**a).clone())),
            Condition::Until(a, b) => Condition::Until(Box::new((**a).clone()), Box::new((**b).clone())),
        }
    }
}

/// Number of nodes of a condition.
pub open spec fn size(c: Condition) -> nat
    decreases c,
{
    match c {
        Condition::And(a, b) => 1 + size(*a) + size(*b),
        Condition::Or(a, b) => 1 + size(*a) + size(*b),
        Condition::Implies(a, b) => 1 + size(*a) + size(*b),
        Condition::Until(a, b) => 1 + size(*a) + size(*b),
        Condition::Not(a) => 1 + size(*a),
        Condition::Next(a) => 1 + size(*a),
        _ => 1,
    }
}

/// The negation of `c`, folding constants.
pub open spec fn negation(c: Condition) -> Condition {
    match c {
        Condition::True => Condition::False,
        Condition::False => Condition::True,
        c => Condition::Not(Box::new(c)),
    }
}

/// The conjunction of `a` and `b`, folding constants.
pub open spec fn conj(a: Condition, b: Condition) -> Condition {
    if a is True && b is True {
        Condition::True
    } else if a is False || b is False {
        Condition::False
    } else if a is True {
        b
    } else if b is True {
        a
    } else {
        Condition::And(Box::new(a), Box::new(b))
    }
}

/// The disjunction of `a` and `b`, folding constants.
pub open spec fn disj(a: Condition, b: Condition) -> Condition {
    if a is False && b is False {
        Condition::False
    } else if a is True || b is True {
        Condition::True
    } else if a is False {
        b
    } else if b is False {
        a
    } else {
        Condition::Or(Box::new(a), Box::new(b))
    }
}

/// Whether an `Until` occurs in `c`, outside the operands of another `Until`.
pub open spec fn has_until(c: Condition) -> bool
    decreases c,
{
    match c {
        Condition::Until(_, _) => true,
        Condition::Not(a) => has_until(*a),
        Condition::Next(a) => has_until(*a),
        Condition::And(a, b) => has_until(*a) || has_until(*b),
        Condition::Or(a, b) => has_until(*a) || has_until(*b),
        Condition::Implies(a, b) => has_until(*a) || has_until(*b),
        _ => false,
    }
}

/// Whether `c` speaks of the current state only: no `Next` and no `Until`.
pub open spec fn state_only(c: Condition) -> bool
    decreases c,
{
    match c {
        Condition::Until(_, _) => false,
        Condition::Next(_) => false,
        Condition::Not(a) => state_only(*a),
        Condition::And(a, b) => state_only(*a) && state_only(*b),
        Condition::Or(a, b) => state_only(*a) && state_only(*b),
        Condition::Implies(a, b) => state_only(*a) && state_only(*b),
        _ => true,
    }
}

/// Whether a clock comparison occurs in `c`.
pub open spec fn has_clock(c: Condition) -> bool
    decreases c,
{
    match c {
        Condition::Next(a) => has_clock(*a),
        Condition::Not(a) => has_clock(*a),
        Condition::And(a, b) => has_clock(*a) || has_clock(*b),
        Condition::Or(a, b) => has_clock(*a) || has_clock(*b),
        Condition::Until(a, b) => has_clock(*a) || has_clock(*b),
        Condition::Implies(a, b) => has_clock(*a) || has_clock(*b),
        Condition::ClockComparison(_, _, _) => true,
        _ => false,
    }
}

/// Whether `c` is built from clock comparisons and constants by `Not`, `And`, `Or` and
/// `Implies` only.
pub open spec fn clock_guard(c: Condition) -> bool
    decreases c,
{
    match c {
        Condition::Next(_) => false,
        Condition::Until(_, _) => false,
        Condition::Not(a) => clock_guard(*a),
        Condition::And(a, b) => clock_guard(*a) && clock_guard(*b),
        Condition::Or(a, b) => clock_guard(*a) && clock_guard(*b),
        Condition::Implies(a, b) => clock_guard(*a) && clock_guard(*b),
        Condition::ClockComparison(_, _, _) => true,
        Condition::True => true,
        Condition::False => true,
        _ => false,
    }
}

/// `c` with the comparisons on the clock of index `clock` replaced by `True`: at the
/// top, under `And`, `Or`, `Until` and `Implies`, and directly under `Not` or `Next`.
pub open spec fn clock_removed(c: Condition, clock: usize) -> Condition
    decreases c,
{
    match c {
        Condition::Next(a) => if (*a) matches Condition::ClockComparison(_, k, _) && k.index
            == clock {
            Condition::True
        } else {
            c
        },
        Condition::Not(a) => if (*a) matches Condition::ClockComparison(_, k, _) && k.index
            == clock {
            Condition::True
        } else {
            c
        },
        Condition::And(a, b) => conj(clock_removed(*a, clock), clock_removed(*b, clock)),
        Condition::Or(a, b) => disj(clock_removed(*a, clock), clock_removed(*b, clock)),
        Condition::Until(a, b) => Condition::Until(
            Box::new(clock_removed(*a, clock)),
            Box::new(clock_removed(*b, clock)),
        ),
        Condition::Implies(a, b) => Condition::Implies(
            Box::new(clock_removed(*a, clock)),
            Box::new(clock_removed(*b, clock)),
        ),
        Condition::ClockComparison(_, k, _) => if k.index == clock {
            Condition::True
        } else {
            c
        },
        _ => c,
    }
}

/// Whether the comparison `op` of clock `k` with `v` occurs in `c`, `k` being the clock of
/// index `clock`.
pub open spec fn clock_comparison_in(
    c: Condition,
    clock: usize,
    op: PropositionType,
    k: ModelClock,
    v: i32,
) -> bool
    decreases c,
{
    match c {
        Condition::ClockComparison(o, kk, vv) => o == op && kk == k && vv == v && k.index == clock,
        Condition::Next(a) => clock_comparison_in(*a, clock, op, k, v),
        Condition::Not(a) => clock_comparison_in(*a, clock, op, k, v),
        Condition::And(a, b) => clock_comparison_in(*a, clock, op, k, v) || clock_comparison_in(*b, clock, op, k, v),
        Condition::Or(a, b) => clock_comparison_in(*a, clock, op, k, v) || clock_comparison_in(*b, clock, op, k, v),
        Condition::Until(a, b) => clock_comparison_in(*a, clock, op, k, v) || clock_comparison_in(*b, clock, op, k, v),
        Condition::Implies(a, b) => clock_comparison_in(*a, clock, op, k, v) || clock_comparison_in(*b, clock, op, k, v),
        _ => false,
    }
}

/// Whether a comparison of the clock of index `clock` occurs in `c` right under a `Not`.
pub open spec fn negated_clock_comparison(c: Condition, clock: usize) -> bool
    decreases c,
{
    match c {
        Condition::Not(a) => ((*a) matches Condition::ClockComparison(_, k, _) && k.index == clock)
            || negated_clock_comparison(*a, clock),
        Condition::Next(a) => negated_clock_comparison(*a, clock),
        Condition::And(a, b) => negated_clock_comparison(*a, clock) || negated_clock_comparison(*b, clock),
        Condition::Or(a, b) => negated_clock_comparison(*a, clock) || negated_clock_comparison(*b, clock),
        Condition::Until(a, b) => negated_clock_comparison(*a, clock) || negated_clock_comparison(*b, clock),
        Condition::Implies(a, b) => negated_clock_comparison(*a, clock) || negated_clock_comparison(*b, clock),
        _ => false,
    }
}

/// Whether every comparison of the clock of index `clock` that occurs in `c` holds at every
/// position of the run whose clocks are `clk`.
pub open spec fn clock_comparisons_hold(
    c: Condition,
    clock: usize,
    clk: spec_fn(nat, ModelClock) -> int,
) -> bool {
    forall|op: PropositionType, k: ModelClock, v: i32|
        #[trigger] clock_comparison_in(c, clock, op, k, v) ==> forall|i: nat| compare(op, #[trigger] clk(i, k), v as int)
}

/// Removing the comparisons of a clock keeps the meaning of a condition, at every position
/// of every run where those comparisons hold, as long as none of them stands right under a
/// `Not`. A condition that does not speak of the clock keeps its meaning on every run.
pub proof fn lemma_clock_removed_keeps_meaning(
    c: Condition,
    clock: usize,
    dead: spec_fn(nat) -> bool,
    value: spec_fn(nat, Expr) -> int,
    clk: spec_fn(nat, ModelClock) -> int,
)
    requires
        !negated_clock_comparison(c, clock),
        clock_comparisons_hold(c, clock, clk),
    ensures
        forall|i: nat| #[trigger] holds(clock_removed(c, clock), dead, value, clk, i) == holds(c, dead, value, clk, i),
    decreases c,
{
    match c {
        Condition::ClockComparison(op, k, v) => {
            if k.index == clock {
                assert(clock_comparison_in(c, clock, op, k, v));
                assert forall|i: nat| #[trigger] holds(clock_removed(c, clock), dead, value, clk, i) == holds(c, dead, value, clk, i) by {
                    assert(compare(op, clk(i, k), v as int));
                }
            } else {
                assert(clock_removed(c, clock) == c);
            }
        },
        Condition::Next(a) => {
            if let Condition::ClockComparison(op, k, v) = *a {
                if k.index == clock {
                    assert(clock_comparison_in(*a, clock, op, k, v));
                    assert(clock_comparison_in(c, clock, op, k, v));
                    assert forall|i: nat| #[trigger] holds(clock_removed(c, clock), dead, value, clk, i) == holds(c, dead, value, clk, i) by {
                        assert(compare(op, clk(i + 1, k), v as int));
                        assert(holds(*a, dead, value, clk, i + 1));
                    }
                } else {
                    assert(clock_removed(c, clock) == c);
                }
            } else {
                assert(clock_removed(c, clock) == c);
            }
        },
        Condition::And(a, b) => {
            assert(clock_comparisons_hold(*a, clock, clk)) by {
                assert forall|op: PropositionType, k: ModelClock, v: i32|
                    #[trigger] clock_comparison_in(*a, clock, op, k, v) implies forall|i: nat| compare(op, #[trigger] clk(i, k), v as int) by {
                    assert(clock_comparison_in(c, clock, op, k, v));
                }
            }
            assert(clock_comparisons_hold(*b, clock, clk)) by {
                assert forall|op: PropositionType, k: ModelClock, v: i32|
                    #[trigger] clock_comparison_in(*b, clock, op, k, v) implies forall|i: nat| compare(op, #[trigger] clk(i, k), v as int) by {
                    assert(clock_comparison_in(c, clock, op, k, v));
                }
            }
            lemma_clock_removed_keeps_meaning(*a, clock, dead, value, clk);
            lemma_clock_removed_keeps_meaning(*b, clock, dead, value, clk);
            lemma_folding_meaning(clock_removed(*a, clock), clock_removed(*b, clock), dead, value, clk);
            assert(forall|i: nat| #[trigger] holds(clock_removed(c, clock), dead, value, clk, i) == holds(c, dead, value, clk, i));
        },
        Condition::Or(a, b) => {
            assert(clock_comparisons_hold(*a, clock, clk)) by {
                assert forall|op: PropositionType, k: ModelClock, v: i32|
                    #[trigger] clock_comparison_in(*a, clock, op, k, v) implies forall|i: nat| compare(op, #[trigger] clk(i, k), v as int) by {
                    assert(clock_comparison_in(c, clock, op, k, v));
                }
            }
            assert(clock_comparisons_hold(*b, clock, clk)) by {
                assert forall|op: PropositionType, k: ModelClock, v: i32|
                    #[trigger] clock_comparison_in(*b, clock, op, k, v) implies forall|i: nat| compare(op, #[trigger] clk(i, k), v as int) by {
                    assert(clock_comparison_in(c, clock, op, k, v));
                }
            }
            lemma_clock_removed_keeps_meaning(*a, clock, dead, value, clk);
            lemma_clock_removed_keeps_meaning(*b, clock, dead, value, clk);
            lemma_folding_meaning(clock_removed(*a, clock), clock_removed(*b, clock), dead, value, clk);
            assert(forall|i: nat| #[trigger] holds(clock_removed(c, clock), dead, value, clk, i) == holds(c, dead, value, clk, i));
        },
        Condition::Implies(a, b) => {
            assert(clock_removed(c, clock) == Condition::Implies(Box::new(clock_removed(*a, clock)), Box::new(clock_removed(*b, clock))));
            assert(clock_comparisons_hold(*a, clock, clk)) by {
                assert forall|op: PropositionType, k: ModelClock, v: i32|
                    #[trigger] clock_comparison_in(*a, clock, op, k, v) implies forall|i: nat| compare(op, #[trigger] clk(i, k), v as int) by {
                    assert(clock_comparison_in(c, clock, op, k, v));
                }
            }
            assert(clock_comparisons_hold(*b, clock, clk)) by {
                assert forall|op: PropositionType, k: ModelClock, v: i32|
                    #[trigger] clock_comparison_in(*b, clock, op, k, v) implies forall|i: nat| compare(op, #[trigger] clk(i, k), v as int) by {
                    assert(clock_comparison_in(c, clock, op, k, v));
                }
            }
            lemma_clock_removed_keeps_meaning(*a, clock, dead, value, clk);
            lemma_clock_removed_keeps_meaning(*b, clock, dead, value, clk);
            assert forall|i: nat| #[trigger] holds(clock_removed(c, clock), dead, value, clk, i) == holds(c, dead, value, clk, i) by {
                assert(holds(clock_removed(*a, clock), dead, value, clk, i) == holds(*a, dead, value, clk, i));
                assert(holds(clock_removed(*b, clock), dead, value, clk, i) == holds(*b, dead, value, clk, i));
            }
        },
        Condition::Not(a) => {
            assert(!((*a) matches Condition::ClockComparison(_, k, _) && k.index == clock));
            assert(clock_removed(c, clock) == c);
        },
        Condition::Until(a, b) => {
            assert(clock_comparisons_hold(*a, clock, clk)) by {
                assert forall|op: PropositionType, k: ModelClock, v: i32|
                    #[trigger] clock_comparison_in(*a, clock, op, k, v) implies forall|i: nat| compare(op, #[trigger] clk(i, k), v as int) by {
                    assert(clock_comparison_in(c, clock, op, k, v));
                }
            }
            assert(clock_comparisons_hold(*b, clock, clk)) by {
                assert forall|op: PropositionType, k: ModelClock, v: i32|
                    #[trigger] clock_comparison_in(*b, clock, op, k, v) implies forall|i: nat| compare(op, #[trigger] clk(i, k), v as int) by {
                    assert(clock_comparison_in(c, clock, op, k, v));
                }
            }
            lemma_clock_removed_keeps_meaning(*a, clock, dead, value, clk);
            lemma_clock_removed_keeps_meaning(*b, clock, dead, value, clk);
            lemma_until_congruence(clock_removed(*a, clock), clock_removed(*b, clock), *a, *b, dead, value, clk);
            assert(forall|i: nat| #[trigger] holds(clock_removed(c, clock), dead, value, clk, i) == holds(c, dead, value, clk, i));
        },
        _ => {
            assert(clock_removed(c, clock) == c);
        },
    }
}

/// `c` with its negations pushed down towards the comparisons.
pub open spec fn distributed(c: Condition) -> Condition
    decreases size(c),
{
    match c {
        Condition::Not(sub) => match *sub {
            Condition::True => Condition::False,
            Condition::False => Condition::True,
            Condition::Proposition(op, e1, e2) => Condition::Proposition(negated_op(op), e1, e2),
            Condition::ClockComparison(op, k, v) => Condition::ClockComparison(negated_op(op), k, v),
            Condition::And(c1, c2) => {
                proof {
                    assert(size(c) == 1 + size(*sub));
                    assert(size(*sub) == 1 + size(*c1) + size(*c2));
                    assert(size(Condition::Not(c1)) == 1 + size(*c1));
                    assert(size(Condition::Not(c2)) == 1 + size(*c2));
                }
                disj(distributed(Condition::Not(c1)), distributed(Condition::Not(c2)))
            },
            Condition::Or(c1, c2) => {
                proof {
                    assert(size(c) == 1 + size(*sub));
                    assert(size(*sub) == 1 + size(*c1) + size(*c2));
                    assert(size(Condition::Not(c1)) == 1 + size(*c1));
                    assert(size(Condition::Not(c2)) == 1 + size(*c2));
                }
                conj(distributed(Condition::Not(c1)), distributed(Condition::Not(c2)))
            },
            Condition::Next(s) => {
                proof {
                    assert(size(c) == 1 + size(*sub));
                    assert(size(*sub) == 1 + size(*s));
                    assert(size(Condition::Not(s)) == 1 + size(*s));
                }
                Condition::Next(Box::new(distributed(Condition::Not(s))))
            },
            Condition::Implies(c1, c2) => {
                proof {
                    assert(size(c) == 1 + size(*sub));
                    assert(size(*sub) == 1 + size(*c1) + size(*c2));
                    assert(size(Condition::Not(c2)) == 1 + size(*c2));
                }
                conj(distributed(*c1), distributed(Condition::Not(c2)))
            },
            Condition::Not(s) => distributed(*s),
            Condition::Until(c1, c2) => Condition::Not(
                Box::new(Condition::Until(Box::new(distributed(*c1)), Box::new(distributed(*c2)))),
            ),
            other => Condition::Not(Box::new(other)),
        },
        Condition::And(c1, c2) => conj(distributed(*c1), distributed(*c2)),
        Condition::Or(c1, c2) => disj(distributed(*c1), distributed(*c2)),
        Condition::Until(c1, c2) => Condition::Until(
            Box::new(distributed(*c1)),
            Box::new(distributed(*c2)),
        ),
        Condition::Implies(c1, c2) => Condition::Implies(
            Box::new(distributed(*c1)),
            Box::new(distributed(*c2)),
        ),
        Condition::Next(s) => Condition::Next(Box::new(distributed(*s))),
        other => other,
    }
}

/// The disjuncts of `c`: the leaves of its top `Or` nodes, from left to right.
pub open spec fn disjuncts(c: Condition) -> Seq<Condition>
    decreases c,
{
    match c {
        Condition::Or(a, b) => disjuncts(*a) + disjuncts(*b),
        _ => seq![c],
    }
}

/// `c` with its comparisons `<` and `<=` turned around into `>` and `>=`.
pub open spec fn greater_form(c: Condition) -> Condition
    decreases c,
{
    match c {
        Condition::Not(a) => negation(greater_form(*a)),
        Condition::And(a, b) => conj(greater_form(*a), greater_form(*b)),
        Condition::Or(a, b) => disj(greater_form(*a), greater_form(*b)),
        Condition::Until(a, b) => Condition::Until(
            Box::new(greater_form(*a)),
            Box::new(greater_form(*b)),
        ),
        Condition::Implies(a, b) => Condition::Implies(
            Box::new(greater_form(*a)),
            Box::new(greater_form(*b)),
        ),
        Condition::Next(a) => Condition::Next(Box::new(greater_form(*a))),
        Condition::Proposition(op, e1, e2) => match op {
            PropositionType::LS => Condition::Proposition(PropositionType::GS, e2, e1),
            PropositionType::LE => Condition::Proposition(PropositionType::GE, e2, e1),
            _ => c,
        },
        _ => c,
    }
}

/// `c` with its comparisons `>` and `>=` turned around into `<` and `<=`.
pub open spec fn lesser_form(c: Condition) -> Condition
    decreases c,
{
    match c {
        Condition::Not(a) => negation(lesser_form(*a)),
        Condition::And(a, b) => conj(lesser_form(*a), lesser_form(*b)),
        Condition::Or(a, b) => disj(lesser_form(*a), lesser_form(*b)),
        Condition::Until(a, b) => Condition::Until(
            Box::new(lesser_form(*a)),
            Box::new(lesser_form(*b)),
        ),
        Condition::Implies(a, b) => Condition::Implies(
            Box::new(lesser_form(*a)),
            Box::new(lesser_form(*b)),
        ),
        Condition::Next(a) => Condition::Next(Box::new(lesser_form(*a))),
        Condition::Proposition(op, e1, e2) => match op {
            PropositionType::GS => Condition::Proposition(PropositionType::LS, e2, e1),
            PropositionType::GE => Condition::Proposition(PropositionType::LE, e2, e1),
            _ => c,
        },
        _ => c,
    }
}

/// Whether `c` holds at position `i` of a run, the run being given by whether each
/// position is a deadlock, the value of each expression and of each clock at each position.
pub open spec fn holds(
    c: Condition,
    dead: spec_fn(nat) -> bool,
    value: spec_fn(nat, Expr) -> int,
    clock: spec_fn(nat, ModelClock) -> int,
    i: nat,
) -> bool
    decreases size(c), 1nat,
{
    match c {
        Condition::True => true,
        Condition::False => false,
        Condition::Deadlock => dead(i),
        Condition::Evaluation(e) => value(i, e) > 0,
        Condition::ClockComparison(op, k, v) => compare(op, clock(i, k), v as int),
        Condition::Proposition(op, e1, e2) => compare(op, value(i, e1), value(i, e2)),
        Condition::And(a, b) => holds(*a, dead, value, clock, i) && holds(*b, dead, value, clock, i),
        Condition::Or(a, b) => holds(*a, dead, value, clock, i) || holds(*b, dead, value, clock, i),
        Condition::Not(a) => !holds(*a, dead, value, clock, i),
        Condition::Implies(a, b) => !holds(*a, dead, value, clock, i) || holds(
            *b,
            dead,
            value,
            clock,
            i,
        ),
        Condition::Next(a) => holds(*a, dead, value, clock, i + 1),
        Condition::Until(a, b) => until_at(*a, *b, dead, value, clock, i),
    }
}

/// The position `k` of a run; it marks the positions that a statement about a run speaks
/// of.
pub open spec fn position(k: nat) -> nat {
    k
}

/// Whether `b` holds at some position `k` from `i` on, and `a` holds from `i` up to `k`.
pub open spec fn until_at(
    a: Condition,
    b: Condition,
    dead: spec_fn(nat) -> bool,
    value: spec_fn(nat, Expr) -> int,
    clock: spec_fn(nat, ModelClock) -> int,
    i: nat,
) -> bool
    decreases size(a) + size(b) + 1, 0nat,
{
    exists|k: nat|
        i <= #[trigger] position(k) && holds(b, dead, value, clock, k) && forall|m: nat|
            i <= #[trigger] position(m) < k ==> holds(a, dead, value, clock, m)
}

/// `negation`, `conj` and `disj` mean what they fold.
pub proof fn lemma_folding_meaning(
    a: Condition,
    b: Condition,
    dead: spec_fn(nat) -> bool,
    value: spec_fn(nat, Expr) -> int,
    clock: spec_fn(nat, ModelClock) -> int,
)
    ensures
        forall|i: nat| #[trigger] holds(negation(a), dead, value, clock, i) == !holds(a, dead, value, clock, i),
        forall|i: nat|
            #[trigger] holds(conj(a, b), dead, value, clock, i) == (holds(a, dead, value, clock, i)
                && holds(b, dead, value, clock, i)),
        forall|i: nat|
            #[trigger] holds(disj(a, b), dead, value, clock, i) == (holds(a, dead, value, clock, i)
                || holds(b, dead, value, clock, i)),
{
}

/// `Until` holds at a position when its second part holds there, or when its first part
/// holds there and `Until` holds at the next position.
pub proof fn lemma_until_step(
    a: Condition,
    b: Condition,
    dead: spec_fn(nat) -> bool,
    value: spec_fn(nat, Expr) -> int,
    clock: spec_fn(nat, ModelClock) -> int,
    i: nat,
)
    ensures
        until_at(a, b, dead, value, clock, i) == (holds(b, dead, value, clock, i) || (holds(
            a,
            dead,
            value,
            clock,
            i,
        ) && until_at(a, b, dead, value, clock, i + 1))),
{
    if until_at(a, b, dead, value, clock, i) {
        let k = choose|k: nat|
            i <= #[trigger] position(k) && holds(b, dead, value, clock, k) && forall|m: nat|
                i <= #[trigger] position(m) < k ==> holds(a, dead, value, clock, m);
        if k > i {
            assert(i <= position(i) < k);
            assert(i + 1 <= position(k));
            assert forall|m: nat| i + 1 <= #[trigger] position(m) < k implies holds(a, dead, value, clock, m) by {
                assert(i <= position(m) < k);
            }
            assert(until_at(a, b, dead, value, clock, i + 1));
        } else {
            assert(position(k) == i);
        }
    }
    if holds(b, dead, value, clock, i) {
        assert(i <= position(i));
        assert(forall|m: nat| !(i <= #[trigger] position(m) < i));
        assert(until_at(a, b, dead, value, clock, i));
    } else if holds(a, dead, value, clock, i) && until_at(a, b, dead, value, clock, i + 1) {
        let k = choose|k: nat|
            i + 1 <= #[trigger] position(k) && holds(b, dead, value, clock, k) && forall|m: nat|
                i + 1 <= #[trigger] position(m) < k ==> holds(a, dead, value, clock, m);
        assert(i <= position(k));
        assert forall|m: nat| i <= #[trigger] position(m) < k implies holds(a, dead, value, clock, m) by {
            if m > i {
                assert(i + 1 <= position(m) < k);
            }
        }
        assert(until_at(a, b, dead, value, clock, i));
    }
}

/// `Until` means the same of two pairs of conditions that mean the same at every position.
pub(crate) proof fn lemma_until_congruence(
    x: Condition,
    y: Condition,
    a: Condition,
    b: Condition,
    dead: spec_fn(nat) -> bool,
    value: spec_fn(nat, Expr) -> int,
    clock: spec_fn(nat, ModelClock) -> int,
)
    requires
        forall|i: nat| #[trigger] holds(x, dead, value, clock, i) == holds(a, dead, value, clock, i),
        forall|i: nat| #[trigger] holds(y, dead, value, clock, i) == holds(b, dead, value, clock, i),
    ensures
        forall|i: nat|
            #[trigger] holds(Condition::Until(Box::new(x), Box::new(y)), dead, value, clock, i) == holds(
                Condition::Until(Box::new(a), Box::new(b)),
                dead,
                value,
                clock,
                i,
            ),
{
    assert forall|i: nat|
        #[trigger] holds(Condition::Until(Box::new(x), Box::new(y)), dead, value, clock, i) == holds(
            Condition::Until(Box::new(a), Box::new(b)),
            dead,
            value,
            clock,
            i,
        ) by {
        let ux = Condition::Until(Box::new(x), Box::new(y));
        let ua = Condition::Until(Box::new(a), Box::new(b));
        assert(holds(ux, dead, value, clock, i) == until_at(x, y, dead, value, clock, i));
        assert(holds(ua, dead, value, clock, i) == until_at(a, b, dead, value, clock, i));
        if until_at(x, y, dead, value, clock, i) {
            let k = choose|k: nat|
                i <= #[trigger] position(k) && holds(y, dead, value, clock, k) && forall|m: nat|
                    i <= #[trigger] position(m) < k ==> holds(x, dead, value, clock, m);
            assert(holds(b, dead, value, clock, k));
            assert forall|m: nat| i <= #[trigger] position(m) < k implies holds(a, dead, value, clock, m) by {
                assert(holds(x, dead, value, clock, m));
            }
            assert(until_at(a, b, dead, value, clock, i));
        }
        if until_at(a, b, dead, value, clock, i) {
            let k = choose|k: nat|
                i <= #[trigger] position(k) && holds(b, dead, value, clock, k) && forall|m: nat|
                    i <= #[trigger] position(m) < k ==> holds(a, dead, value, clock, m);
            assert(holds(y, dead, value, clock, k));
            assert forall|m: nat| i <= #[trigger] position(m) < k implies holds(x, dead, value, clock, m) by {
                assert(holds(a, dead, value, clock, m));
            }
            assert(until_at(x, y, dead, value, clock, i));
        }
    }
}

proof fn lemma_folding_state_only(a: Condition, b: Condition)
    requires
        state_only(a),
        state_only(b),
    ensures
        state_only(conj(a, b)),
        state_only(disj(a, b)),
        state_only(negation(a)),
{
}

/// Pushing the negations down keeps a condition on the current state alone.
pub proof fn lemma_distributed_state_only(c: Condition)
    requires
        state_only(c),
    ensures
        state_only(distributed(c)),
    decreases size(c),
{
    match c {
        Condition::Not(sub) => {
            assert(size(c) == 1 + size(*sub));
            assert(state_only(*sub));
            match *sub {
                Condition::And(c1, c2) => {
                    assert(size(*sub) == 1 + size(*c1) + size(*c2));
                    assert(size(Condition::Not(c1)) == 1 + size(*c1));
                    assert(size(Condition::Not(c2)) == 1 + size(*c2));
                    assert(state_only(*c1) && state_only(*c2));
                    assert(state_only(Condition::Not(c1)) && state_only(Condition::Not(c2)));
                    lemma_distributed_state_only(Condition::Not(c1));
                    lemma_distributed_state_only(Condition::Not(c2));
                    lemma_folding_state_only(distributed(Condition::Not(c1)), distributed(Condition::Not(c2)));
                },
                Condition::Or(c1, c2) => {
                    assert(size(*sub) == 1 + size(*c1) + size(*c2));
                    assert(size(Condition::Not(c1)) == 1 + size(*c1));
                    assert(size(Condition::Not(c2)) == 1 + size(*c2));
                    assert(state_only(*c1) && state_only(*c2));
                    assert(state_only(Condition::Not(c1)) && state_only(Condition::Not(c2)));
                    lemma_distributed_state_only(Condition::Not(c1));
                    lemma_distributed_state_only(Condition::Not(c2));
                    lemma_folding_state_only(distributed(Condition::Not(c1)), distributed(Condition::Not(c2)));
                },
                Condition::Implies(c1, c2) => {
                    assert(size(*sub) == 1 + size(*c1) + size(*c2));
                    assert(size(Condition::Not(c2)) == 1 + size(*c2));
                    assert(state_only(*c1) && state_only(*c2));
                    assert(state_only(Condition::Not(c2)));
                    lemma_distributed_state_only(*c1);
                    lemma_distributed_state_only(Condition::Not(c2));
                    lemma_folding_state_only(distributed(*c1), distributed(Condition::Not(c2)));
                },
                Condition::Not(s2) => {
                    assert(size(*sub) == 1 + size(*s2));
                    assert(state_only(*s2));
                    lemma_distributed_state_only(*s2);
                },
                _ => {},
            }
        },
        Condition::And(c1, c2) => {
            lemma_distributed_state_only(*c1);
            lemma_distributed_state_only(*c2);
            lemma_folding_state_only(distributed(*c1), distributed(*c2));
        },
        Condition::Or(c1, c2) => {
            lemma_distributed_state_only(*c1);
            lemma_distributed_state_only(*c2);
            lemma_folding_state_only(distributed(*c1), distributed(*c2));
        },
        Condition::Implies(c1, c2) => {
            lemma_distributed_state_only(*c1);
            lemma_distributed_state_only(*c2);
        },
        _ => {},
    }
}

/// Whether every negation in `c` stands directly on a deadlock test or an evaluation.
pub open spec fn negates_atoms(c: Condition) -> bool
    decreases c,
{
    match c {
        Condition::Not(a) => *a is Deadlock || *a is Evaluation,
        Condition::And(a, b) => negates_atoms(*a) && negates_atoms(*b),
        Condition::Or(a, b) => negates_atoms(*a) && negates_atoms(*b),
        Condition::Implies(a, b) => negates_atoms(*a) && negates_atoms(*b),
        Condition::Next(a) => negates_atoms(*a),
        Condition::Until(a, b) => negates_atoms(*a) && negates_atoms(*b),
        _ => true,
    }
}

proof fn lemma_folding_negates_atoms(a: Condition, b: Condition)
    requires
        negates_atoms(a),
        negates_atoms(b),
    ensures
        negates_atoms(conj(a, b)),
        negates_atoms(disj(a, b)),
{
}

/// On a condition on the current state alone, pushing the negations down leaves negations
/// only on deadlock tests and evaluations: comparisons are turned around instead.
pub proof fn lemma_distributed_negates_atoms(c: Condition)
    requires
        state_only(c),
    ensures
        negates_atoms(distributed(c)),
    decreases size(c),
{
    match c {
        Condition::Not(sub) => {
            assert(size(c) == 1 + size(*sub));
            assert(state_only(*sub));
            match *sub {
                Condition::And(c1, c2) => {
                    assert(size(*sub) == 1 + size(*c1) + size(*c2));
                    assert(size(Condition::Not(c1)) == 1 + size(*c1));
                    assert(size(Condition::Not(c2)) == 1 + size(*c2));
                    assert(state_only(*c1) && state_only(*c2));
                    assert(state_only(Condition::Not(c1)) && state_only(Condition::Not(c2)));
                    lemma_distributed_negates_atoms(Condition::Not(c1));
                    lemma_distributed_negates_atoms(Condition::Not(c2));
                    lemma_folding_negates_atoms(distributed(Condition::Not(c1)), distributed(Condition::Not(c2)));
                },
                Condition::Or(c1, c2) => {
                    assert(size(*sub) == 1 + size(*c1) + size(*c2));
                    assert(size(Condition::Not(c1)) == 1 + size(*c1));
                    assert(size(Condition::Not(c2)) == 1 + size(*c2));
                    assert(state_only(*c1) && state_only(*c2));
                    assert(state_only(Condition::Not(c1)) && state_only(Condition::Not(c2)));
                    lemma_distributed_negates_atoms(Condition::Not(c1));
                    lemma_distributed_negates_atoms(Condition::Not(c2));
                    lemma_folding_negates_atoms(distributed(Condition::Not(c1)), distributed(Condition::Not(c2)));
                },
                Condition::Implies(c1, c2) => {
                    assert(size(*sub) == 1 + size(*c1) + size(*c2));
                    assert(size(Condition::Not(c2)) == 1 + size(*c2));
                    assert(state_only(*c1) && state_only(*c2));
                    assert(state_only(Condition::Not(c2)));
                    lemma_distributed_negates_atoms(*c1);
                    lemma_distributed_negates_atoms(Condition::Not(c2));
                    lemma_folding_negates_atoms(distributed(*c1), distributed(Condition::Not(c2)));
                },
                Condition::Not(s2) => {
                    assert(size(*sub) == 1 + size(*s2));
                    assert(state_only(*s2));
                    lemma_distributed_negates_atoms(*s2);
                },
                _ => {},
            }
        },
        Condition::And(c1, c2) => {
            lemma_distributed_negates_atoms(*c1);
            lemma_distributed_negates_atoms(*c2);
            lemma_folding_negates_atoms(distributed(*c1), distributed(*c2));
        },
        Condition::Or(c1, c2) => {
            lemma_distributed_negates_atoms(*c1);
            lemma_distributed_negates_atoms(*c2);
            lemma_folding_negates_atoms(distributed(*c1), distributed(*c2));
        },
        Condition::Implies(c1, c2) => {
            lemma_distributed_negates_atoms(*c1);
            lemma_distributed_negates_atoms(*c2);
        },
        _ => {},
    }
}

/// Pushing the negations down keeps the meaning of a condition, at every position of every
/// run.
pub proof fn lemma_distribute_not_keeps_meaning(
    c: Condition,
    dead: spec_fn(nat) -> bool,
    value: spec_fn(nat, Expr) -> int,
    clock: spec_fn(nat, ModelClock) -> int,
)
    ensures
        forall|i: nat|
            #[trigger] holds(distributed(c), dead, value, clock, i) == holds(c, dead, value, clock, i),
    decreases size(c),
{
    match c {
        Condition::Not(sub) => {
            assert(size(c) == 1 + size(*sub));
            match *sub {
                Condition::And(c1, c2) => {
                    assert(size(*sub) == 1 + size(*c1) + size(*c2));
                    assert(size(Condition::Not(c1)) == 1 + size(*c1));
                    assert(size(Condition::Not(c2)) == 1 + size(*c2));
                    lemma_distribute_not_keeps_meaning(Condition::Not(c1), dead, value, clock);
                    lemma_distribute_not_keeps_meaning(Condition::Not(c2), dead, value, clock);
                    let x = distributed(Condition::Not(c1));
                    let y = distributed(Condition::Not(c2));
                    lemma_folding_meaning(x, y, dead, value, clock);
                    assert forall|i: nat| #[trigger] holds(distributed(c), dead, value, clock, i) == holds(c, dead, value, clock, i) by {
                        assert(distributed(c) == disj(x, y));
                        assert(holds(x, dead, value, clock, i) == holds(Condition::Not(c1), dead, value, clock, i));
                        assert(holds(y, dead, value, clock, i) == holds(Condition::Not(c2), dead, value, clock, i));
                        assert(holds(Condition::Not(c1), dead, value, clock, i) == !holds(*c1, dead, value, clock, i));
                        assert(holds(Condition::Not(c2), dead, value, clock, i) == !holds(*c2, dead, value, clock, i));
                        assert(holds(*sub, dead, value, clock, i) == (holds(*c1, dead, value, clock, i) && holds(*c2, dead, value, clock, i)));
                    }
                },
                Condition::Or(c1, c2) => {
                    assert(size(*sub) == 1 + size(*c1) + size(*c2));
                    assert(size(Condition::Not(c1)) == 1 + size(*c1));
                    assert(size(Condition::Not(c2)) == 1 + size(*c2));
                    lemma_distribute_not_keeps_meaning(Condition::Not(c1), dead, value, clock);
                    lemma_distribute_not_keeps_meaning(Condition::Not(c2), dead, value, clock);
                    let x = distributed(Condition::Not(c1));
                    let y = distributed(Condition::Not(c2));
                    lemma_folding_meaning(x, y, dead, value, clock);
                    assert forall|i: nat| #[trigger] holds(distributed(c), dead, value, clock, i) == holds(c, dead, value, clock, i) by {
                        assert(distributed(c) == conj(x, y));
                        assert(holds(x, dead, value, clock, i) == holds(Condition::Not(c1), dead, value, clock, i));
                        assert(holds(y, dead, value, clock, i) == holds(Condition::Not(c2), dead, value, clock, i));
                        assert(holds(Condition::Not(c1), dead, value, clock, i) == !holds(*c1, dead, value, clock, i));
                        assert(holds(Condition::Not(c2), dead, value, clock, i) == !holds(*c2, dead, value, clock, i));
                        assert(holds(*sub, dead, value, clock, i) == (holds(*c1, dead, value, clock, i) || holds(*c2, dead, value, clock, i)));
                    }
                },
                Condition::Next(s) => {
                    assert(size(*sub) == 1 + size(*s));
                    assert(size(Condition::Not(s)) == 1 + size(*s));
                    lemma_distribute_not_keeps_meaning(Condition::Not(s), dead, value, clock);
                    assert forall|i: nat| #[trigger] holds(distributed(c), dead, value, clock, i) == holds(c, dead, value, clock, i) by {
                        let x = distributed(Condition::Not(s));
                        assert(distributed(c) == Condition::Next(Box::new(x)));
                        assert(holds(Condition::Next(Box::new(x)), dead, value, clock, i) == holds(x, dead, value, clock, i + 1));
                        assert(holds(x, dead, value, clock, i + 1) == holds(Condition::Not(s), dead, value, clock, i + 1));
                        assert(holds(Condition::Not(s), dead, value, clock, i + 1) == !holds(*s, dead, value, clock, i + 1));
                        assert(holds(*sub, dead, value, clock, i) == holds(*s, dead, value, clock, i + 1));
                    }
                },
                Condition::Implies(c1, c2) => {
                    assert(size(*sub) == 1 + size(*c1) + size(*c2));
                    assert(size(Condition::Not(c2)) == 1 + size(*c2));
                    lemma_distribute_not_keeps_meaning(*c1, dead, value, clock);
                    lemma_distribute_not_keeps_meaning(Condition::Not(c2), dead, value, clock);
                    let x = distributed(*c1);
                    let y = distributed(Condition::Not(c2));
                    lemma_folding_meaning(x, y, dead, value, clock);
                    assert forall|i: nat| #[trigger] holds(distributed(c), dead, value, clock, i) == holds(c, dead, value, clock, i) by {
                        assert(distributed(c) == conj(x, y));
                        assert(holds(x, dead, value, clock, i) == holds(*c1, dead, value, clock, i));
                        assert(holds(y, dead, value, clock, i) == holds(Condition::Not(c2), dead, value, clock, i));
                        assert(holds(Condition::Not(c2), dead, value, clock, i) == !holds(*c2, dead, value, clock, i));
                        assert(holds(*sub, dead, value, clock, i) == (!holds(*c1, dead, value, clock, i) || holds(*c2, dead, value, clock, i)));
                    }
                },
                Condition::Until(c1, c2) => {
                    assert(size(*sub) == 1 + size(*c1) + size(*c2));
                    lemma_distribute_not_keeps_meaning(*c1, dead, value, clock);
                    lemma_distribute_not_keeps_meaning(*c2, dead, value, clock);
                    let x = distributed(*c1);
                    let y = distributed(*c2);
                    lemma_until_congruence(x, y, *c1, *c2, dead, value, clock);
                    let u = Condition::Until(Box::new(x), Box::new(y));
                    assert(distributed(c) == Condition::Not(Box::new(u)));
                    assert forall|i: nat| #[trigger] holds(distributed(c), dead, value, clock, i) == holds(c, dead, value, clock, i) by {
                        assert(holds(Condition::Not(Box::new(u)), dead, value, clock, i) == !holds(u, dead, value, clock, i));
                        assert(holds(u, dead, value, clock, i) == holds(*sub, dead, value, clock, i));
                    }
                },
                Condition::Not(s) => {
                    assert(size(*sub) == 1 + size(*s));
                    lemma_distribute_not_keeps_meaning(*s, dead, value, clock);
                    assert forall|i: nat| #[trigger] holds(distributed(c), dead, value, clock, i) == holds(c, dead, value, clock, i) by {
                        assert(distributed(c) == distributed(*s));
                        assert(holds(*sub, dead, value, clock, i) == !holds(*s, dead, value, clock, i));
                    }
                },
                _ => {
                    assert forall|i: nat| #[trigger] holds(distributed(c), dead, value, clock, i)
                        == holds(c, dead, value, clock, i) by {
                        assert(holds(c, dead, value, clock, i) == !holds(*sub, dead, value, clock, i));
                        let d = distributed(c);
                        match *sub {
                            Condition::Proposition(op, e1, e2) => {
                                assert(d == Condition::Proposition(negated_op(op), e1, e2));
                            },
                            Condition::ClockComparison(op, k, v) => {
                                assert(d == Condition::ClockComparison(negated_op(op), k, v));
                            },
                            Condition::True => {},
                            Condition::False => {},
                            _ => {
                                assert(d == Condition::Not(Box::new(*sub)));
                            },
                        }
                    }
                },
            }
        },
        Condition::And(c1, c2) => {
            lemma_distribute_not_keeps_meaning(*c1, dead, value, clock);
            lemma_distribute_not_keeps_meaning(*c2, dead, value, clock);
            let x = distributed(*c1);
            let y = distributed(*c2);
            lemma_folding_meaning(x, y, dead, value, clock);
            assert forall|i: nat| #[trigger] holds(distributed(c), dead, value, clock, i) == holds(c, dead, value, clock, i) by {
                assert(distributed(c) == conj(x, y));
                assert(holds(x, dead, value, clock, i) == holds(*c1, dead, value, clock, i));
                assert(holds(y, dead, value, clock, i) == holds(*c2, dead, value, clock, i));
            }
        },
        Condition::Or(c1, c2) => {
            lemma_distribute_not_keeps_meaning(*c1, dead, value, clock);
            lemma_distribute_not_keeps_meaning(*c2, dead, value, clock);
            let x = distributed(*c1);
            let y = distributed(*c2);
            lemma_folding_meaning(x, y, dead, value, clock);
            assert forall|i: nat| #[trigger] holds(distributed(c), dead, value, clock, i) == holds(c, dead, value, clock, i) by {
                assert(distributed(c) == disj(x, y));
                assert(holds(x, dead, value, clock, i) == holds(*c1, dead, value, clock, i));
                assert(holds(y, dead, value, clock, i) == holds(*c2, dead, value, clock, i));
            }
        },
        Condition::Implies(c1, c2) => {
            lemma_distribute_not_keeps_meaning(*c1, dead, value, clock);
            lemma_distribute_not_keeps_meaning(*c2, dead, value, clock);
            let x = distributed(*c1);
            let y = distributed(*c2);
            assert forall|i: nat| #[trigger] holds(distributed(c), dead, value, clock, i) == holds(c, dead, value, clock, i) by {
                assert(distributed(c) == Condition::Implies(Box::new(x), Box::new(y)));
                assert(holds(Condition::Implies(Box::new(x), Box::new(y)), dead, value, clock, i) == (!holds(x, dead, value, clock, i) || holds(y, dead, value, clock, i)));
                assert(holds(x, dead, value, clock, i) == holds(*c1, dead, value, clock, i));
                assert(holds(y, dead, value, clock, i) == holds(*c2, dead, value, clock, i));
            }
        },
        Condition::Next(s) => {
            lemma_distribute_not_keeps_meaning(*s, dead, value, clock);
            assert forall|i: nat| #[trigger] holds(distributed(c), dead, value, clock, i) == holds(c, dead, value, clock, i) by {
                let x = distributed(*s);
                assert(distributed(c) == Condition::Next(Box::new(x)));
                assert(holds(Condition::Next(Box::new(x)), dead, value, clock, i) == holds(x, dead, value, clock, i + 1));
                assert(holds(x, dead, value, clock, i + 1) == holds(*s, dead, value, clock, i + 1));
            }
        },
        Condition::Until(c1, c2) => {
            lemma_distribute_not_keeps_meaning(*c1, dead, value, clock);
            lemma_distribute_not_keeps_meaning(*c2, dead, value, clock);
            let x = distributed(*c1);
            let y = distributed(*c2);
            lemma_until_congruence(x, y, *c1, *c2, dead, value, clock);
            assert(distributed(c) == Condition::Until(Box::new(x), Box::new(y)));
        },
        _ => {},
    }
}

/// Turning comparisons around keeps the meaning of a condition, at every position of every
/// run.
pub proof fn lemma_to_greater_eq_keeps_meaning(
    c: Condition,
    dead: spec_fn(nat) -> bool,
    value: spec_fn(nat, Expr) -> int,
    clock: spec_fn(nat, ModelClock) -> int,
)
    ensures
        forall|i: nat|
            #[trigger] holds(greater_form(c), dead, value, clock, i) == holds(c, dead, value, clock, i),
    decreases c,
{
    match c {
        Condition::Not(a) => {
            lemma_to_greater_eq_keeps_meaning(*a, dead, value, clock);
            let x = greater_form(*a);
            lemma_folding_meaning(x, Condition::True, dead, value, clock);
            assert forall|i: nat| #[trigger] holds(greater_form(c), dead, value, clock, i) == holds(c, dead, value, clock, i) by {
                assert(greater_form(c) == negation(x));
                assert(holds(negation(x), dead, value, clock, i) == !holds(x, dead, value, clock, i));
                assert(holds(x, dead, value, clock, i) == holds(*a, dead, value, clock, i));
            }
        },
        Condition::And(a, b) => {
            lemma_to_greater_eq_keeps_meaning(*a, dead, value, clock);
            lemma_to_greater_eq_keeps_meaning(*b, dead, value, clock);
            let x = greater_form(*a);
            let y = greater_form(*b);
            lemma_folding_meaning(x, y, dead, value, clock);
            assert forall|i: nat| #[trigger] holds(greater_form(c), dead, value, clock, i) == holds(c, dead, value, clock, i) by {
                assert(greater_form(c) == conj(x, y));
                assert(holds(x, dead, value, clock, i) == holds(*a, dead, value, clock, i));
                assert(holds(y, dead, value, clock, i) == holds(*b, dead, value, clock, i));
            }
        },
        Condition::Or(a, b) => {
            lemma_to_greater_eq_keeps_meaning(*a, dead, value, clock);
            lemma_to_greater_eq_keeps_meaning(*b, dead, value, clock);
            let x = greater_form(*a);
            let y = greater_form(*b);
            lemma_folding_meaning(x, y, dead, value, clock);
            assert forall|i: nat| #[trigger] holds(greater_form(c), dead, value, clock, i) == holds(c, dead, value, clock, i) by {
                assert(greater_form(c) == disj(x, y));
                assert(holds(x, dead, value, clock, i) == holds(*a, dead, value, clock, i));
                assert(holds(y, dead, value, clock, i) == holds(*b, dead, value, clock, i));
            }
        },
        Condition::Implies(a, b) => {
            lemma_to_greater_eq_keeps_meaning(*a, dead, value, clock);
            lemma_to_greater_eq_keeps_meaning(*b, dead, value, clock);
            let x = greater_form(*a);
            let y = greater_form(*b);
            assert forall|i: nat| #[trigger] holds(greater_form(c), dead, value, clock, i) == holds(c, dead, value, clock, i) by {
                assert(greater_form(c) == Condition::Implies(Box::new(x), Box::new(y)));
                assert(holds(Condition::Implies(Box::new(x), Box::new(y)), dead, value, clock, i) == (!holds(x, dead, value, clock, i) || holds(y, dead, value, clock, i)));
                assert(holds(x, dead, value, clock, i) == holds(*a, dead, value, clock, i));
                assert(holds(y, dead, value, clock, i) == holds(*b, dead, value, clock, i));
            }
        },
        Condition::Next(a) => {
            lemma_to_greater_eq_keeps_meaning(*a, dead, value, clock);
            assert forall|i: nat| #[trigger] holds(greater_form(c), dead, value, clock, i) == holds(c, dead, value, clock, i) by {
                let x = greater_form(*a);
                assert(greater_form(c) == Condition::Next(Box::new(x)));
                assert(holds(Condition::Next(Box::new(x)), dead, value, clock, i) == holds(x, dead, value, clock, i + 1));
                assert(holds(x, dead, value, clock, i + 1) == holds(*a, dead, value, clock, i + 1));
            }
        },
        Condition::Until(a, b) => {
            lemma_to_greater_eq_keeps_meaning(*a, dead, value, clock);
            lemma_to_greater_eq_keeps_meaning(*b, dead, value, clock);
            let x = greater_form(*a);
            let y = greater_form(*b);
            lemma_until_congruence(x, y, *a, *b, dead, value, clock);
            assert(greater_form(c) == Condition::Until(Box::new(x), Box::new(y)));
        },
        _ => {},
    }
}

/// Turning comparisons around keeps the meaning of a condition, at every position of every
/// run.
pub proof fn lemma_to_lesser_eq_keeps_meaning(
    c: Condition,
    dead: spec_fn(nat) -> bool,
    value: spec_fn(nat, Expr) -> int,
    clock: spec_fn(nat, ModelClock) -> int,
)
    ensures
        forall|i: nat|
            #[trigger] holds(lesser_form(c), dead, value, clock, i) == holds(c, dead, value, clock, i),
    decreases c,
{
    match c {
        Condition::Not(a) => {
            lemma_to_lesser_eq_keeps_meaning(*a, dead, value, clock);
            let x = lesser_form(*a);
            lemma_folding_meaning(x, Condition::True, dead, value, clock);
            assert forall|i: nat| #[trigger] holds(lesser_form(c), dead, value, clock, i) == holds(c, dead, value, clock, i) by {
                assert(lesser_form(c) == negation(x));
                assert(holds(negation(x), dead, value, clock, i) == !holds(x, dead, value, clock, i));
                assert(holds(x, dead, value, clock, i) == holds(*a, dead, value, clock, i));
            }
        },
        Condition::And(a, b) => {
            lemma_to_lesser_eq_keeps_meaning(*a, dead, value, clock);
            lemma_to_lesser_eq_keeps_meaning(*b, dead, value, clock);
            let x = lesser_form(*a);
            let y = lesser_form(*b);
            lemma_folding_meaning(x, y, dead, value, clock);
            assert forall|i: nat| #[trigger] holds(lesser_form(c), dead, value, clock, i) == holds(c, dead, value, clock, i) by {
                assert(lesser_form(c) == conj(x, y));
                assert(holds(x, dead, value, clock, i) == holds(*a, dead, value, clock, i));
                assert(holds(y, dead, value, clock, i) == holds(*b, dead, value, clock, i));
            }
        },
        Condition::Or(a, b) => {
            lemma_to_lesser_eq_keeps_meaning(*a, dead, value, clock);
            lemma_to_lesser_eq_keeps_meaning(*b, dead, value, clock);
            let x = lesser_form(*a);
            let y = lesser_form(*b);
            lemma_folding_meaning(x, y, dead, value, clock);
            assert forall|i: nat| #[trigger] holds(lesser_form(c), dead, value, clock, i) == holds(c, dead, value, clock, i) by {
                assert(lesser_form(c) == disj(x, y));
                assert(holds(x, dead, value, clock, i) == holds(*a, dead, value, clock, i));
                assert(holds(y, dead, value, clock, i) == holds(*b, dead, value, clock, i));
            }
        },
        Condition::Implies(a, b) => {
            lemma_to_lesser_eq_keeps_meaning(*a, dead, value, clock);
            lemma_to_lesser_eq_keeps_meaning(*b, dead, value, clock);
            let x = lesser_form(*a);
            let y = lesser_form(*b);
            assert forall|i: nat| #[trigger] holds(lesser_form(c), dead, value, clock, i) == holds(c, dead, value, clock, i) by {
                assert(lesser_form(c) == Condition::Implies(Box::new(x), Box::new(y)));
                assert(holds(Condition::Implies(Box::new(x), Box::new(y)), dead, value, clock, i) == (!holds(x, dead, value, clock, i) || holds(y, dead, value, clock, i)));
                assert(holds(x, dead, value, clock, i) == holds(*a, dead, value, clock, i));
                assert(holds(y, dead, value, clock, i) == holds(*b, dead, value, clock, i));
            }
        },
        Condition::Next(a) => {
            lemma_to_lesser_eq_keeps_meaning(*a, dead, value, clock);
            assert forall|i: nat| #[trigger] holds(lesser_form(c), dead, value, clock, i) == holds(c, dead, value, clock, i) by {
                let x = lesser_form(*a);
                assert(lesser_form(c) == Condition::Next(Box::new(x)));
                assert(holds(Condition::Next(Box::new(x)), dead, value, clock, i) == holds(x, dead, value, clock, i + 1));
                assert(holds(x, dead, value, clock, i + 1) == holds(*a, dead, value, clock, i + 1));
            }
        },
        Condition::Until(a, b) => {
            lemma_to_lesser_eq_keeps_meaning(*a, dead, value, clock);
            lemma_to_lesser_eq_keeps_meaning(*b, dead, value, clock);
            let x = lesser_form(*a);
            let y = lesser_form(*b);
            lemma_until_congruence(x, y, *a, *b, dead, value, clock);
            assert(lesser_form(c) == Condition::Until(Box::new(x), Box::new(y)));
        },
        _ => {},
    }
}

/// A condition holds exactly when one of its disjuncts does.
pub proof fn lemma_conjunctions_cover(
    c: Condition,
    dead: spec_fn(nat) -> bool,
    value: spec_fn(nat, Expr) -> int,
    clock: spec_fn(nat, ModelClock) -> int,
    i: nat,
)
    ensures
        holds(c, dead, value, clock, i) == exists|k: int|
            0 <= k < disjuncts(c).len() && #[trigger] holds(disjuncts(c)[k], dead, value, clock, i),
    decreases c,
{
    match c {
        Condition::Or(a, b) => {
            lemma_conjunctions_cover(*a, dead, value, clock, i);
            lemma_conjunctions_cover(*b, dead, value, clock, i);
            let da = disjuncts(*a);
            let db = disjuncts(*b);
            let d = disjuncts(c);
            assert(d == da + db);
            if holds(c, dead, value, clock, i) {
                if holds(*a, dead, value, clock, i) {
                    let k = choose|k: int| 0 <= k < da.len() && #[trigger] holds(da[k], dead, value, clock, i);
                    assert(d[k] == da[k]);
                } else {
                    let k = choose|k: int| 0 <= k < db.len() && #[trigger] holds(db[k], dead, value, clock, i);
                    assert(d[da.len() + k] == db[k]);
                }
            }
            if exists|k: int| 0 <= k < d.len() && #[trigger] holds(d[k], dead, value, clock, i) {
                let k = choose|k: int| 0 <= k < d.len() && #[trigger] holds(d[k], dead, value, clock, i);
                if k < da.len() {
                    assert(d[k] == da[k]);
                } else {
                    assert(d[k] == db[k - da.len()]);
                }
            }
        },
        _ => {
            assert(disjuncts(c)[0] == c);
        },
    }
}

impl Condition {
    pub fn contains_until(&self) -> (r: bool)
        ensures
            r == has_until(*self),
        decreases self,
    {
        match self {
            Condition::Until(_, _) => true,
            Condition::Not(c) => c.contains_until(),
            Condition::Next(c) => c.contains_until(),
            Condition::And(c1, c2) => c1.contains_until() || c2.contains_until(),
            Condition::Or(c1, c2) => c1.contains_until() || c2.contains_until(),
            Condition::Implies(c1, c2) => c1.contains_until() || c2.contains_until(),
            _ => false,
        }
    }

    pub fn is_state_condition(&self) -> (r: bool)
        ensures
            r == state_only(*self),
        decreases self,
    {
        match self {
            Condition::Until(_, _) => false,
            Condition::Next(_) => false,
            Condition::Not(c) => c.is_state_condition(),
            Condition::And(c1, c2) => c1.is_state_condition() && c2.is_state_condition(),
            Condition::Or(c1, c2) => c1.is_state_condition() && c2.is_state_condition(),
            Condition::Implies(c1, c2) => c1.is_state_condition() && c2.is_state_condition(),
            _ => true,
        }
    }

    pub fn contains_clock_proposition(&self) -> (r: bool)
        ensures
            r == has_clock(*self),
        decreases self,
    {
        match self {
            Condition::Next(c) => c.contains_clock_proposition(),
            Condition::Not(c) => c.contains_clock_proposition(),
            Condition::And(c1, c2) => c1.contains_clock_proposition()
                || c2.contains_clock_proposition(),
            Condition::Or(c1, c2) => c1.contains_clock_proposition()
                || c2.contains_clock_proposition(),
            Condition::Until(c1, c2) => c1.contains_clock_proposition()
                || c2.contains_clock_proposition(),
            Condition::Implies(c1, c2) => c1.contains_clock_proposition()
                || c2.contains_clock_proposition(),
            Condition::ClockComparison(_, _, _) => true,
            _ => false,
        }
    }

    pub fn is_clock_guard(&self) -> (r: bool)
        ensures
            r == clock_guard(*self),
        decreases self,
    {
        match self {
            Condition::Next(_) => false,
            Condition::Until(_, _) => false,
            Condition::Not(c) => c.is_clock_guard(),
            Condition::And(c1, c2) => c1.is_clock_guard() && c2.is_clock_guard(),
            Condition::Or(c1, c2) => c1.is_clock_guard() && c2.is_clock_guard(),
            Condition::Implies(c1, c2) => c1.is_clock_guard() && c2.is_clock_guard(),
            Condition::ClockComparison(_, _, _) => true,
            Condition::True => true,
            Condition::False => true,
            _ => false,
        }
    }

    /// This condition with the comparisons on `clock` replaced by `True`.
    pub fn remove_clock(&self, clock: &ModelClock) -> (r: Condition)
        ensures
            r == clock_removed(*self, clock.index),
        decreases self,
    {
        match self {
            Condition::Next(c) | Condition::Not(c) => {
                if let Condition::ClockComparison(_, cond_clock, _) = &**c {
                    if cond_clock.get_index() == clock.get_index() {
                        return Condition::True;
                    }
                }
                self.clone()
            },
            Condition::And(c1, c2) => c1.remove_clock(clock) & c2.remove_clock(clock),
            Condition::Or(c1, c2) => c1.remove_clock(clock) | c2.remove_clock(clock),
            Condition::Until(c1, c2) => Condition::Until(
                Box::new(c1.remove_clock(clock)),
                Box::new(c2.remove_clock(clock)),
            ),
            Condition::Implies(c1, c2) => Condition::Implies(
                Box::new(c1.remove_clock(clock)),
                Box::new(c2.remove_clock(clock)),
            ),
            Condition::ClockComparison(_, c, _) => {
                if c.get_index() == clock.get_index() {
                    return Condition::True;
                }
                self.clone()
            },
            _ => self.clone(),
        }
    }

    /// This condition with its negations pushed down towards the comparisons.
    pub fn distribute_not(&self) -> (r: Condition)
        ensures
            r == distributed(*self),
        decreases size(*self),
    {
        match self {
            Condition::Not(c) => {
                let sub = Condition::clone(c);
                let ghost g = sub;
                assert(size(*self) == 1 + size(g));
                match sub {
                    Condition::True => Condition::False,
                    Condition::False => Condition::True,
                    Condition::Proposition(op, e1, e2) => Condition::Proposition(Not::not(op), e1, e2),
                    Condition::ClockComparison(op, k, v) => Condition::ClockComparison(Not::not(op), k, v),
                    Condition::And(c1, c2) => {
                        proof {
                            assert(size(g) == 1 + size(*c1) + size(*c2));
                            assert(size(Condition::Not(c1)) == 1 + size(*c1));
                            assert(size(Condition::Not(c2)) == 1 + size(*c2));
                        }
                        Condition::Not(c1).distribute_not() | Condition::Not(c2).distribute_not()
                    },
                    Condition::Or(c1, c2) => {
                        proof {
                            assert(size(g) == 1 + size(*c1) + size(*c2));
                            assert(size(Condition::Not(c1)) == 1 + size(*c1));
                            assert(size(Condition::Not(c2)) == 1 + size(*c2));
                        }
                        Condition::Not(c1).distribute_not() & Condition::Not(c2).distribute_not()
                    },
                    Condition::Next(s) => {
                        proof {
                            assert(size(g) == 1 + size(*s));
                            assert(size(Condition::Not(s)) == 1 + size(*s));
                        }
                        Condition::Next(Box::new(Condition::Not(s).distribute_not()))
                    },
                    Condition::Implies(c1, c2) => {
                        proof {
                            assert(size(g) == 1 + size(*c1) + size(*c2));
                            assert(size(Condition::Not(c2)) == 1 + size(*c2));
                        }
                        c1.distribute_not() & Condition::Not(c2).distribute_not()
                    },
                    Condition::Not(s) => s.distribute_not(),
                    other => Condition::Not(Box::new(other.distribute_not())),
                }
            },
            Condition::And(c1, c2) => c1.distribute_not() & c2.distribute_not(),
            Condition::Or(c1, c2) => c1.distribute_not() | c2.distribute_not(),
            Condition::Until(c1, c2) => Condition::Until(
                Box::new(c1.distribute_not()),
                Box::new(c2.distribute_not()),
            ),
            Condition::Implies(c1, c2) => Condition::Implies(
                Box::new(c1.distribute_not()),
                Box::new(c2.distribute_not()),
            ),
            Condition::Next(c) => Condition::Next(Box::new(c.distribute_not())),
            _ => self.clone(),
        }
    }

    /// The disjuncts of this condition, from left to right.
    pub fn conjunctions(&self) -> (r: Vec<Condition>)
        ensures
            r@ == disjuncts(*self),
        decreases self,
    {
        match self {
            Condition::Or(a, b) => {
                let mut conjs = a.conjunctions();
                let mut rest = b.conjunctions();
                conjs.append(&mut rest);
                conjs
            },
            _ => vec![self.clone()],
        }
    }

    /// This condition with its comparisons `<` and `<=` turned around.
    pub fn to_greater_eq(&self) -> (r: Condition)
        ensures
            r == greater_form(*self),
        decreases self,
    {
        match self {
            Condition::Not(c) => Not::not(c.to_greater_eq()),
            Condition::And(c1, c2) => c1.to_greater_eq() & c2.to_greater_eq(),
            Condition::Or(c1, c2) => c1.to_greater_eq() | c2.to_greater_eq(),
            Condition::Until(c1, c2) => Condition::Until(
                Box::new(c1.to_greater_eq()),
                Box::new(c2.to_greater_eq()),
            ),
            Condition::Implies(c1, c2) => Condition::Implies(
                Box::new(c1.to_greater_eq()),
                Box::new(c2.to_greater_eq()),
            ),
            Condition::Next(c) => Condition::Next(Box::new(c.to_greater_eq())),
            Condition::Proposition(op, e1, e2) => {
                match op {
                    PropositionType::LS => Condition::Proposition(
                        PropositionType::GS,
                        e2.clone(),
                        e1.clone(),
                    ),
                    PropositionType::LE => Condition::Proposition(
                        PropositionType::GE,
                        e2.clone(),
                        e1.clone(),
                    ),
                    _ => Condition::Proposition(*op, e1.clone(), e2.clone()),
                }
            },
            Condition::Evaluation(e) => Condition::Evaluation(e.clone()),
            _ => self.clone(),
        }
    }

    /// This condition with its comparisons `>` and `>=` turned around.
    pub fn to_lesser_eq(&self) -> (r: Condition)
        ensures
            r == lesser_form(*self),
        decreases self,
    {
        match self {
            Condition::Not(c) => Not::not(c.to_lesser_eq()),
            Condition::And(c1, c2) => c1.to_lesser_eq() & c2.to_lesser_eq(),
            Condition::Or(c1, c2) => c1.to_lesser_eq() | c2.to_lesser_eq(),
            Condition::Until(c1, c2) => Condition::Until(
                Box::new(c1.to_lesser_eq()),
                Box::new(c2.to_lesser_eq()),
            ),
            Condition::Implies(c1, c2) => Condition::Implies(
                Box::new(c1.to_lesser_eq()),
                Box::new(c2.to_lesser_eq()),
            ),
            Condition::Next(c) => Condition::Next(Box::new(c.to_lesser_eq())),
            Condition::Proposition(op, e1, e2) => {
                match op {
                    PropositionType::GS => Condition::Proposition(
                        PropositionType::LS,
                        e2.clone(),
                        e1.clone(),
                    ),
                    PropositionType::GE => Condition::Proposition(
                        PropositionType::LE,
                        e2.clone(),
                        e1.clone(),
                    ),
                    _ => Condition::Proposition(*op, e1.clone(), e2.clone()),
                }
            },
            Condition::Evaluation(e) => Condition::Evaluation(e.clone()),
            _ => self.clone(),
        }
    }

    /// Whether this condition is the default one, `True`.
    pub fn is_default(&self) -> (r: bool)
        ensures
            r == (*self is True),
    {
        matches!(self, Condition::True)
    }
}

impl Default for Condition {
    fn default() -> (r: Self)
        ensures
            r == Condition::True,
    {
        Condition::True
    }
}

impl vstd::std_specs::ops::NotSpecImpl for Condition {
    open spec fn obeys_not_spec() -> bool {
        false
    }

    open spec fn not_req(self) -> bool {
        true
    }

    open spec fn not_spec(self) -> Condition {
        self
    }
}

impl Not for Condition {
    type Output = Self;

    fn not(self) -> (r: Self)
        ensures
            r == negation(self),
    {
        match self {
            Condition::True => Condition::False,
            Condition::False => Condition::True,
            c => Condition::Not(Box::new(c)),
        }
    }
}

impl vstd::std_specs::ops::BitAndSpecImpl for Condition {
    open spec fn obeys_bitand_spec() -> bool {
        false
    }

    open spec fn bitand_req(self, rhs: Condition) -> bool {
        true
    }

    open spec fn bitand_spec(self, rhs: Condition) -> Condition {
        self
    }
}

impl BitAnd for Condition {
    type Output = Self;

    fn bitand(self, rhs: Self) -> (r: Self)
        ensures
            r == conj(self, rhs),
    {
        match (self, rhs) {
            (Condition::True, Condition::True) => Condition::True,
            (Condition::False, _) | (_, Condition::False) => Condition::False,
            (Condition::True, c) | (c, Condition::True) => c,
            (a, b) => Condition::And(Box::new(a), Box::new(b)),
        }
    }
}

impl vstd::std_specs::ops::BitOrSpecImpl for Condition {
    open spec fn obeys_bitor_spec() -> bool {
        false
    }

    open spec fn bitor_req(self, rhs: Condition) -> bool {
        true
    }

    open spec fn bitor_spec(self, rhs: Condition) -> Condition {
        self
    }
}

impl BitOr for Condition {
    type Output = Self;

    fn bitor(self, rhs: Self) -> (r: Self)
        ensures
            r == disj(self, rhs),
    {
        match (self, rhs) {
            (Condition::False, Condition::False) => Condition::False,
            (Condition::True, _) | (_, Condition::True) => Condition::True,
            (Condition::False, c) | (c, Condition::False) => c,
            (a, b) => Condition::Or(Box::new(a), Box::new(b)),
        }
    }
}

impl BitAndAssign for Condition {
    fn bitand_assign(&mut self, rhs: Self)
        ensures
            *final(self) == conj(*old(self), rhs),
    {
        let mut cond = Condition::True;
        std::mem::swap(&mut cond, self);
        *self = cond & rhs;
    }
}

impl BitOrAssign for Condition {
    fn bitor_assign(&mut self, rhs: Self)
        ensures
            *final(self) == disj(*old(self), rhs),
    {
        let mut cond = Condition::True;
        std::mem::swap(&mut cond, self);
        *self = cond | rhs;
    }
}

} // verus!
