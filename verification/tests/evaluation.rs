use sally::models::expressions::{Condition, Expr, PropositionType};
use sally::models::label::lbl;
use sally::models::model_clock::ModelClock;
use sally::models::model_var::{ModelVar, VarType};
use sally::verification::VerificationStatus::{Maybe, Unverified, Verified};
use sally::verification::{Verifiable, VerificationStatus};

/// A state with two variables, one clock and a deadlock flag.
struct TestState {
    values: Vec<i32>,
    clock: i32,
    dead: bool,
}

impl Verifiable for TestState {
    fn deadlocked(&self) -> bool {
        self.dead
    }

    fn readable(&self, var: ModelVar) -> bool {
        var.get_address() < self.values.len()
    }

    fn var_value(&self, var: ModelVar) -> i32 {
        self.values[var.get_address()]
    }

    fn clock_compares(&self, op: PropositionType, clock: ModelClock, bound: i32) -> bool {
        self.compare_clock(op, &clock, bound)
    }

    fn evaluate_var(&self, var: &ModelVar) -> i32 {
        self.values[var.get_address()]
    }

    fn compare_clock(&self, op: PropositionType, _clock: &ModelClock, bound: i32) -> bool {
        match op {
            PropositionType::EQ => self.clock == bound,
            PropositionType::NE => self.clock != bound,
            PropositionType::LE => self.clock <= bound,
            PropositionType::GE => self.clock >= bound,
            PropositionType::LS => self.clock < bound,
            PropositionType::GS => self.clock > bound,
        }
    }

    fn is_deadlocked(&self) -> bool {
        self.dead
    }
}

fn x() -> Expr {
    Expr::Var(ModelVar::make_defined(lbl("x"), 0, VarType::VarI32))
}

fn y() -> Expr {
    Expr::Var(ModelVar::make_defined(lbl("y"), 1, VarType::VarI32))
}

fn c(e: i32) -> Expr {
    Expr::Constant(e)
}

fn state() -> TestState {
    TestState { values: vec![7, -3], clock: 4, dead: false }
}

#[test]
fn expressions_evaluate_like_rust_integers() {
    let s = state();
    assert_eq!(Expr::Plus(Box::new(x()), Box::new(y())).evaluate(&s), 4);
    assert_eq!(Expr::Minus(Box::new(x()), Box::new(y())).evaluate(&s), 10);
    assert_eq!(Expr::Multiply(Box::new(x()), Box::new(y())).evaluate(&s), -21);
    assert_eq!(Expr::Negative(Box::new(y())).evaluate(&s), 3);
    assert_eq!(Expr::Modulo(Box::new(x()), Box::new(c(3))).evaluate(&s), 1);
    assert_eq!(Expr::Modulo(Box::new(c(-7)), Box::new(c(3))).evaluate(&s), -1);
    assert_eq!(Expr::Modulo(Box::new(c(7)), Box::new(c(-3))).evaluate(&s), 1);
    assert_eq!(Expr::Pow(Box::new(y()), Box::new(c(3))).evaluate(&s), -27);
    assert_eq!(ModelVar::make_defined(lbl("x"), 0, VarType::VarI32).evaluate(&s), 7);
}

#[test]
fn state_conditions_are_decided() {
    let s = state();
    let p = Condition::Proposition(PropositionType::GS, x(), y());
    assert_eq!(p.evaluate(&s), (VerificationStatus::Verified, None));
    let q = Condition::Proposition(PropositionType::EQ, x(), c(0));
    assert_eq!(q.evaluate(&s), (VerificationStatus::Unverified, None));
    let both = Condition::And(Box::new(p.clone()), Box::new(q.clone()));
    assert_eq!(both.evaluate(&s).0, VerificationStatus::Unverified);
    let either = Condition::Or(Box::new(p.clone()), Box::new(q.clone()));
    assert!(either.is_true(&s));
    let imp = Condition::Implies(Box::new(q.clone()), Box::new(Condition::False));
    assert!(imp.is_true(&s));
    assert!(!Condition::Deadlock.is_true(&s));
    assert!(Condition::Evaluation(x()).is_true(&s));
    let k = Condition::ClockComparison(PropositionType::LE, ModelClock::new(), 4);
    assert!(k.is_true(&s));
}

#[test]
fn temporal_conditions_leave_a_condition_for_the_next_state() {
    let s = state();
    let p = Condition::Proposition(PropositionType::GS, x(), y());
    let q = Condition::Proposition(PropositionType::EQ, x(), c(0));
    let next = Condition::Next(Box::new(q.clone()));
    assert_eq!(next.evaluate(&s), (VerificationStatus::Maybe, Some(q.clone())));
    let until = Condition::Until(Box::new(p.clone()), Box::new(q.clone()));
    assert_eq!(until.evaluate(&s), (VerificationStatus::Maybe, Some(until.clone())));
    let done = Condition::Until(Box::new(q.clone()), Box::new(p.clone()));
    assert_eq!(done.evaluate(&s), (VerificationStatus::Verified, None));
    let failed = Condition::Until(Box::new(q.clone()), Box::new(q.clone()));
    assert_eq!(failed.evaluate(&s), (VerificationStatus::Unverified, None));
    let not_next = Condition::Not(Box::new(next.clone()));
    assert_eq!(not_next.evaluate(&s), (VerificationStatus::Maybe, Some(Condition::Not(Box::new(q.clone())))));
    let and_next = Condition::And(Box::new(p.clone()), Box::new(next.clone()));
    assert_eq!(and_next.evaluate(&s), (VerificationStatus::Maybe, Some(q.clone())));
}

#[test]
fn statuses_combine_in_three_valued_logic() {
    assert_eq!(Verified & Maybe, Maybe);
    assert_eq!(Unverified & Maybe, Unverified);
    assert_eq!(Verified | Maybe, Verified);
    assert_eq!(Unverified | Maybe, Maybe);
    assert_eq!(!Maybe, Maybe);
    assert_eq!(!Verified, Unverified);
    assert!(Verified.good());
    assert!(!Maybe.good());
}
