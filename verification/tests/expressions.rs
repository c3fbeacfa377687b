use sally::models::expressions::{Condition, Expr, PropositionType};
use sally::models::label::lbl;
use sally::models::model_clock::ModelClock;
use sally::models::model_var::var;

fn x_le_3() -> Condition {
    Condition::Proposition(PropositionType::LE, Expr::Var(var("x")), Expr::Constant(3))
}

fn y_gs_1() -> Condition {
    Condition::Proposition(PropositionType::GS, Expr::Var(var("y")), Expr::Constant(1))
}

fn clock(index: usize) -> ModelClock {
    let mut c = ModelClock::name(lbl("c"));
    c.index = index;
    c
}

#[test]
fn negating_a_comparison_gives_its_complement() {
    assert_eq!(!PropositionType::EQ, PropositionType::NE);
    assert_eq!(!PropositionType::NE, PropositionType::EQ);
    assert_eq!(!PropositionType::LE, PropositionType::GS);
    assert_eq!(!PropositionType::GE, PropositionType::LS);
    assert_eq!(!PropositionType::LS, PropositionType::GE);
    assert_eq!(!PropositionType::GS, PropositionType::LE);
}

#[test]
fn smart_constructors_fold_constants() {
    assert_eq!(Condition::True & x_le_3(), x_le_3());
    assert_eq!(x_le_3() & Condition::False, Condition::False);
    assert_eq!(Condition::False | x_le_3(), x_le_3());
    assert_eq!(x_le_3() | Condition::True, Condition::True);
    assert_eq!(!Condition::True, Condition::False);
    assert_eq!(!Condition::False, Condition::True);
    assert_eq!(!x_le_3(), Condition::Not(Box::new(x_le_3())));
    assert_eq!(x_le_3() & y_gs_1(), Condition::And(Box::new(x_le_3()), Box::new(y_gs_1())));
    assert_eq!(x_le_3() | y_gs_1(), Condition::Or(Box::new(x_le_3()), Box::new(y_gs_1())));
}

#[test]
fn assigning_operators_combine_in_place() {
    let mut c = Condition::True;
    c &= x_le_3();
    assert_eq!(c, x_le_3());
    c |= y_gs_1();
    assert_eq!(c, Condition::Or(Box::new(x_le_3()), Box::new(y_gs_1())));
    c &= Condition::False;
    assert_eq!(c, Condition::False);
}

#[test]
fn distribute_not_pushes_negations_to_the_leaves() {
    let c = !(x_le_3() & y_gs_1());
    let expected = Condition::Or(
        Box::new(Condition::Proposition(PropositionType::GS, Expr::Var(var("x")), Expr::Constant(3))),
        Box::new(Condition::Proposition(PropositionType::LE, Expr::Var(var("y")), Expr::Constant(1))),
    );
    assert_eq!(c.distribute_not(), expected);
}

#[test]
fn distribute_not_removes_double_negation_and_constants() {
    let c = Condition::Not(Box::new(Condition::Not(Box::new(x_le_3()))));
    assert_eq!(c.distribute_not(), x_le_3());
    let t = Condition::Not(Box::new(Condition::True));
    assert_eq!(t.distribute_not(), Condition::False);
    let imp = Condition::Not(Box::new(Condition::Implies(Box::new(x_le_3()), Box::new(y_gs_1()))));
    let expected = Condition::And(
        Box::new(x_le_3()),
        Box::new(Condition::Proposition(PropositionType::LE, Expr::Var(var("y")), Expr::Constant(1))),
    );
    assert_eq!(imp.distribute_not(), expected);
}

#[test]
fn to_greater_eq_turns_lesser_comparisons_around() {
    let expected = Condition::Proposition(PropositionType::GE, Expr::Constant(3), Expr::Var(var("x")));
    assert_eq!(x_le_3().to_greater_eq(), expected);
    assert_eq!(y_gs_1().to_greater_eq(), y_gs_1());
}

#[test]
fn to_lesser_eq_turns_greater_comparisons_around() {
    let expected = Condition::Proposition(PropositionType::LS, Expr::Constant(1), Expr::Var(var("y")));
    assert_eq!(y_gs_1().to_lesser_eq(), expected);
    assert_eq!(x_le_3().to_lesser_eq(), x_le_3());
}

#[test]
fn conjunctions_lists_the_disjuncts_in_order() {
    let c = Condition::Or(
        Box::new(Condition::Or(Box::new(x_le_3()), Box::new(y_gs_1()))),
        Box::new(Condition::Deadlock),
    );
    assert_eq!(c.conjunctions(), vec![x_le_3(), y_gs_1(), Condition::Deadlock]);
    assert_eq!(x_le_3().conjunctions(), vec![x_le_3()]);
}

#[test]
fn kinds_of_conditions_are_recognised() {
    let until = Condition::Until(Box::new(x_le_3()), Box::new(Condition::Deadlock));
    assert!(until.contains_until());
    assert!(!until.is_state_condition());
    assert!(!x_le_3().contains_until());
    assert!(x_le_3().is_state_condition());
    let next = Condition::Next(Box::new(x_le_3()));
    assert!(!next.is_state_condition());
    let guard = Condition::ClockComparison(PropositionType::LE, clock(0), 5) & Condition::True;
    assert!(guard.is_clock_guard());
    assert!(guard.contains_clock_proposition());
    assert!(!x_le_3().is_clock_guard());
    assert!(!x_le_3().contains_clock_proposition());
}

#[test]
fn remove_clock_drops_the_comparisons_of_that_clock() {
    let c = Condition::ClockComparison(PropositionType::LE, clock(0), 5)
        & Condition::ClockComparison(PropositionType::GE, clock(1), 2);
    let expected = Condition::ClockComparison(PropositionType::GE, clock(1), 2);
    assert_eq!(c.remove_clock(&clock(0)), expected);
    let d = Condition::ClockComparison(PropositionType::LE, clock(0), 5) | x_le_3();
    assert_eq!(d.remove_clock(&clock(0)), Condition::True);
}

#[test]
fn default_condition_is_true() {
    assert_eq!(Condition::default(), Condition::True);
    assert!(Condition::default().is_default());
    assert!(!x_le_3().is_default());
}

#[test]
fn conditions_are_written_with_brackets() {
    assert_eq!(PropositionType::GE.text(), ">=");
    let e = Expr::Plus(Box::new(Expr::Var(var("x"))), Box::new(Expr::Constant(-4)));
    assert_eq!(e.to_text(), "(x + -4)");
    assert_eq!(Expr::Negative(Box::new(Expr::Constant(12))).to_text(), "-12");
    let c = Condition::And(Box::new(x_le_3()), Box::new(Condition::Not(Box::new(Condition::Deadlock))));
    assert_eq!(c.to_text(), "((x <= 3) && !deadlock)");
    let k = Condition::ClockComparison(PropositionType::LS, clock(0), 7);
    assert_eq!(k.to_text(), "(c < 7)");
    let n = Condition::Next(Box::new(Condition::Until(Box::new(Condition::True), Box::new(y_gs_1()))));
    assert_eq!(n.to_text(), "(X(true U (y > 1)))");
}

fn z_eq_0() -> Condition {
    Condition::Proposition(PropositionType::EQ, Expr::Var(var("z")), Expr::Constant(0))
}

fn and(a: Condition, b: Condition) -> Condition {
    Condition::And(Box::new(a), Box::new(b))
}

fn or(a: Condition, b: Condition) -> Condition {
    Condition::Or(Box::new(a), Box::new(b))
}

fn not(a: Condition) -> Condition {
    Condition::Not(Box::new(a))
}

fn next(a: Condition) -> Condition {
    Condition::Next(Box::new(a))
}

#[test]
fn disjunctive_normal_distributes_a_conjunction_over_a_disjunction() {
    let c = and(or(x_le_3(), y_gs_1()), z_eq_0());
    assert_eq!(c.disjunctive_normal(), or(and(x_le_3(), z_eq_0()), and(y_gs_1(), z_eq_0())));
    let c = and(z_eq_0(), or(x_le_3(), y_gs_1()));
    assert_eq!(c.disjunctive_normal(), or(and(x_le_3(), z_eq_0()), and(y_gs_1(), z_eq_0())));
}

#[test]
fn disjunctive_normal_multiplies_out_two_disjunctions() {
    let d = Condition::Deadlock;
    let c = and(or(x_le_3(), y_gs_1()), or(z_eq_0(), d.clone()));
    let expected = or(
        or(and(x_le_3(), z_eq_0()), and(x_le_3(), d.clone())),
        or(and(y_gs_1(), z_eq_0()), and(y_gs_1(), d)),
    );
    assert_eq!(c.disjunctive_normal(), expected);
}

#[test]
fn disjunctive_normal_pushes_negations_down() {
    let c = not(and(x_le_3(), y_gs_1()));
    let neg_x = Condition::Proposition(PropositionType::GS, Expr::Var(var("x")), Expr::Constant(3));
    let neg_y = Condition::Proposition(PropositionType::LE, Expr::Var(var("y")), Expr::Constant(1));
    assert_eq!(c.disjunctive_normal(), or(neg_x.clone(), neg_y.clone()));
    let c = not(or(x_le_3(), y_gs_1()));
    assert_eq!(c.disjunctive_normal(), and(neg_x, neg_y));
    assert_eq!(not(not(z_eq_0())).disjunctive_normal(), z_eq_0());
    assert_eq!(not(Condition::Deadlock).disjunctive_normal(), not(Condition::Deadlock));
}

#[test]
fn disjunctive_normal_unfolds_implications() {
    let c = Condition::Implies(Box::new(x_le_3()), Box::new(y_gs_1()));
    let neg_x = Condition::Proposition(PropositionType::GS, Expr::Var(var("x")), Expr::Constant(3));
    assert_eq!(c.disjunctive_normal(), or(neg_x, y_gs_1()));
}

#[test]
fn disjunctive_normal_distributes_next() {
    let c = next(or(x_le_3(), y_gs_1()));
    assert_eq!(c.disjunctive_normal(), or(next(x_le_3()), next(y_gs_1())));
    let c = next(and(x_le_3(), y_gs_1()));
    assert_eq!(c.disjunctive_normal(), and(next(x_le_3()), next(y_gs_1())));
    let c = not(next(x_le_3()));
    let neg_x = Condition::Proposition(PropositionType::GS, Expr::Var(var("x")), Expr::Constant(3));
    assert_eq!(c.disjunctive_normal(), next(neg_x));
}

#[test]
fn disjunctive_normal_keeps_until_and_rewrites_inside() {
    let inner = not(not(x_le_3()));
    let c = not(Condition::Until(Box::new(inner), Box::new(y_gs_1())));
    assert_eq!(
        c.disjunctive_normal(),
        not(Condition::Until(Box::new(x_le_3()), Box::new(y_gs_1())))
    );
    assert_eq!(Condition::True.disjunctive_normal(), Condition::True);
}

#[test]
fn conjunctive_normal_is_the_negated_disjunctive_form() {
    let c = or(and(x_le_3(), y_gs_1()), z_eq_0());
    let neg_x = Condition::Proposition(PropositionType::GS, Expr::Var(var("x")), Expr::Constant(3));
    let neg_y = Condition::Proposition(PropositionType::LE, Expr::Var(var("y")), Expr::Constant(1));
    let neg_z = Condition::Proposition(PropositionType::NE, Expr::Var(var("z")), Expr::Constant(0));
    assert_eq!(c.conjunctive_normal(), and(or(neg_x, neg_y), neg_z));
    assert_eq!(Condition::True.conjunctive_normal(), Condition::False);
}
