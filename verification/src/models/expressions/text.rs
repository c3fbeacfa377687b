use super::{Condition, Expr, PropositionType};
use crate::models::node::{signed_decimal, signed_decimal_text};
use vstd::prelude::*;
use vstd::string::StringExecFns;

verus! {

/// The symbol of a comparison.
pub open spec fn op_text(op: PropositionType) -> Seq<char> {
    match op {
        PropositionType::EQ => "=="@,
        PropositionType::NE => "!="@,
        PropositionType::LE => "<="@,
        PropositionType::GE => ">="@,
        PropositionType::LS => "<"@,
        PropositionType::GS => ">"@,
    }
}

/// `a` and `b` between brackets, `mid` between them.
pub open spec fn bracketed(a: Seq<char>, mid: Seq<char>, b: Seq<char>) -> Seq<char> {
    "("@ + a + mid + b + ")"@
}

/// The written form of an expression: variables by name, operations between brackets.
pub open spec fn expr_text(e: Expr) -> Seq<char>
    decreases e,
{
    match e {
        Expr::Var(v) => v.var_name(),
        Expr::Constant(i) => signed_decimal(i as int),
        Expr::Plus(a, b) => bracketed(expr_text(*a), " + "@, expr_text(*b)),
        Expr::Minus(a, b) => bracketed(expr_text(*a), " - "@, expr_text(*b)),
        Expr::Multiply(a, b) => bracketed(expr_text(*a), " * "@, expr_text(*b)),
        Expr::Negative(a) => "-"@ + expr_text(*a),
        Expr::Modulo(a, b) => bracketed(expr_text(*a), " % "@, expr_text(*b)),
        Expr::Pow(a, b) => bracketed(expr_text(*a), " ^ "@, expr_text(*b)),
    }
}

/// The written form of a condition.
pub open spec fn condition_text(c: Condition) -> Seq<char>
    decreases c,
{
    match c {
        Condition::True => "true"@,
        Condition::False => "false"@,
        Condition::Deadlock => "deadlock"@,
        Condition::Evaluation(e) => expr_text(e),
        Condition::ClockComparison(op, k, i) => bracketed(
            k.name@,
            " "@ + op_text(op) + " "@,
            signed_decimal(i as int),
        ),
        Condition::Proposition(op, a, b) => bracketed(
            expr_text(a),
            " "@ + op_text(op) + " "@,
            expr_text(b),
        ),
        Condition::And(a, b) => bracketed(condition_text(*a), " && "@, condition_text(*b)),
        Condition::Or(a, b) => bracketed(condition_text(*a), " || "@, condition_text(*b)),
        Condition::Not(a) => "!"@ + condition_text(*a),
        Condition::Implies(a, b) => bracketed(condition_text(*a), " => "@, condition_text(*b)),
        Condition::Next(a) => "(X"@ + condition_text(*a) + ")"@,
        Condition::Until(a, b) => bracketed(condition_text(*a), " U "@, condition_text(*b)),
    }
}

/// `a` and `b` between brackets, `mid` between them.
fn bracket(a: String, mid: &str, b: String) -> (s: String)
    ensures
        s@ == bracketed(a@, mid@, b@),
{
    let mut s = "(".to_owned();
    s.append(a.as_str());
    s.append(mid);
    s.append(b.as_str());
    s.append(")");
    s
}

impl PropositionType {
    /// The symbol of the comparison.
    pub fn text(&self) -> (s: &'static str)
        ensures
            s@ == op_text(*self),
    {
        match self {
            PropositionType::EQ => "==",
            PropositionType::NE => "!=",
            PropositionType::LE => "<=",
            PropositionType::GE => ">=",
            PropositionType::LS => "<",
            PropositionType::GS => ">",
        }
    }
}

impl Expr {
    /// The written form of the expression.
    pub fn to_text(&self) -> (s: String)
        ensures
            s@ == expr_text(*self),
        decreases self,
    {
        match self {
            Expr::Var(v) => v.get_name().as_str().to_owned(),
            Expr::Constant(i) => signed_decimal_text(*i),
            Expr::Plus(a, b) => bracket(a.to_text(), " + ", b.to_text()),
            Expr::Minus(a, b) => bracket(a.to_text(), " - ", b.to_text()),
            Expr::Multiply(a, b) => bracket(a.to_text(), " * ", b.to_text()),
            Expr::Negative(a) => {
                let mut s = "-".to_owned();
                s.append(a.to_text().as_str());
                s
            },
            Expr::Modulo(a, b) => bracket(a.to_text(), " % ", b.to_text()),
            Expr::Pow(a, b) => bracket(a.to_text(), " ^ ", b.to_text()),
        }
    }
}

impl Condition {
    /// The written form of the condition.
    pub fn to_text(&self) -> (s: String)
        ensures
            s@ == condition_text(*self),
        decreases self,
    {
        match self {
            Condition::True => "true".to_owned(),
            Condition::False => "false".to_owned(),
            Condition::Deadlock => "deadlock".to_owned(),
            Condition::Evaluation(e) => e.to_text(),
            Condition::ClockComparison(op, k, i) => {
                let mut mid = " ".to_owned();
                mid.append(op.text());
                mid.append(" ");
                bracket(k.name.as_str().to_owned(), mid.as_str(), signed_decimal_text(*i))
            },
            Condition::Proposition(op, a, b) => {
                let mut mid = " ".to_owned();
                mid.append(op.text());
                mid.append(" ");
                bracket(a.to_text(), mid.as_str(), b.to_text())
            },
            Condition::And(a, b) => bracket(a.to_text(), " && ", b.to_text()),
            Condition::Or(a, b) => bracket(a.to_text(), " || ", b.to_text()),
            Condition::Not(a) => {
                let mut s = "!".to_owned();
                s.append(a.to_text().as_str());
                s
            },
            Condition::Implies(a, b) => bracket(a.to_text(), " => ", b.to_text()),
            Condition::Next(a) => {
                let mut s = "(X".to_owned();
                s.append(a.to_text().as_str());
                s.append(")");
                s
            },
            Condition::Until(a, b) => bracket(a.to_text(), " U ", b.to_text()),
        }
    }
}

} // verus!
