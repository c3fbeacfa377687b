use std::ops::{BitAnd, BitOr, Not};

use crate::models::expressions::PropositionType;
use crate::models::model_clock::ModelClock;
use crate::models::model_var::ModelVar;
use vstd::prelude::*;

verus! {

/// The outcome of checking a condition on a state: it holds, it does not, or it depends on
/// what comes next.
#[derive(Debug, Clone, Copy, PartialEq, Eq, Structural)]
pub enum VerificationStatus {
    Verified,
    Unverified,
    Maybe,
}

/// Both outcomes, in three-valued logic: a failure wins, then an open outcome.
pub open spec fn status_and(a: VerificationStatus, b: VerificationStatus) -> VerificationStatus {
    if a is Unverified || b is Unverified {
        VerificationStatus::Unverified
    } else if a is Maybe || b is Maybe {
        VerificationStatus::Maybe
    } else {
        VerificationStatus::Verified
    }
}

/// Either outcome, in three-valued logic: a success wins, then an open outcome.
pub open spec fn status_or(a: VerificationStatus, b: VerificationStatus) -> VerificationStatus {
    if a is Verified || b is Verified {
        VerificationStatus::Verified
    } else if a is Maybe || b is Maybe {
        VerificationStatus::Maybe
    } else {
        VerificationStatus::Unverified
    }
}

/// The opposite outcome; an open outcome stays open.
pub open spec fn status_not(a: VerificationStatus) -> VerificationStatus {
    match a {
        VerificationStatus::Verified => VerificationStatus::Unverified,
        VerificationStatus::Unverified => VerificationStatus::Verified,
        VerificationStatus::Maybe => VerificationStatus::Maybe,
    }
}

impl VerificationStatus {
    /// Whether the condition was found to hold.
    pub fn good(&self) -> (r: bool)
        ensures
            r == (*self is Verified),
    {
        matches!(self, VerificationStatus::Verified)
    }
}

impl vstd::std_specs::ops::BitAndSpecImpl for VerificationStatus {
    open spec fn obeys_bitand_spec() -> bool {
        true
    }

    open spec fn bitand_req(self, rhs: VerificationStatus) -> bool {
        true
    }

    open spec fn bitand_spec(self, rhs: VerificationStatus) -> VerificationStatus {
        status_and(self, rhs)
    }
}

impl BitAnd for VerificationStatus {
    type Output = VerificationStatus;

    fn bitand(self, rhs: Self) -> (r: Self)
        ensures
            r == status_and(self, rhs),
    {
        match (self, rhs) {
            (VerificationStatus::Unverified, _) | (_, VerificationStatus::Unverified) => VerificationStatus::Unverified,
            (VerificationStatus::Maybe, _) | (_, VerificationStatus::Maybe) => VerificationStatus::Maybe,
            _ => VerificationStatus::Verified,
        }
    }
}

impl vstd::std_specs::ops::BitOrSpecImpl for VerificationStatus {
    open spec fn obeys_bitor_spec() -> bool {
        true
    }

    open spec fn bitor_req(self, rhs: VerificationStatus) -> bool {
        true
    }

    open spec fn bitor_spec(self, rhs: VerificationStatus) -> VerificationStatus {
        status_or(self, rhs)
    }
}

impl BitOr for VerificationStatus {
    type Output = VerificationStatus;

    fn bitor(self, rhs: Self) -> (r: Self)
        ensures
            r == status_or(self, rhs),
    {
        match (self, rhs) {
            (VerificationStatus::Verified, _) | (_, VerificationStatus::Verified) => VerificationStatus::Verified,
            (VerificationStatus::Maybe, _) | (_, VerificationStatus::Maybe) => VerificationStatus::Maybe,
            _ => VerificationStatus::Unverified,
        }
    }
}

impl vstd::std_specs::ops::NotSpecImpl for VerificationStatus {
    open spec fn obeys_not_spec() -> bool {
        true
    }

    open spec fn not_req(self) -> bool {
        true
    }

    open spec fn not_spec(self) -> VerificationStatus {
        status_not(self)
    }
}

impl Not for VerificationStatus {
    type Output = VerificationStatus;

    fn not(self) -> (r: Self)
        ensures
            r == status_not(self),
    {
        match self {
            VerificationStatus::Verified => VerificationStatus::Unverified,
            VerificationStatus::Unverified => VerificationStatus::Verified,
            VerificationStatus::Maybe => VerificationStatus::Maybe,
        }
    }
}

/// A state on which conditions can be checked: the states of the models implement it.
pub trait Verifiable {
    /// Whether the state is a deadlock.
    spec fn deadlocked(&self) -> bool;

    /// Whether the variable `var` can be read in the state.
    spec fn readable(&self, var: ModelVar) -> bool;

    /// The value of a readable variable in the state.
    spec fn var_value(&self, var: ModelVar) -> i32;

    /// Whether the value of `clock` in the state compares to `bound` by `op`.
    spec fn clock_compares(&self, op: PropositionType, clock: ModelClock, bound: i32) -> bool;

    fn evaluate_var(&self, var: &ModelVar) -> (r: i32)
        requires
            self.readable(*var),
        ensures
            r == self.var_value(*var),
    ;

    fn compare_clock(&self, op: PropositionType, clock: &ModelClock, bound: i32) -> (r: bool)
        ensures
            r == self.clock_compares(op, *clock, bound),
    ;

    fn is_deadlocked(&self) -> (r: bool)
        ensures
            r == self.deadlocked(),
    ;
}

} // verus!
