use std::marker::PhantomData;

use vstd::prelude::*;
use vstd::std_specs::cmp::PartialEqSpec;

verus! {

/// Whether `xs` is a run of `step` from `x0`: it starts at `x0` and each value is a step
/// from the one before.
pub open spec fn run_of<T>(step: spec_fn(T, T) -> bool, x0: T, xs: Seq<T>) -> bool {
    &&& xs.len() >= 1
    &&& xs[0] == x0
    &&& forall|m: int| #![trigger xs[m]] 0 <= m < xs.len() - 1 ==> step(xs[m], xs[m + 1])
}

/// Whether the values at positions `m` and `m + 1` of `xs` compare equal, in the order in
/// which `converge` compares them: the first step's value against the start, and after
/// that each value against the next one.
pub open spec fn stalls<T: PartialEq>(xs: Seq<T>, m: int) -> bool {
    if m == 0 {
        xs[1].eq_spec(&xs[0])
    } else {
        xs[m].eq_spec(&xs[m + 1])
    }
}

/// The value that `converge` hands back when the values at `m` and `m + 1` compare equal.
pub open spec fn kept<T>(xs: Seq<T>, m: int) -> T {
    if m == 0 {
        xs[1]
    } else {
        xs[m]
    }
}

/// A step function iterated towards a fixed point.
pub trait FixPoint<T: PartialEq>: Sized {
    /// Whether a step can be taken from `x`.
    spec fn can_step(&self, x: T) -> bool;

    /// Whether `y` is a value that a step from `x` may give.
    spec fn steps_to(&self, x: T, y: T) -> bool;

    fn next_step(&mut self, x: &T) -> (y: T)
        requires
            old(self).can_step(*x),
        ensures
            old(self).steps_to(*x, y),
            forall|a: T| #[trigger] final(self).can_step(a) == old(self).can_step(a),
            forall|a: T, b: T| #[trigger] final(self).steps_to(a, b) == old(self).steps_to(a, b),
    ;

    /// Iterates the step from `x0` until two successive values are equal, for at most
    /// `max_n` comparisons after the first one: the number of steps that preceded the
    /// fixed point and the fixed point.
    fn converge(&mut self, x0: &T, max_n: usize) -> (r: Option<(usize, T)>)
        requires
            forall|a: T| #[trigger] old(self).can_step(a),
        ensures
            forall|a: T| #[trigger] final(self).can_step(a),
            forall|a: T, b: T| #[trigger] final(self).steps_to(a, b) == old(self).steps_to(a, b),
            r matches Some((i, _)) ==> i <= max_n,
            T::obeys_eq_spec() ==> match r {
                Some((i, x)) => exists|xs: Seq<T>|
                    #![trigger xs.len()]
                    {
                        &&& run_of(|a: T, b: T| old(self).steps_to(a, b), *x0, xs)
                        &&& xs.len() == i + 2
                        &&& x == kept(xs, i as int)
                        &&& stalls(xs, i as int)
                        &&& forall|m: int| 0 <= m < i ==> !#[trigger] stalls(xs, m)
                    },
                None => exists|xs: Seq<T>|
                    #![trigger xs.len()]
                    {
                        &&& run_of(|a: T, b: T| old(self).steps_to(a, b), *x0, xs)
                        &&& xs.len() == max_n + 2
                        &&& forall|m: int| 0 <= m < max_n + 1 ==> !#[trigger] stalls(xs, m)
                    },
            },
    {
        let mut item1 = self.next_step(x0);
        let ghost xs1 = seq![*x0, item1];
        if item1 == *x0 {
            proof {
                assert(xs1.len() == 2);
                assert(run_of(|a: T, b: T| old(self).steps_to(a, b), *x0, xs1));
            }
            return Some((0, item1));
        }
        let mut item2 = self.next_step(&item1);
        let ghost mut xs = seq![*x0, item1, item2];
        proof {
            assert(stalls(xs, 0) == stalls(xs1, 0));
        }
        for i in 0..max_n
            invariant
                forall|a: T| #[trigger] self.can_step(a),
                forall|a: T, b: T| #[trigger] self.steps_to(a, b) == old(self).steps_to(a, b),
                xs.len() == i + 3,
                run_of(|a: T, b: T| old(self).steps_to(a, b), *x0, xs),
                xs[i + 1] == item1,
                xs[i + 2] == item2,
                T::obeys_eq_spec() ==> forall|m: int| 0 <= m < i + 1 ==> !#[trigger] stalls(xs, m),
        {
            if item1 == item2 {
                proof {
                    if T::obeys_eq_spec() {
                        assert(stalls(xs, i + 1));
                    }
                }
                return Some((i + 1, item1));
            }
            std::mem::swap(&mut item1, &mut item2);
            item2 = self.next_step(&item1);
            proof {
                let ghost ys = xs.push(item2);
                assert(forall|m: int| 0 <= m < i + 2 ==> #[trigger] stalls(ys, m) == stalls(xs, m));
                assert(run_of(|a: T, b: T| old(self).steps_to(a, b), *x0, ys)) by {
                    assert forall|m: int| 0 <= m < ys.len() - 1 implies old(self).steps_to(#[trigger] ys[m], ys[m + 1]) by {
                        if m < xs.len() - 1 {
                            assert(ys[m] == xs[m] && ys[m + 1] == xs[m + 1]);
                        }
                    }
                }
                xs = ys;
            }
        }
        proof {
            if T::obeys_eq_spec() {
                let ys = xs.subrange(0, max_n + 2);
                assert(ys.len() == max_n + 2);
                assert forall|m: int| 0 <= m < max_n + 1 implies #[trigger] stalls(ys, m) == stalls(xs, m) by {
                    assert(ys[m] == xs[m] && ys[m + 1] == xs[m + 1]);
                }
                assert(run_of(|a: T, b: T| old(self).steps_to(a, b), *x0, ys)) by {
                    assert forall|m: int| 0 <= m < ys.len() - 1 implies old(self).steps_to(#[trigger] ys[m], ys[m + 1]) by {
                        assert(ys[m] == xs[m] && ys[m + 1] == xs[m + 1]);
                    }
                }
            }
        }
        None
    }

    /// The fixed point reached from `x0`; every run of the step from `x0` must reach one.
    fn get_fix_point(&mut self, x0: &T) -> (r: T)
        requires
            T::obeys_eq_spec(),
            forall|a: T| #[trigger] old(self).can_step(a),
            forall|xs: Seq<T>|
                #![trigger xs.len()]
                run_of(|a: T, b: T| old(self).steps_to(a, b), *x0, xs) && xs.len() == usize::MAX + 2 ==> exists|m: int|
                    0 <= m < usize::MAX + 1 && #[trigger] stalls(xs, m),
        ensures
            exists|xs: Seq<T>|
                #![trigger xs.len()]
                {
                    &&& run_of(|a: T, b: T| old(self).steps_to(a, b), *x0, xs)
                    &&& xs.len() >= 2
                    &&& r == kept(xs, xs.len() - 2)
                    &&& stalls(xs, xs.len() - 2)
                    &&& forall|m: int| 0 <= m < xs.len() - 2 ==> !#[trigger] stalls(xs, m)
                },
    {
        let res = self.converge(x0, usize::MAX);
        match res {
            Some((_, x)) => x,
            None => {
                proof {
                    let xs = choose|xs: Seq<T>|
                        {
                            &&& run_of(|a: T, b: T| old(self).steps_to(a, b), *x0, xs)
                            &&& xs.len() == usize::MAX + 2
                            &&& forall|m: int| 0 <= m < usize::MAX + 1 ==> !#[trigger] stalls(xs, m)
                        };
                    assert(false);
                }
                self.next_step(x0)
            },
        }
    }
}

/// The sequence given by a recurrence.
#[verifier::reject_recursive_types(T)]
pub struct FSequence<T: PartialEq, F: Fn(&T) -> T> {
    pub recurrence: F,
    pub phantom: PhantomData<T>,
}

impl<T: PartialEq, F: Fn(&T) -> T> FSequence<T, F> {
    pub fn new(recurrence: F) -> (s: Self)
        ensures
            s.recurrence == recurrence,
    {
        FSequence { recurrence, phantom: PhantomData }
    }
}

impl<T: PartialEq, F: Fn(&T) -> T> FixPoint<T> for FSequence<T, F> {
    open spec fn can_step(&self, x: T) -> bool {
        call_requires(self.recurrence, (&x,))
    }

    open spec fn steps_to(&self, x: T, y: T) -> bool {
        call_ensures(self.recurrence, (&x,), y)
    }

    fn next_step(&mut self, x: &T) -> (y: T) {
        (self.recurrence)(x)
    }
}

} // verus!
