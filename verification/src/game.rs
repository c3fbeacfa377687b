use crate::models::label::Label;
use crate::models::model_characteristics::{join_parts, joined};
use vstd::prelude::*;

verus! {

/// A step of a run: a transition taken or a state reached, known by its label.
#[derive(Debug, PartialEq, Eq)]
pub enum RunElement {
    RunAction(Label),
    RunState(Label),
}

impl Clone for RunElement {
    fn clone(&self) -> (r: Self)
        ensures
            r == *self,
    {
        match self {
            RunElement::RunAction(l) => RunElement::RunAction(l.clone()),
            RunElement::RunState(l) => RunElement::RunState(l.clone()),
        }
    }
}

impl RunElement {
    /// The label of the transition or state.
    pub open spec fn spec_label(&self) -> Seq<char> {
        match self {
            RunElement::RunAction(l) => l@,
            RunElement::RunState(l) => l@,
        }
    }

    pub fn get_label(&self) -> (r: Label)
        ensures
            r@ == self.spec_label(),
    {
        match self {
            RunElement::RunAction(l) => l.clone(),
            RunElement::RunState(l) => l.clone(),
        }
    }

    fn label_str(&self) -> (r: &str)
        ensures
            r@ == self.spec_label(),
    {
        match self {
            RunElement::RunAction(l) => l.as_str(),
            RunElement::RunState(l) => l.as_str(),
        }
    }
}

/// Whether `e` is a transition.
pub open spec fn is_action(e: RunElement) -> bool {
    e is RunAction
}

/// Whether `e` is a state.
pub open spec fn is_state(e: RunElement) -> bool {
    e is RunState
}

/// A run of a model: the transitions and states met, in order.
#[derive(Debug, PartialEq, Eq)]
pub struct Run {
    elements: Vec<RunElement>,
}

impl View for Run {
    type V = Seq<RunElement>;

    closed spec fn view(&self) -> Seq<RunElement> {
        self.elements@
    }
}

/// The elements of `s` that are transitions, when `actions`, or states otherwise.
pub open spec fn selected(s: Seq<RunElement>, actions: bool) -> Seq<RunElement> {
    s.filter(keeps(actions))
}

/// Whether an element is a transition, when `actions`, or a state otherwise.
pub open spec fn keeps(actions: bool) -> spec_fn(RunElement) -> bool {
    |e: RunElement| if actions { is_action(e) } else { is_state(e) }
}

impl Clone for Run {
    fn clone(&self) -> (r: Self)
        ensures
            r@ == self@,
    {
        let mut r: Vec<RunElement> = Vec::new();
        let mut i: usize = 0;
        while i < self.elements.len()
            invariant
                i <= self.elements.len(),
                r@ == self.elements@.take(i as int),
            decreases self.elements.len() - i,
        {
            r.push(self.elements[i].clone());
            i += 1;
            assert(r@ =~= self.elements@.take(i as int));
        }
        assert(self.elements@.take(self.elements.len() as int) =~= self.elements@);
        Run { elements: r }
    }
}

/// Copies of the transitions of `elements`, when `actions`, or of its states otherwise, in
/// order.
fn select(elements: &Vec<RunElement>, actions: bool) -> (r: Vec<RunElement>)
    ensures
        r@ == selected(elements@, actions),
{
    let ghost keep = keeps(actions);
    let mut r: Vec<RunElement> = Vec::new();
    let mut i: usize = 0;
    while i < elements.len()
        invariant
            i <= elements.len(),
            keep == keeps(actions),
            r@ == elements@.take(i as int).filter(keep),
        decreases elements.len() - i,
    {
        let e = &elements[i];
        let take = match e {
            RunElement::RunAction(_) => actions,
            RunElement::RunState(_) => !actions,
        };
        proof {
            assert(elements@.take(i + 1) =~= elements@.take(i as int).push(elements@[i as int]));
            elements@.take(i as int).lemma_filter_push(elements@[i as int], keep);
        }
        if take {
            r.push(e.clone());
        }
        i += 1;
    }
    assert(elements@.take(elements.len() as int) =~= elements@);
    r
}

impl Run {
    pub fn empty() -> (r: Run)
        ensures
            r@ == Seq::<RunElement>::empty(),
    {
        Run { elements: Vec::new() }
    }

    /// The run made of the transitions of this run alone.
    pub fn get_actions_seq(&self) -> (r: Run)
        ensures
            r@ == selected(self@, true),
    {
        Run { elements: select(&self.elements, true) }
    }

    /// The run made of the states of this run alone.
    pub fn get_states_seq(&self) -> (r: Run)
        ensures
            r@ == selected(self@, false),
    {
        Run { elements: select(&self.elements, false) }
    }

    /// Number of transitions taken in the run.
    pub fn steps_count(&self) -> (r: usize)
        ensures
            r == selected(self@, true).len(),
    {
        self.get_actions_seq().elements.len()
    }

    /// Removes the last element of the run and gives it back, if there is one.
    pub fn pop(&mut self) -> (r: Option<RunElement>)
        ensures
            old(self)@.len() == 0 ==> r is None && final(self)@ == old(self)@,
            old(self)@.len() > 0 ==> r == Some(old(self)@.last()) && final(self)@ == old(
                self,
            )@.drop_last(),
    {
        self.elements.pop()
    }

    /// Appends `el` to the run.
    pub fn push(&mut self, el: RunElement)
        ensures
            final(self)@ == old(self)@.push(el),
    {
        self.elements.push(el);
    }

    /// Appends the state labelled `state` to the run.
    pub fn push_state(&mut self, state: Label)
        ensures
            final(self)@ == old(self)@.push(RunElement::RunState(state)),
    {
        self.push(RunElement::RunState(state));
    }

    /// Appends the transition labelled `action` to the run.
    pub fn push_action(&mut self, action: Label)
        ensures
            final(self)@ == old(self)@.push(RunElement::RunAction(action)),
    {
        self.push(RunElement::RunAction(action));
    }

    /// The labels of the run joined by `->`.
    pub fn to_text(&self) -> (s: String)
        ensures
            s@ == joined(self@.map_values(|e: RunElement| e.spec_label()), seq!['-', '>']),
    {
        let mut parts: Vec<&str> = Vec::new();
        let mut i: usize = 0;
        while i < self.elements.len()
            invariant
                i <= self.elements.len(),
                parts.len() == i,
                forall|j: int| 0 <= j < i ==> (#[trigger] parts@[j])@ == self.elements@[j].spec_label(),
            decreases self.elements.len() - i,
        {
            parts.push(self.elements[i].label_str());
            i += 1;
        }
        assert(parts@.map_values(|p: &str| p@) =~= self@.map_values(|e: RunElement| e.spec_label()));
        let sep = "->";
        proof {
            reveal_strlit("->");
            assert(sep@ =~= seq!['-', '>']);
        }
        join_parts(&parts, sep)
    }
}

/// Every element of a run is a transition or a state: the two counts add up to its length,
/// and the transitions of a run hold no state.
pub proof fn lemma_run_partition(s: Seq<RunElement>)
    ensures
        selected(s, true).len() + selected(s, false).len() == s.len(),
        selected(selected(s, true), false) == Seq::<RunElement>::empty(),
        selected(selected(s, false), true) == Seq::<RunElement>::empty(),
    decreases s.len(),
{
    let ka = keeps(true);
    let ks = keeps(false);
    if s.len() == 0 {
        assert(selected(s, true) =~= Seq::<RunElement>::empty());
        assert(selected(s, false) =~= Seq::<RunElement>::empty());
        assert(selected(Seq::<RunElement>::empty(), true) =~= Seq::<RunElement>::empty());
        assert(selected(Seq::<RunElement>::empty(), false) =~= Seq::<RunElement>::empty());
    } else {
        let t = s.drop_last();
        let e = s.last();
        lemma_run_partition(t);
        assert(s =~= t.push(e));
        t.lemma_filter_push(e, ka);
        t.lemma_filter_push(e, ks);
        let a = selected(t, true);
        let b = selected(t, false);
        a.lemma_filter_push(e, ks);
        b.lemma_filter_push(e, ka);
    }
}

/// Appending a transition counts one step more; popping it gives it back.
pub proof fn lemma_push_action_step(s: Seq<RunElement>, action: Label)
    ensures
        selected(s.push(RunElement::RunAction(action)), true).len() == selected(s, true).len() + 1,
        s.push(RunElement::RunAction(action)).last() == RunElement::RunAction(action),
        s.push(RunElement::RunAction(action)).drop_last() == s,
{
    let ka = keeps(true);
    s.lemma_filter_push(RunElement::RunAction(action), ka);
    assert(s.push(RunElement::RunAction(action)).drop_last() =~= s);
}

} // verus!
