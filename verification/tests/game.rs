use sally::game::{Run, RunElement};
use sally::models::label::lbl;

fn sample_run() -> Run {
    let mut run = Run::empty();
    run.push_state(lbl("s0"));
    run.push_action(lbl("a"));
    run.push_state(lbl("s1"));
    run.push_action(lbl("b"));
    run.push_state(lbl("s2"));
    run
}

#[test]
fn a_run_is_written_with_arrows() {
    assert_eq!(sample_run().to_text(), "s0->a->s1->b->s2");
    assert_eq!(Run::empty().to_text(), "");
}

#[test]
fn steps_count_counts_the_transitions() {
    assert_eq!(sample_run().steps_count(), 2);
    assert_eq!(Run::empty().steps_count(), 0);
}

#[test]
fn actions_and_states_are_separated_in_order() {
    let run = sample_run();
    assert_eq!(run.get_actions_seq().to_text(), "a->b");
    assert_eq!(run.get_states_seq().to_text(), "s0->s1->s2");
    assert_eq!(run.get_actions_seq().get_states_seq(), Run::empty());
}

#[test]
fn pop_gives_back_the_last_element() {
    let mut run = sample_run();
    assert_eq!(run.pop(), Some(RunElement::RunState(lbl("s2"))));
    assert_eq!(run.pop().map(|e| e.get_label()), Some(lbl("b")));
    assert_eq!(run.steps_count(), 1);
    let mut empty = Run::empty();
    assert_eq!(empty.pop(), None);
    let copy = run.clone();
    assert_eq!(copy, run);
}
