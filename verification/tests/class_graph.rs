use sally::computation::dbm::{Bound, DBM};
use sally::computation::virtual_memory::VirtualMemory;
use sally::models::class_graph::{ClassGraph, StateClass};
use sally::models::expressions::PropositionType;
use sally::models::label::lbl;
use sally::models::model_clock::ModelClock;
use sally::models::model_var::{ModelVar, VarType};
use sally::verification::Verifiable;

fn initial_class() -> StateClass {
    let mut dbm = DBM::new(2);
    dbm.set_upper_bound(1, Bound::Large(3));
    dbm.set_lower_bound(1, Bound::Large(1));
    dbm.set_upper_bound(2, Bound::Large(5));
    dbm.set_lower_bound(2, Bound::Large(2));
    StateClass {
        discrete: VirtualMemory::from_size(1),
        dbm,
        to_dbm_index: vec![1, 2],
        from_dbm_index: vec![0, 0, 1],
        index: 0,
        predecessors: vec![],
    }
}

fn intervals() -> Vec<(Bound, Bound)> {
    vec![(Bound::Large(1), Bound::Large(3)), (Bound::Large(2), Bound::Large(5))]
}

#[test]
fn enabled_clocks_lists_the_transitions_of_the_class() {
    assert_eq!(initial_class().enabled_clocks(), vec![0, 1]);
}

#[test]
fn firing_keeps_the_persistent_bounds_relative_to_the_fired_transition() {
    let class = initial_class();
    let next = ClassGraph::successor(
        &class,
        0,
        VirtualMemory::from_size(1),
        &vec![false, false],
        &vec![false, true],
        &intervals(),
    )
    .unwrap();
    assert_eq!(next.from_dbm_index, vec![0, 1]);
    assert_eq!(next.to_dbm_index, vec![0, 1]);
    assert_eq!(next.dbm.vars_count(), 1);
    assert_eq!(next.dbm.at(1, 0), Bound::Large(4));
    assert_eq!(next.dbm.at(0, 1), Bound::Large(1));
    assert_eq!(next.predecessors, vec![(0, 0)]);
}

#[test]
fn a_transition_that_must_fire_first_blocks_the_other() {
    let mut class = initial_class();
    class.dbm.set_upper_bound(2, Bound::Large(1));
    let mut late = DBM::new(2);
    late.set_upper_bound(1, Bound::Large(3));
    late.set_upper_bound(2, Bound::Large(1));
    class.dbm = late;
    let next = ClassGraph::successor(
        &class,
        0,
        VirtualMemory::from_size(1),
        &vec![false, false],
        &vec![false, true],
        &intervals(),
    );
    assert!(next.is_none());
}

#[test]
fn newly_enabled_transitions_get_their_interval() {
    let class = initial_class();
    let next = ClassGraph::successor(
        &class,
        0,
        VirtualMemory::from_size(1),
        &vec![true, false],
        &vec![false, true],
        &intervals(),
    )
    .unwrap();
    assert_eq!(next.from_dbm_index, vec![0, 0, 1]);
    assert_eq!(next.dbm.at(1, 0), Bound::Large(3));
    assert_eq!(next.dbm.at(0, 1), Bound::Large(-1));
}

#[test]
fn compute_gathers_the_distinct_classes_reached() {
    let graph = ClassGraph::compute(initial_class(), &intervals(), |_m: &VirtualMemory, _t: usize| {
        (VirtualMemory::from_size(1), vec![false, false], vec![false, false])
    })
    .unwrap();
    assert_eq!(graph.classes.len(), 2);
    assert_eq!(graph.classes[0].from_dbm_index, vec![0, 0, 1]);
    assert_eq!(graph.classes[1].from_dbm_index, vec![0]);
    assert_eq!(graph.classes[1].dbm.vars_count(), 0);
    assert!(graph.classes[1].is_deadlocked());
    assert!(!graph.classes[0].is_deadlocked());
    assert_eq!(graph.classes[0].index, 0);
    assert_eq!(graph.classes[1].index, 1);
    assert_eq!(graph.classes[0].predecessors, vec![]);
    assert_eq!(graph.classes[1].predecessors, vec![(0, 0), (0, 1)]);
}

#[test]
fn compute_follows_persistent_transitions() {
    let graph = ClassGraph::compute(initial_class(), &intervals(), |_m: &VirtualMemory, t: usize| {
        if t == 0 {
            (VirtualMemory::from_size(1), vec![false, false], vec![false, true])
        } else {
            (VirtualMemory::from_size(1), vec![false, false], vec![false, false])
        }
    })
    .unwrap();
    assert_eq!(graph.classes.len(), 3);
}

#[test]
fn compute_class_bounds_each_enabled_clock_by_its_interval() {
    let class = StateClass::compute_class(VirtualMemory::from_size(1), &vec![true, false], &intervals());
    assert_eq!(class.from_dbm_index, vec![0, 0]);
    assert_eq!(class.to_dbm_index, vec![1, 0]);
    assert_eq!(class.dbm.at(1, 0), Bound::Large(3));
    assert_eq!(class.dbm.at(0, 1), Bound::Large(-1));
    let both = StateClass::compute_class(VirtualMemory::from_size(1), &vec![true, true], &intervals());
    assert_eq!(both.from_dbm_index, vec![0, 0, 1]);
    assert_eq!(both.dbm.at(2, 0), Bound::Large(5));
    assert_eq!(both.dbm.at(0, 2), Bound::Large(-2));
}

#[test]
fn up_and_down_of_a_class_change_its_bounds_only() {
    let class = initial_class();
    let up = class.up();
    assert_eq!(up.from_dbm_index, class.from_dbm_index);
    assert_eq!(up.index, usize::MAX);
    assert_eq!(up.dbm.at(1, 0), Bound::Infinite);
    assert_eq!(up.dbm.at(0, 1), class.dbm.at(0, 1));
    let down = class.down();
    assert_eq!(down.dbm.at(1, 0), class.dbm.at(1, 0));
    assert_eq!(down.dbm.at(0, 1), Bound::Large(-1));
}

#[test]
fn a_class_reads_as_the_state_it_starts_from() {
    let class = initial_class();
    assert!(!Verifiable::is_deadlocked(&class));
    let enabled = ModelClock { name: lbl("t0"), index: 0 };
    assert!(class.compare_clock(PropositionType::EQ, &enabled, 0));
    assert!(class.compare_clock(PropositionType::LS, &enabled, 2));
    assert!(!class.compare_clock(PropositionType::GS, &enabled, 0));
    let unknown = ModelClock { name: lbl("t9"), index: 9 };
    assert!(!class.compare_clock(PropositionType::EQ, &unknown, 0));
    let x = ModelVar::make_defined(lbl("x"), 0, VarType::VarU8);
    assert_eq!(class.evaluate_var(&x), 0);
}

#[test]
fn a_class_without_clocks_reads_as_a_deadlock() {
    let graph = ClassGraph::compute(initial_class(), &intervals(), |_m: &VirtualMemory, _t: usize| {
        (VirtualMemory::from_size(1), vec![false, false], vec![false, false])
    })
    .unwrap();
    assert!(Verifiable::is_deadlocked(&graph.classes[1]));
    assert!(!Verifiable::is_deadlocked(&graph.classes[0]));
}
