use std::collections::HashSet;

use sally::computation::action_set::ActionSet;
use sally::computation::bit_set::BitSet;

fn bits_of(set: &BitSet) -> Vec<usize> {
    let mut v: Vec<usize> = set.get_bits().into_iter().collect();
    v.sort();
    v
}

#[test]
fn enable_and_disable_bits() {
    let mut s = BitSet::new();
    assert!(s.is_empty());
    s.enable(3);
    s.enable(70);
    assert!(s.is_enabled(3));
    assert!(s.is_enabled(70));
    assert!(!s.is_enabled(4));
    assert_eq!(bits_of(&s), vec![3, 70]);
    s.disable(70);
    assert_eq!(bits_of(&s), vec![3]);
    s.disable(3);
    assert!(s.is_empty());
    assert_eq!(s, BitSet::new());
}

#[test]
fn single_bit_and_indices() {
    let s = BitSet::single_bit(65);
    assert_eq!(bits_of(&s), vec![65]);
    assert_eq!(BitSet::get_indexs(65), (2, 1));
    assert_eq!(BitSet::get_indexs(0), (1, 0));
}

#[test]
fn set_operators_on_bits() {
    let a = BitSet::from(vec![0b1010u64]);
    let b = BitSet::from(vec![0b0110u64, 1]);
    assert_eq!(bits_of(&(a.clone() | b.clone())), vec![1, 2, 3, 64]);
    assert_eq!(bits_of(&(a.clone() & b.clone())), vec![1]);
    assert_eq!(bits_of(&(a.clone() ^ b.clone())), vec![2, 3, 64]);
    let mut c = a.clone();
    c |= b.clone();
    assert_eq!(bits_of(&c), vec![1, 2, 3, 64]);
    let mut d = a.clone();
    d &= b.clone();
    assert_eq!(bits_of(&d), vec![1]);
    let n = !BitSet::from(vec![u64::MAX - 1]);
    assert_eq!(bits_of(&n), vec![0]);
}

#[test]
fn newly_enabled_bits_and_cover() {
    let old = BitSet::from(vec![0b0011u64]);
    let new = BitSet::from(vec![0b0110u64]);
    assert_eq!(bits_of(&BitSet::get_newen(&old, &new)), vec![2]);
    let big = BitSet::from(vec![0b0111u64]);
    assert!(big.covers(&new));
    assert!(!new.covers(&big));
}

#[test]
fn from_trims_zero_words_and_reads_hash_sets() {
    let s = BitSet::from(vec![1u64, 0, 0]);
    assert_eq!(s, BitSet::single_bit(0));
    let mut t = BitSet::from(vec![0u64, 0]);
    t.trim();
    assert!(t.is_empty());
    let h: HashSet<usize> = [5usize, 130].into_iter().collect();
    assert_eq!(bits_of(&BitSet::from(h)), vec![5, 130]);
}

#[test]
fn actions_are_enabled_and_listed_in_order() {
    let mut a = ActionSet::new();
    assert!(a.is_empty());
    a.enable(64);
    a.enable(2);
    assert!(a.is_enabled(2));
    assert!(!a.is_enabled(3));
    assert_eq!(a.get_actions(), vec![2, 64]);
    a.disable(64);
    assert_eq!(a.get_actions(), vec![2]);
    assert_eq!(ActionSet::action_byte(66), (4, 1));
}

#[test]
fn action_set_operators() {
    let a = ActionSet::from(vec![0b1010u64]);
    let b = ActionSet::from(vec![0b0110u64]);
    assert_eq!((a.clone() | b.clone()).get_actions(), vec![1, 2, 3]);
    assert_eq!((a.clone() & b.clone()).get_actions(), vec![1]);
    assert_eq!(ActionSet::get_newen(&a, &b).get_actions(), vec![2]);
    let n = !ActionSet::from(vec![u64::MAX - 1]);
    assert_eq!(n.get_actions(), vec![0]);
    let mut m = a.clone();
    m.merge(&ActionSet::from(vec![0, 1]));
    assert_eq!(m.get_actions(), vec![1, 3, 64]);
}
