use sally::computation::combinatory::{CartesianProduct, KInVec};
use sally::computation::fix_point::{FSequence, FixPoint};

#[test]
fn combinations_come_in_lexicographic_order() {
    let items = ['a', 'b', 'c'];
    let mut it = KInVec::of(2, &items);
    let mut seen = Vec::new();
    while let Some(c) = it.next() {
        seen.push(c.into_iter().collect::<String>());
    }
    assert_eq!(seen, vec!["ab", "ac", "bc"]);
}

#[test]
fn combinations_of_too_many_elements_are_none() {
    let items = [1, 2];
    let mut it = KInVec::of(3, &items);
    assert!(it.next().is_none());
    let mut all = KInVec::of(2, &items);
    assert_eq!(all.next(), Some(vec![&1, &2]));
    assert_eq!(all.next(), None);
}

#[test]
fn cartesian_product_runs_like_an_odometer() {
    let vecs = vec![vec![1, 2], vec![3], vec![4, 5]];
    let mut it = CartesianProduct::of(&vecs);
    let mut seen = Vec::new();
    while let Some(t) = it.next() {
        seen.push(t.into_iter().copied().collect::<Vec<i32>>());
    }
    assert_eq!(
        seen,
        vec![vec![1, 3, 4], vec![1, 3, 5], vec![2, 3, 4], vec![2, 3, 5]]
    );
}

#[test]
fn converge_counts_the_steps_before_the_fixed_point() {
    let mut s = FSequence::new(|x: &u32| *x / 2);
    assert_eq!(s.converge(&20, 10), Some((5, 0)));
    assert_eq!(s.converge(&20, 4), None);
    assert_eq!(s.converge(&0, 3), Some((0, 0)));
    assert_eq!(s.converge(&1, 1), Some((1, 0)));
    assert_eq!(s.get_fix_point(&1000), 0);
}

#[test]
fn converge_gives_back_the_first_of_two_equal_values() {
    let mut s = FSequence::new(|x: &i64| if *x > 3 { *x - 1 } else { *x });
    assert_eq!(s.converge(&6, 10), Some((3, 3)));
    assert_eq!(s.get_fix_point(&3), 3);
}

#[test]
fn every_combination_comes_once_then_none_for_ever() {
    let items = [0, 1, 2, 3, 4];
    let mut it = KInVec::of(3, &items);
    let mut seen: Vec<Vec<i32>> = Vec::new();
    while let Some(c) = it.next() {
        seen.push(c.into_iter().copied().collect());
    }
    assert_eq!(seen.len(), 10);
    for w in seen.windows(2) {
        assert!(w[0] < w[1]);
    }
    assert_eq!(it.next(), None);
    assert_eq!(it.next(), None);
}
