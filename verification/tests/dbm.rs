use sally::computation::dbm::{Bound, DBM};

#[test]
fn a_new_matrix_bounds_only_the_diagonal() {
    let d = DBM::new(2);
    assert_eq!(d.vars_count(), 2);
    assert_eq!(d.at(1, 1), Bound::Large(0));
    assert_eq!(d.at(1, 2), Bound::Infinite);
    assert!(!d.is_empty());
    assert!(DBM::empty(2).is_empty());
}

#[test]
fn adding_a_bound_tightens_the_others_through_it() {
    let mut d = DBM::new(2);
    d.set_upper_bound(1, Bound::Large(5));
    d.add(2, 1, Bound::Strict(-1));
    assert_eq!(d.at(1, 0), Bound::Large(5));
    assert_eq!(d.at(2, 1), Bound::Strict(-1));
    assert_eq!(d.at(2, 0), Bound::Strict(4));
    assert!(!d.is_empty());
}

#[test]
fn contradictory_bounds_empty_the_matrix() {
    let mut d = DBM::new(1);
    d.set_upper_bound(1, Bound::Large(5));
    d.set_lower_bound(1, Bound::Large(6));
    assert!(d.is_empty());
    let mut d = DBM::new(1);
    d.set_upper_bound(1, Bound::Large(5));
    d.add_inf(1, Bound::Large(5));
    assert!(!d.is_empty());
    assert_eq!(d.at(0, 1), Bound::Large(-5));
}

#[test]
fn canonical_form_closes_the_bounds_and_finds_negative_cycles() {
    let d = DBM::new(2);
    let c = d.get_canonical();
    assert_eq!(c.at(1, 0), Bound::Infinite);
    let mut e = DBM::new(2);
    e.free_clock(1);
    e.make_canonical();
    assert!(!e.is_empty());
    let mut f = DBM::new(1);
    f.make_empty();
    assert!(f.is_empty());
    assert_eq!(f.up().at(0, 0), Bound::MinusInfinite);
}

#[test]
fn up_removes_the_upper_bounds() {
    let mut d = DBM::new(2);
    d.set_upper_bound(1, Bound::Large(3));
    d.set_lower_bound(1, Bound::Large(1));
    let u = d.up();
    assert_eq!(u.at(1, 0), Bound::Infinite);
    assert_eq!(u.at(0, 1), Bound::Large(-1));
}

#[test]
fn freeing_a_clock_copies_the_zero_clock_bounds() {
    let mut d = DBM::new(2);
    d.set_upper_bound(1, Bound::Large(3));
    d.set_upper_bound(2, Bound::Large(7));
    d.free_clock(1);
    assert_eq!(d.at(2, 1), d.at(2, 0));
    assert_eq!(d.at(1, 2), Bound::Infinite);
    assert_eq!(d.at(1, 0), Bound::Infinite);
}

#[test]
fn extending_adds_free_clocks_and_removing_drops_one() {
    let mut d = DBM::new(1);
    d.set_upper_bound(1, Bound::Large(4));
    let e = d.copy().extend(2);
    assert_eq!(e.vars_count(), 3);
    assert_eq!(e.at(1, 0), Bound::Large(4));
    assert_eq!(e.at(3, 3), Bound::Large(0));
    assert_eq!(e.at(3, 0), Bound::Infinite);
    let same = d.copy().extend_to(1);
    assert_eq!(same.vars_count(), 1);
    let mut m = d.copy();
    m.extend_to_mut(2);
    assert_eq!(m.vars_count(), 2);
    m.remove_var(1);
    assert_eq!(m.vars_count(), 1);
    assert_eq!(m.at(1, 0), Bound::Infinite);
    let mut k = DBM::new(2);
    k.set_upper_bound(2, Bound::Strict(9));
    k.remove_var(1);
    assert_eq!(k.at(1, 0), Bound::Strict(9));
}

#[test]
fn down_relaxes_the_lower_bounds_by_the_largest_common_delay() {
    let mut d = DBM::new(2);
    d.set_upper_bound(1, Bound::Large(3));
    d.set_lower_bound(1, Bound::Large(1));
    d.set_upper_bound(2, Bound::Large(5));
    d.set_lower_bound(2, Bound::Large(4));
    let down = d.down();
    assert_eq!(down.at(0, 1), Bound::Large(-1));
    assert_eq!(down.at(0, 2), Bound::Large(-4));
    assert_eq!(down.at(1, 0), Bound::Large(3));
}

#[test]
fn a_negative_cycle_marks_the_matrix_empty() {
    let mut d = DBM::new(2);
    d.set(1, 2, Bound::Large(-1));
    d.set(2, 1, Bound::Large(0));
    d.make_canonical();
    assert_eq!(d.at(0, 0), Bound::MinusInfinite);
    assert!(d.is_empty());
}

#[test]
fn canonical_form_leaves_no_diagonal_below_zero() {
    let mut d = DBM::new(2);
    d.set(1, 2, Bound::Large(3));
    d.set(2, 1, Bound::Strict(-1));
    d.make_canonical();
    for i in 0..3 {
        assert_eq!(d.at(i, i), Bound::Large(0));
    }
    assert!(!d.is_empty());
}

#[test]
fn canonical_form_tightens_bounds_through_other_clocks() {
    let mut d = DBM::new(2);
    d.set(1, 0, Bound::Large(3));
    d.set(2, 1, Bound::Strict(2));
    d.make_canonical();
    assert_eq!(d.at(2, 0), Bound::Strict(5));
    assert_eq!(d.at(1, 0), Bound::Large(3));
    assert_eq!(d.at(0, 0), Bound::Large(0));
    let c = d.get_canonical();
    for i in 0..3 {
        for j in 0..3 {
            assert_eq!(c.at(i, j), d.at(i, j));
        }
    }
}
