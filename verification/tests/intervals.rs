use sally::computation::disjoint_interval::DisjointInterval;
use sally::computation::intervals::{Convex, ContinuousSet, Disjoint};

#[test]
fn add_interval_merges_overlapping() {
    let mut d = DisjointInterval::from(0, 5);
    d.add_interval(3, 8);
    assert_eq!(d.n_interv(), 1);
    assert_eq!(d.min(), 0);
    assert_eq!(d.max(), 8);
}

#[test]
fn add_interval_keeps_apart_intervals() {
    let mut d = DisjointInterval::from(0, 5);
    d.add_interval(10, 12);
    assert_eq!(d.n_interv(), 2);
    assert!(d.contains(11));
    assert!(!d.contains(7));
}

#[test]
fn add_interval_ignores_reversed_bounds() {
    let mut d = DisjointInterval::from(0, 5);
    d.add_interval(9, 3);
    assert_eq!(d.n_interv(), 1);
}

#[test]
fn add_interval_drops_the_interval_after_the_end() {
    let mut d = DisjointInterval::new();
    d.add_interval(5, 6);
    d.add_interval(20, 30);
    d.add_interval(0, 10);
    assert_eq!(d.n_interv(), 1);
    assert!(!d.contains(25));
}

#[test]
fn fuse_merges_and_inserts() {
    let mut set: Vec<(i32, i32)> = vec![(0, 1), (5, 6)];
    <(i32, i32) as Convex>::fuse(&mut set, (2, 3));
    assert_eq!(set, vec![(0, 1), (2, 3), (5, 6)]);
    <(i32, i32) as Convex>::fuse(&mut set, (1, 5));
    assert_eq!(set, vec![(0, 6), (5, 6)]);
}

#[test]
fn fuse_can_leave_overlapping_intervals() {
    let mut set: Vec<(i32, i32)> = vec![(0, 1), (3, 4), (6, 8)];
    <(i32, i32) as Convex>::fuse(&mut set, (2, 7));
    assert_eq!(set, vec![(0, 1), (2, 8), (6, 8)]);
}

#[test]
fn convex_complement_and_difference() {
    let c = (3, 7);
    let comp = c.complement();
    assert_eq!(comp.intervals, vec![(i32::MIN, 3), (7, i32::MAX)]);
    let diff = (0, 10).difference((3, 7));
    assert_eq!(diff.intervals, vec![(0, 3), (7, 10)]);
}

#[test]
fn continuous_set_union_and_contains() {
    let a = ContinuousSet::from_convex((0, 2));
    let b = ContinuousSet::from_convex((5, 6));
    let u = a.union(b);
    assert!(!u.is_convex());
    assert!(u.contains(&1));
    assert!(!u.contains(&3));
    let d = Disjoint::from_vec(vec![(0, 2), (5, 6)]);
    assert_eq!(u.convexs(), d.intervals);
}

#[test]
fn convex_intersection_and_union() {
    assert_eq!((0, 5).intersection((3, 9)), (3, 5));
    assert_eq!((0, 2).intersection((3, 9)), (i32::MAX, i32::MIN));
    assert!((i32::MAX, i32::MIN).is_empty());
    assert_eq!((0, 3).union((3, 9)).intervals, vec![(0, 9)]);
    assert_eq!((0, 2).union((5, 9)).intervals, vec![(0, 2), (5, 9)]);
    assert!((0, 5).covers(&(1, 4)));
    assert!(!(0, 5).covers(&(1, 6)));
    assert!((0, 5).intersects(&(5, 6)));
    let mut m = (0, 5);
    m.mut_intersect((2, 8));
    assert_eq!(m, (2, 5));
    let mut s = (1, 2);
    s.delta(10);
    assert_eq!(s, (11, 12));
    assert_eq!(<(i32, i32) as Convex>::full(), (i32::MIN, i32::MAX));
}

#[test]
fn disjoint_sets_combine() {
    let a = Disjoint::from_vec(vec![(0, 2), (5, 8)]);
    let b = Disjoint::from_vec(vec![(1, 6)]);
    assert_eq!(a.clone().union(b.clone()).intervals, vec![(0, 8), (5, 8)]);
    assert_eq!(a.clone().intersection(b.clone()).intervals, vec![(1, 2), (5, 6)]);
    assert_eq!(a.clone().difference(b.clone()).intervals, vec![(0, 1), (6, 8)]);
    assert!(a.intersects(&b));
    assert!(a.contains(&7));
    assert!(!a.contains(&3));
    assert_eq!(a.n_intervals(), 2);
    assert_eq!(a.clone().to_convex(), None);
    assert_eq!(Disjoint::from_convex((1, 2)).to_convex(), Some((1, 2)));
    assert!(Disjoint::<(i32, i32)>::new().is_empty());
    let mut d = a.clone();
    d.delta(-1);
    assert_eq!(d.intervals, vec![(-1, 1), (4, 7)]);
    assert_eq!(
        Disjoint::from_convex((0, 10)).complement().intervals,
        vec![(i32::MIN, 0), (10, i32::MAX)]
    );
}

#[test]
fn continuous_sets_intersect_and_complement() {
    let a = ContinuousSet::from_vec(vec![(0, 2), (5, 8)]);
    let b = ContinuousSet::from_convex((1, 6));
    let i = a.clone().intersection(b.clone());
    assert_eq!(i.convexs(), vec![(1, 2), (5, 6)]);
    assert!(a.intersects(&b));
    assert!(ContinuousSet::new().is_empty());
    assert!(ContinuousSet::full().contains(&i32::MIN));
    let c = ContinuousSet::from_convex((0, 4)).complement();
    assert_eq!(c.convexs(), vec![(i32::MIN, 0), (4, i32::MAX)]);
    let mut s = ContinuousSet::from_convex((0, 1));
    s.delta(3);
    assert!(s.is_convex());
    assert_eq!(s.convexs(), vec![(3, 4)]);
}

#[test]
fn disjoint_interval_queries() {
    let mut d = DisjointInterval::from(0, 4);
    d.add_interval(10, 12);
    assert_eq!(d.get(2), 2);
    assert_eq!(d.get(5), 11);
    assert_eq!(d.get(11), 5);
    assert_eq!(d.len(), 6);
    assert_eq!(d.min(), 0);
    assert_eq!(d.max(), 12);
    let c = d.convex_equiv();
    assert_eq!(c.n_interv(), 1);
    assert!(c.contains(6));
    assert!(!c.contains(7));
}

#[test]
fn adding_intervals_keeps_them_sorted_and_apart() {
    let mut d = DisjointInterval::new();
    d.add_interval(20, 25);
    d.add_interval(0, 3);
    d.add_interval(10, 12);
    assert_eq!(d.n_interv(), 3);
    assert_eq!(d.min(), 0);
    assert_eq!(d.max(), 25);
    assert!(d.contains(11));
    assert!(!d.contains(15));
}

#[test]
fn disjoint_intervals_are_written_out() {
    let mut d = DisjointInterval::from(-3, 4);
    d.add_interval(10, 12);
    assert_eq!(d.to_text(), "{(-3,4)(10,12)}");
    assert_eq!(DisjointInterval::new().to_text(), "{}");
}

#[test]
fn adding_an_interval_that_reaches_only_what_it_covers_gives_the_union() {
    let mut d = DisjointInterval::from(0, 2);
    d.add_interval(5, 7);
    let before: Vec<bool> = (-2..12).map(|x| d.contains(x)).collect();
    d.add_interval(3, 6);
    for (k, x) in (-2..12).enumerate() {
        assert_eq!(d.contains(x), before[k] || (3 <= x && x <= 6));
    }
    let mut e = DisjointInterval::from(0, 2);
    e.add_interval(5, 7);
    e.add_interval(9, 10);
    e.add_interval(1, 9);
    for x in -2..12 {
        assert_eq!(e.contains(x), 0 <= x && x <= 10);
    }
}

#[test]
fn fuse_holds_the_union_of_the_values() {
    let set0: Vec<(i32, i32)> = vec![(0, 1), (3, 4), (6, 8), (11, 12)];
    for e in [(2, 7), (1, 5), (-3, -1), (9, 10), (4, 11), (5, 5)] {
        let mut set = set0.clone();
        <(i32, i32) as Convex>::fuse(&mut set, e);
        for x in -5..15 {
            let before = set0.iter().any(|iv| iv.0 <= x && x <= iv.1);
            let after = set.iter().any(|iv| iv.0 <= x && x <= iv.1);
            assert_eq!(after, before || (e.0 <= x && x <= e.1));
        }
    }
}
