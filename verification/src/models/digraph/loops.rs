use super::search_strategy::{DigraphNeighbors, GraphTraversal, NeighborsFinder, SearchStrategy};
use super::{lemma_unseen_update, unseen_count, Digraph};
use vstd::multiset::Multiset;
use vstd::prelude::*;

verus! {

broadcast use vstd::seq_lib::group_to_multiset_ensures;

/// All the entries of the first `k` adjacency lists.
pub open spec fn entries(lists: Seq<Seq<usize>>, k: int) -> Multiset<usize>
    decreases k,
{
    if k <= 0 {
        Multiset::empty()
    } else {
        entries(lists, k - 1).add(lists[k - 1].to_multiset())
    }
}

/// How many times the adjacency lists name `y` as a target.
pub open spec fn in_degree(lists: Seq<Seq<usize>>, y: usize) -> nat {
    entries(lists, lists.len() as int).count(y)
}

/// The node after position `i` of the cycle `c`: the next one, or the first after the last.
pub open spec fn cycle_next(c: Seq<usize>, i: int) -> usize {
    if i + 1 < c.len() {
        c[i + 1]
    } else {
        c[0]
    }
}

/// Whether `c`, one node or more, is a cycle along the adjacency lists: each of its nodes
/// lists the node after it.
pub open spec fn is_cycle(lists: Seq<Seq<usize>>, c: Seq<usize>) -> bool {
    &&& c.len() >= 1
    &&& forall|i: int| 0 <= i < c.len() ==> #[trigger] c[i] < lists.len()
    &&& forall|i: int| 0 <= i < c.len() ==> lists[#[trigger] c[i] as int].contains(cycle_next(c, i))
}

/// Whether `w`, one node or more, leads from `a` to `b`, each node listing the next one.
pub open spec fn is_node_walk(lists: Seq<Seq<usize>>, w: Seq<usize>, a: int, b: int) -> bool {
    &&& w.len() >= 1
    &&& w[0] == a
    &&& w[w.len() - 1] == b
    &&& forall|i: int| 0 <= i < w.len() ==> #[trigger] w[i] < lists.len()
    &&& forall|i: int| #![trigger w[i]] 0 <= i < w.len() - 1 ==> lists[w[i] as int].contains(w[i + 1])
}

/// Whether the lists make a forest whose trees hang from their smallest node: no node is
/// listed twice as a target, and each node that is listed is reached by a walk from a node
/// of smaller index that is listed nowhere.
pub open spec fn rooted_forest(lists: Seq<Seq<usize>>) -> bool {
    &&& forall|y: usize| #[trigger] in_degree(lists, y) <= 1
    &&& forall|y: usize|
        y < lists.len() && #[trigger] in_degree(lists, y) > 0 ==> exists|r: usize, w: Seq<usize>|
            r < y && in_degree(lists, r) == 0 && #[trigger] is_node_walk(lists, w, r as int, y as int)
}

/// Every marked node was reached by a walk from a root of smaller or equal index.
spec fn traced_roots(lists: Seq<Seq<usize>>, seen: Seq<bool>, roots: Multiset<usize>, rootof: Seq<int>) -> bool {
    forall|y: int|
        0 <= y < seen.len() && #[trigger] seen[y] ==> {
            &&& 0 <= rootof[y] <= y
            &&& roots.count(rootof[y] as usize) > 0
            &&& exists|w: Seq<usize>| #[trigger] is_node_walk(lists, w, rootof[y], y)
        }
}

/// Each target listed by a marked node is marked or waiting.
spec fn closed(lists: Seq<Seq<usize>>, seen: Seq<bool>, pending: Multiset<usize>) -> bool {
    forall|x: int, y: usize|
        0 <= x < seen.len() && seen[x] && #[trigger] lists[x].contains(y) ==> seen[y as int] || pending.count(y)
            > 0
}

/// Each waiting node waits once and is not marked.
spec fn fresh(seen: Seq<bool>, pending: Multiset<usize>) -> bool {
    forall|y: usize| #[trigger] pending.count(y) > 0 ==> !seen[y as int] && pending.count(y) == 1
}

/// No root is listed as a target.
spec fn roots_unlisted(lists: Seq<Seq<usize>>, roots: Multiset<usize>) -> bool {
    forall|y: usize| #[trigger] roots.count(y) > 0 ==> in_degree(lists, y) == 0
}

/// A walk followed by a target of its last node is a walk.
proof fn lemma_node_walk_push(lists: Seq<Seq<usize>>, w: Seq<usize>, a: int, b: int, c: usize)
    requires
        is_node_walk(lists, w, a, b),
        lists[b].contains(c),
        c < lists.len(),
    ensures
        is_node_walk(lists, w.push(c), a, c as int),
{
    let v = w.push(c);
    assert forall|i: int| #![trigger v[i]] 0 <= i < v.len() - 1 implies lists[v[i] as int].contains(v[i + 1]) by {
        if i < w.len() - 1 {
            assert(v[i] == w[i] && v[i + 1] == w[i + 1]);
        }
    }
    assert forall|i: int| 0 <= i < v.len() implies #[trigger] v[i] < lists.len() by {
        if i < w.len() {
            assert(v[i] == w[i]);
        }
    }
}

/// Along a walk from a marked node, with nothing waiting, every node is marked.
proof fn lemma_closed_walk(lists: Seq<Seq<usize>>, seen: Seq<bool>, w: Seq<usize>, a: int, b: int)
    requires
        is_node_walk(lists, w, a, b),
        seen.len() == lists.len(),
        closed(lists, seen, Multiset::empty()),
        seen[a],
    ensures
        seen[b],
    decreases w.len(),
{
    if w.len() > 1 {
        let v = w.drop_last();
        let m = w[w.len() - 2] as int;
        assert forall|i: int| #![trigger v[i]] 0 <= i < v.len() - 1 implies lists[v[i] as int].contains(v[i + 1]) by {
            assert(v[i] == w[i] && v[i + 1] == w[i + 1]);
        }
        assert forall|i: int| 0 <= i < v.len() implies #[trigger] v[i] < lists.len() by {
            assert(v[i] == w[i]);
        }
        assert(is_node_walk(lists, v, a, m));
        lemma_closed_walk(lists, seen, v, a, m);
        assert(w[w.len() - 2] < lists.len());
        assert(lists[m].contains(w[w.len() - 1]));
    }
}

/// The entries of the lists of the first `k` nodes that are marked in `seen`.
spec fn fed(lists: Seq<Seq<usize>>, seen: Seq<bool>, k: int) -> Multiset<usize>
    decreases k,
{
    if k <= 0 {
        Multiset::empty()
    } else {
        fed(lists, seen, k - 1).add(
            if seen[k - 1] {
                lists[k - 1].to_multiset()
            } else {
                Multiset::empty()
            },
        )
    }
}

/// The first `k` nodes that are marked in `seen`, each once.
spec fn marked(seen: Seq<bool>, k: int) -> Multiset<usize>
    decreases k,
{
    if k <= 0 {
        Multiset::empty()
    } else {
        marked(seen, k - 1).add(
            if seen[k - 1] {
                Multiset::singleton((k - 1) as usize)
            } else {
                Multiset::empty()
            },
        )
    }
}

proof fn lemma_fed_prefix(lists: Seq<Seq<usize>>, s1: Seq<bool>, s2: Seq<bool>, k: int)
    requires
        forall|i: int| 0 <= i < k ==> s1[i] == s2[i],
    ensures
        fed(lists, s1, k) == fed(lists, s2, k),
        marked(s1, k) == marked(s2, k),
    decreases k,
{
    if k > 0 {
        lemma_fed_prefix(lists, s1, s2, k - 1);
    }
}

/// Marking a node adds its list to what is fed, and the node to what is marked.
proof fn lemma_fed_update(lists: Seq<Seq<usize>>, seen: Seq<bool>, x: int, k: int)
    requires
        0 <= x < k <= seen.len(),
        !seen[x],
    ensures
        fed(lists, seen.update(x, true), k) =~= fed(lists, seen, k).add(lists[x].to_multiset()),
        marked(seen.update(x, true), k) =~= marked(seen, k).insert(x as usize),
    decreases k,
{
    let t = seen.update(x, true);
    if x == k - 1 {
        lemma_fed_prefix(lists, t, seen, k - 1);
    } else {
        lemma_fed_update(lists, seen, x, k - 1);
    }
}

/// With no node marked, nothing is fed nor marked.
proof fn lemma_fed_none(lists: Seq<Seq<usize>>, seen: Seq<bool>, k: int)
    requires
        forall|i: int| 0 <= i < k ==> !seen[i],
    ensures
        fed(lists, seen, k) =~= Multiset::empty(),
        marked(seen, k) =~= Multiset::empty(),
    decreases k,
{
    if k > 0 {
        lemma_fed_none(lists, seen, k - 1);
    }
}

/// With every node marked, all the entries are fed and every node is marked once.
proof fn lemma_fed_all(lists: Seq<Seq<usize>>, seen: Seq<bool>, k: int)
    requires
        0 <= k <= usize::MAX,
        forall|i: int| 0 <= i < k ==> seen[i],
    ensures
        fed(lists, seen, k) =~= entries(lists, k),
        forall|y: usize| #[trigger] marked(seen, k).count(y) == if y < k { 1nat } else { 0nat },
    decreases k,
{
    if k > 0 {
        lemma_fed_all(lists, seen, k - 1);
        assert forall|y: usize| #[trigger] marked(seen, k).count(y) == if y < k { 1nat } else { 0nat } by {
            assert(marked(seen, k - 1).count(y) == if y < k - 1 { 1nat } else { 0nat });
        }
    }
}

/// The entries count those of each list, and of any two different lists together.
proof fn lemma_entries_count(lists: Seq<Seq<usize>>, k: int, x: int, z: int, y: usize)
    requires
        0 <= x < k,
        0 <= z < k,
    ensures
        entries(lists, k).count(y) >= lists[x].to_multiset().count(y),
        x != z ==> entries(lists, k).count(y) >= lists[x].to_multiset().count(y) + lists[z].to_multiset().count(y),
    decreases k,
{
    if x < k - 1 && z < k - 1 {
        lemma_entries_count(lists, k - 1, x, z, y);
    } else if x < k - 1 {
        lemma_entries_count(lists, k - 1, x, x, y);
    } else if z < k - 1 {
        lemma_entries_count(lists, k - 1, z, z, y);
    }
}

/// A position of the cycle whose node has the smallest stamp.
proof fn lemma_min_stamp(c: Seq<usize>, stamp: Seq<int>, k: int) -> (m: int)
    requires
        1 <= k <= c.len(),
        forall|i: int| 0 <= i < c.len() ==> c[i] < stamp.len(),
    ensures
        0 <= m < k,
        forall|j: int| 0 <= j < k ==> stamp[c[m] as int] <= stamp[#[trigger] c[j] as int],
    decreases k,
{
    if k == 1 {
        0
    } else {
        let m = lemma_min_stamp(c, stamp, k - 1);
        if stamp[c[k - 1] as int] < stamp[c[m] as int] {
            k - 1
        } else {
            m
        }
    }
}

impl<T, U> Digraph<T, U> {
    /// Position of the first unseen node, if any.
    fn first_unseen(seen: &Vec<bool>) -> (r: Option<usize>)
        ensures
            match r {
                Some(i) => i < seen@.len() && !seen@[i as int] && forall|k: int| 0 <= k < i ==> seen@[k],
                None => forall|k: int| 0 <= k < seen@.len() ==> seen@[k],
            },
    {
        let n = seen.len();
        for i in 0..n
            invariant
                n == seen@.len(),
                forall|k: int| 0 <= k < i ==> seen@[k],
        {
            if !seen[i] {
                return Some(i);
            }
        }
        None
    }

    /// Walks the graph depth first along the adjacency lists, from each node not reached
    /// yet, in increasing order; answers whether some node is reached a second time. It
    /// answers no exactly when the lists make a forest whose trees hang from their smallest
    /// node; then no cycle is listed.
    pub fn has_loop(&self) -> (r: bool)
        requires
            self.wf(),
        ensures
            r == !rooted_forest(self.out_lists()),
            !r ==> forall|c: Seq<usize>| !#[trigger] is_cycle(self.out_lists(), c),
    {
        let n = self.n_nodes();
        let ghost lists = self.out_lists();
        let mut seen: Vec<bool> = Vec::new();
        for k in 0..n
            invariant
                seen@.len() == k,
                forall|i: int| 0 <= i < k ==> !seen@[i],
        {
            seen.push(false);
        }
        let ghost mut roots: Multiset<usize> = Multiset::empty();
        let ghost mut stamp: Seq<int> = Seq::new(n as nat, |i: int| 0int);
        let ghost mut rootof: Seq<int> = Seq::new(n as nat, |i: int| 0int);
        let ghost mut clock: int = 0;
        proof {
            lemma_fed_none(lists, seen@, n as int);
        }
        loop
            invariant
                n == self.n(),
                lists == self.out_lists(),
                lists.len() == n,
                self.wf(),
                seen@.len() == n,
                stamp.len() == n,
                rootof.len() == n,
                roots.add(fed(lists, seen@, n as int)) =~= marked(seen@, n as int),
                forall|y: int| 0 <= y < n && seen@[y] ==> stamp[y] < clock,
                forall|y: int|
                    #![trigger seen@[y]]
                    0 <= y < n && seen@[y] ==> roots.count(y as usize) > 0 || exists|x: int|
                        0 <= x < n && seen@[x] && stamp[x] < stamp[y] && lists[x].contains(y as usize),
                traced_roots(lists, seen@, roots, rootof),
                rooted_forest(lists) ==> roots_unlisted(lists, roots) && closed(lists, seen@, Multiset::empty()),
            decreases unseen_count(seen@),
        {
            let next_index = Self::first_unseen(&seen);
            let next_index = match next_index {
                None => {
                    proof {
                        self.lemma_no_loop(seen@, roots, stamp, rootof);
                    }
                    return false;
                },
                Some(i) => i,
            };
            let ghost unseen0 = unseen_count(seen@);
            let ghost rho = next_index as int;
            proof {
                if rooted_forest(lists) && in_degree(lists, next_index) > 0 {
                    let (r0, w) = choose|r0: usize, w: Seq<usize>|
                        r0 < next_index && in_degree(lists, r0) == 0 && #[trigger] is_node_walk(
                            lists,
                            w,
                            r0 as int,
                            next_index as int,
                        );
                    lemma_closed_walk(lists, seen@, w, r0 as int, rho);
                }
            }
            let mut traversal = GraphTraversal::dfs(self, next_index);
            proof {
                roots = roots.insert(next_index);
                assert(is_node_walk(lists, seq![next_index], rho, rho));
            }
            let mut marked_one = false;
            loop
                invariant_except_break
                    n == self.n(),
                    lists == self.out_lists(),
                    lists.len() == n,
                    self.wf(),
                    seen@.len() == n,
                    stamp.len() == n,
                    rootof.len() == n,
                    traversal.neighbors_finder.graph == self,
                    forall|x: usize| traversal.strategy.items().count(x) > 0 ==> x < n,
                    next_index < n,
                    rho == next_index,
                    roots.count(next_index) > 0,
                    forall|i: int| 0 <= i < rho ==> seen@[i],
                    marked_one ==> unseen_count(seen@) < unseen0,
                    !marked_one ==> !seen@[next_index as int] && unseen_count(seen@) == unseen0,
                    !marked_one ==> traversal.strategy.items() == Multiset::<usize>::empty().insert(next_index),
                    roots.add(fed(lists, seen@, n as int)) =~= marked(seen@, n as int).add(
                        traversal.strategy.items(),
                    ),
                    forall|y: int| 0 <= y < n && seen@[y] ==> stamp[y] < clock,
                    forall|y: int|
                        #![trigger seen@[y]]
                        0 <= y < n && seen@[y] ==> roots.count(y as usize) > 0 || exists|x: int|
                            0 <= x < n && seen@[x] && stamp[x] < stamp[y] && lists[x].contains(y as usize),
                    forall|y: usize|
                        #[trigger] traversal.strategy.items().count(y) > 0 ==> roots.count(y) > 0 || exists|x: int|
                            0 <= x < n && seen@[x] && lists[x].contains(y),
                    forall|y: usize|
                        traversal.strategy.items().count(y) > 0 ==> exists|w: Seq<usize>|
                            #[trigger] is_node_walk(lists, w, rho, y as int),
                    traced_roots(lists, seen@, roots, rootof),
                    rooted_forest(lists) ==> {
                        &&& roots_unlisted(lists, roots)
                        &&& fresh(seen@, traversal.strategy.items())
                        &&& closed(lists, seen@, traversal.strategy.items())
                    },
                ensures
                    n == self.n(),
                    lists == self.out_lists(),
                    lists.len() == n,
                    self.wf(),
                    seen@.len() == n,
                    stamp.len() == n,
                    rootof.len() == n,
                    unseen_count(seen@) < unseen0,
                    roots.add(fed(lists, seen@, n as int)) =~= marked(seen@, n as int),
                    forall|y: int| 0 <= y < n && seen@[y] ==> stamp[y] < clock,
                    forall|y: int|
                        #![trigger seen@[y]]
                        0 <= y < n && seen@[y] ==> roots.count(y as usize) > 0 || exists|x: int|
                            0 <= x < n && seen@[x] && stamp[x] < stamp[y] && lists[x].contains(y as usize),
                    traced_roots(lists, seen@, roots, rootof),
                    rooted_forest(lists) ==> roots_unlisted(lists, roots) && closed(lists, seen@, Multiset::empty()),
                decreases unseen_count(seen@),
            {
                let ghost items0 = traversal.strategy.items();
                let node = traversal.next();
                let ghost found: Seq<usize> = Seq::empty();
                proof {
                    if let Some(x) = node {
                        found = choose|found: Seq<usize>|
                            {
                                &&& (DigraphNeighbors { graph: self }).finds(x, found, traversal.neighbors_finder)
                                &&& traversal.strategy.items() == items0.remove(x).add(found.to_multiset())
                            };
                        assert forall|y: usize| traversal.strategy.items().count(y) > 0 implies y < n by {
                            if found.to_multiset().count(y) > 0 {
                                assert(found.contains(y));
                                let k = choose|k: int| 0 <= k < found.len() && found[k] == y;
                                assert(self.out_lists()[x as int][k] < n);
                            } else {
                                assert(items0.count(y) > 0);
                            }
                        }
                        if !marked_one {
                            assert(items0.count(x) > 0);
                        }
                    } else {
                        if !marked_one {
                            assert(items0.count(next_index) > 0);
                        }
                        assert(items0 =~= Multiset::empty());
                    }
                }
                let x = match node {
                    None => { break; },
                    Some(x) => x,
                };
                if seen[x] {
                    proof {
                        assert(items0.count(x) > 0);
                    }
                    return true;
                }
                proof {
                    self.lemma_pop_step(seen@, roots, stamp, rootof, items0, x, rho, clock);
                    lemma_unseen_update(seen@, x as int);
                    lemma_fed_update(lists, seen@, x as int, n as int);
                    let s0 = seen@;
                    let s1 = s0.update(x as int, true);
                    assert(found == lists[x as int]);
                    let items1 = traversal.strategy.items();
                    assert(items1 == items0.remove(x).add(lists[x as int].to_multiset()));
                    assert forall|y: usize|
                        #[trigger] roots.add(fed(lists, s1, n as int)).count(y) == marked(s1, n as int).add(
                            items1,
                        ).count(y) by {
                        assert(roots.add(fed(lists, s0, n as int)).count(y) == marked(s0, n as int).add(
                            items0,
                        ).count(y));
                    }
                    assert(roots.add(fed(lists, s1, n as int)) =~= marked(s1, n as int).add(items1));
                    stamp = stamp.update(x as int, clock);
                    rootof = rootof.update(x as int, rho);
                    clock = clock + 1;
                }
                seen.set(x, true);
                marked_one = true;
            }
        }
    }

    /// What taking a waiting node `x` out, marking it and feeding its targets keeps: every
    /// marked node traced back to a root, every waiting node reached from the round's root
    /// and fed by a root or a marked node; and in a forest hanging from its smallest nodes,
    /// nothing waits twice or waits once marked.
    proof fn lemma_pop_step(
        &self,
        seen: Seq<bool>,
        roots: Multiset<usize>,
        stamp: Seq<int>,
        rootof: Seq<int>,
        items0: Multiset<usize>,
        x: usize,
        rho: int,
        clock: int,
    )
        requires
            self.wf(),
            self.out_lists().len() == self.n(),
            seen.len() == self.n(),
            stamp.len() == self.n(),
            rootof.len() == self.n(),
            x < self.n(),
            !seen[x as int],
            items0.count(x) > 0,
            0 <= rho < self.n(),
            forall|i: int| 0 <= i < rho ==> seen[i],
            roots.count(rho as usize) > 0,
            forall|y: usize| items0.count(y) > 0 ==> y < self.n(),
            forall|y: int| 0 <= y < self.n() && seen[y] ==> stamp[y] < clock,
            forall|y: int|
                #![trigger seen[y]]
                0 <= y < self.n() && seen[y] ==> roots.count(y as usize) > 0 || exists|z: int|
                    0 <= z < self.n() && seen[z] && stamp[z] < stamp[y] && self.out_lists()[z].contains(y as usize),
            forall|y: usize|
                #[trigger] items0.count(y) > 0 ==> roots.count(y) > 0 || exists|z: int|
                    0 <= z < self.n() && seen[z] && self.out_lists()[z].contains(y),
            forall|y: usize|
                items0.count(y) > 0 ==> exists|w: Seq<usize>| #[trigger] is_node_walk(self.out_lists(), w, rho, y as int),
            traced_roots(self.out_lists(), seen, roots, rootof),
            rooted_forest(self.out_lists()) ==> {
                &&& roots_unlisted(self.out_lists(), roots)
                &&& fresh(seen, items0)
                &&& closed(self.out_lists(), seen, items0)
            },
        ensures
            ({
                let lists = self.out_lists();
                let n = self.n();
                let s1 = seen.update(x as int, true);
                let st1 = stamp.update(x as int, clock);
                let ro1 = rootof.update(x as int, rho);
                let items1 = items0.remove(x).add(lists[x as int].to_multiset());
                &&& forall|y: int| 0 <= y < n && s1[y] ==> st1[y] < clock + 1
                &&& forall|y: int|
                    #![trigger s1[y]]
                    0 <= y < n && s1[y] ==> roots.count(y as usize) > 0 || exists|z: int|
                        0 <= z < n && s1[z] && st1[z] < st1[y] && lists[z].contains(y as usize)
                &&& forall|y: usize|
                    #[trigger] items1.count(y) > 0 ==> roots.count(y) > 0 || exists|z: int|
                        0 <= z < n && s1[z] && lists[z].contains(y)
                &&& forall|y: usize|
                    items1.count(y) > 0 ==> exists|w: Seq<usize>| #[trigger] is_node_walk(lists, w, rho, y as int)
                &&& traced_roots(lists, s1, roots, ro1)
                &&& rooted_forest(lists) ==> {
                    &&& roots_unlisted(lists, roots)
                    &&& fresh(s1, items1)
                    &&& closed(lists, s1, items1)
                }
            }),
    {
        let lists = self.out_lists();
        let n = self.n();
        let s0 = seen;
        let s1 = seen.update(x as int, true);
        let st1 = stamp.update(x as int, clock);
        let ro1 = rootof.update(x as int, rho);
        let items1 = items0.remove(x).add(lists[x as int].to_multiset());
        let lx = lists[x as int];
        assert forall|y: int|
            #![trigger s1[y]]
            0 <= y < n && s1[y] implies roots.count(y as usize) > 0 || exists|z: int|
                0 <= z < n && s1[z] && st1[z] < st1[y] && lists[z].contains(y as usize) by {
            if y == x {
                if roots.count(y as usize) == 0 {
                    let z = choose|z: int| 0 <= z < n && s0[z] && lists[z].contains(y as usize);
                    assert(s1[z] && st1[z] < st1[y]);
                }
            } else {
                assert(s0[y]);
                if roots.count(y as usize) == 0 {
                    let z = choose|z: int| 0 <= z < n && s0[z] && stamp[z] < stamp[y] && lists[z].contains(y as usize);
                    assert(s1[z] && st1[z] < st1[y]);
                }
            }
        }
        assert forall|y: usize|
            #[trigger] items1.count(y) > 0 implies roots.count(y) > 0 || exists|z: int|
                0 <= z < n && s1[z] && lists[z].contains(y) by {
            if lx.to_multiset().count(y) > 0 {
                assert(s1[x as int] && lists[x as int].contains(y));
            } else {
                assert(items0.count(y) > 0);
                if roots.count(y) == 0 {
                    let z = choose|z: int| 0 <= z < n && s0[z] && lists[z].contains(y);
                    assert(s1[z]);
                }
            }
        }
        let wx = choose|w: Seq<usize>| #[trigger] is_node_walk(lists, w, rho, x as int);
        assert forall|y: usize|
            items1.count(y) > 0 implies exists|w: Seq<usize>| #[trigger] is_node_walk(lists, w, rho, y as int) by {
            if lx.to_multiset().count(y) > 0 {
                assert(lx.contains(y));
                let k = choose|k: int| 0 <= k < lx.len() && lx[k] == y;
                assert(lists[x as int][k] < n);
                lemma_node_walk_push(lists, wx, rho, x as int, y);
            } else {
                assert(items0.count(y) > 0);
            }
        }
        assert forall|y: int| 0 <= y < s1.len() && #[trigger] s1[y] implies {
            &&& 0 <= ro1[y] <= y
            &&& roots.count(ro1[y] as usize) > 0
            &&& exists|w: Seq<usize>| #[trigger] is_node_walk(lists, w, ro1[y], y)
        } by {
            if y == x {
                assert(rho <= x) by {
                    if x < rho {
                        assert(seen[x as int]);
                    }
                }
                assert(is_node_walk(lists, wx, ro1[y], y));
            } else {
                assert(seen[y]);
            }
        }
        if rooted_forest(lists) {
            // `x` is listed at most by the node that fed it; none of its targets is marked
            // or waiting, and it lists each of them once.
            assert forall|c: usize| lx.contains(c) implies {
                &&& c < n
                &&& !s1[c as int]
                &&& items0.count(c) == 0
                &&& lx.to_multiset().count(c) == 1
            } by {
                let k = choose|k: int| 0 <= k < lx.len() && lx[k] == c;
                assert(lists[x as int][k] < n);
                lemma_entries_count(lists, n, x as int, x as int, c);
                assert(in_degree(lists, c) >= 1);
                assert(roots.count(c) == 0);
                if c == x {
                    // `x` was fed by a marked node, which also lists it.
                    let z = choose|z: int| 0 <= z < n && s0[z] && lists[z].contains(x);
                    lemma_entries_count(lists, n, x as int, z, c);
                }
                if s0[c as int] {
                    let z = choose|z: int| 0 <= z < n && s0[z] && stamp[z] < stamp[c as int] && lists[z].contains(c);
                    lemma_entries_count(lists, n, x as int, z, c);
                }
                if items0.count(c) > 0 {
                    let z = choose|z: int| 0 <= z < n && s0[z] && lists[z].contains(c);
                    lemma_entries_count(lists, n, x as int, z, c);
                }
            }
            assert forall|y: usize| #[trigger] items1.count(y) > 0 implies !s1[y as int] && items1.count(y) == 1 by {
                if lx.contains(y) {
                } else {
                    assert(lx.to_multiset().count(y) == 0);
                    assert(items0.count(y) > 0);
                    if y == x {
                        assert(items0.count(x) == 1);
                    }
                }
            }
            assert forall|z: int, y: usize|
                0 <= z < s1.len() && s1[z] && #[trigger] lists[z].contains(y) implies s1[y as int] || items1.count(y) > 0 by {
                if z == x {
                    assert(lx.to_multiset().count(y) > 0);
                } else if y != x {
                    assert(s0[z]);
                    if !s0[y as int] {
                        assert(items0.count(y) > 0);
                    }
                }
            }
        }
    }

    /// Once every node is marked, with each node marked once, reached from a root or from a
    /// node marked before it: no node is listed twice and no cycle is listed.
    proof fn lemma_no_loop(&self, seen: Seq<bool>, roots: Multiset<usize>, stamp: Seq<int>, rootof: Seq<int>)
        requires
            rootof.len() == self.n(),
            traced_roots(self.out_lists(), seen, roots, rootof),
            self.n() <= usize::MAX,
            seen.len() == self.n(),
            stamp.len() == self.n(),
            self.out_lists().len() == self.n(),
            forall|i: int| 0 <= i < seen.len() ==> seen[i],
            roots.add(fed(self.out_lists(), seen, self.n())) =~= marked(seen, self.n()),
            forall|y: int|
                #![trigger seen[y]]
                0 <= y < self.n() && seen[y] ==> roots.count(y as usize) > 0 || exists|x: int|
                    0 <= x < self.n() && seen[x] && stamp[x] < stamp[y] && self.out_lists()[x].contains(
                        y as usize,
                    ),
        ensures
            rooted_forest(self.out_lists()),
            forall|c: Seq<usize>| !#[trigger] is_cycle(self.out_lists(), c),
    {
        let lists = self.out_lists();
        let n = self.n();
        lemma_fed_all(lists, seen, n);
        assert forall|y: usize| #[trigger] in_degree(lists, y) <= 1 by {
            assert(roots.count(y) + entries(lists, n).count(y) == marked(seen, n).count(y));
        }
        assert forall|y: usize|
            y < lists.len() && #[trigger] in_degree(lists, y) > 0 implies exists|r: usize, w: Seq<usize>|
                r < y && in_degree(lists, r) == 0 && #[trigger] is_node_walk(lists, w, r as int, y as int) by {
            assert(roots.count(y) + entries(lists, n).count(y) == marked(seen, n).count(y));
            assert(seen[y as int]);
            let r = rootof[y as int];
            let w = choose|w: Seq<usize>| #[trigger] is_node_walk(lists, w, r, y as int);
            let ru = r as usize;
            assert(roots.count(ru) + entries(lists, n).count(ru) == marked(seen, n).count(ru));
            assert(ru < y);
            assert(is_node_walk(lists, w, ru as int, y as int));
        }
        assert forall|c: Seq<usize>| !#[trigger] is_cycle(lists, c) by {
            if is_cycle(lists, c) {
                // Each node of the cycle is reached from the node before it, which was
                // marked first: the one marked first cannot be.
                let m = lemma_min_stamp(c, stamp, c.len() as int);
                let y = c[m];
                let p = if m == 0 {
                    c.len() - 1
                } else {
                    m - 1
                };
                let w = c[p];
                assert(cycle_next(c, p) == y);
                assert(lists[w as int].contains(y));
                lemma_entries_count(lists, n, w as int, w as int, y);
                assert(roots.count(y) + entries(lists, n).count(y) == marked(seen, n).count(y));
                assert(seen[y as int]);
                let x = choose|x: int| 0 <= x < n && seen[x] && stamp[x] < stamp[y as int] && lists[x].contains(y);
                if x != w {
                    lemma_entries_count(lists, n, x, w as int, y);
                }
                assert(stamp[c[p] as int] >= stamp[c[m] as int]);
            }
        }
    }
}

} // verus!
