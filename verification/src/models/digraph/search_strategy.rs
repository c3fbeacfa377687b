use std::collections::VecDeque;
use std::marker::PhantomData;

use super::Digraph;
use rand::Rng;
use vstd::multiset::Multiset;
use vstd::prelude::*;

verus! {

broadcast use vstd::seq_lib::group_to_multiset_ensures;

/// An index drawn at random below `len`.
#[verifier::external_body]
fn random_index(len: usize) -> (r: usize)
    requires
        len > 0,
    ensures
        r < len,
{
    rand::thread_rng().gen_range(0..len)
}

/// A pool of items waiting to be explored: items are fed in and taken out one at a time.
pub trait SearchStrategy<T>: Sized {
    /// The items fed and not taken yet.
    spec fn items(&self) -> Multiset<T>;

    /// The items fed and not taken yet, in the order the strategy keeps them.
    spec fn waiting(&self) -> Seq<T>;

    /// Whether the strategy may take `x` out next, leaving `rest` waiting.
    spec fn may_take(&self, x: T, rest: Seq<T>) -> bool;

    fn feed(&mut self, x: T)
        ensures
            final(self).items() == old(self).items().insert(x),
            final(self).waiting() == old(self).waiting().push(x),
    ;

    /// Takes out one of the items; `None` when there is none.
    fn next(&mut self) -> (r: Option<T>)
        ensures
            match r {
                None => old(self).items().len() == 0 && final(self).items() == old(self).items()
                    && old(self).waiting().len() == 0 && final(self).waiting() == old(self).waiting(),
                Some(x) => old(self).items().count(x) > 0 && final(self).items() == old(
                    self,
                ).items().remove(x) && old(self).may_take(x, final(self).waiting()),
            },
    ;
}

/// Items taken out in the order they were fed.
pub struct BreadthFirst<T> {
    vec: VecDeque<T>,
}

impl<T> BreadthFirst<T> {
    /// The items waiting, first to come out first.
    pub closed spec fn queue(&self) -> Seq<T> {
        self.vec@
    }

    pub fn new() -> (s: Self)
        ensures
            s.queue() == Seq::<T>::empty(),
    {
        Self { vec: VecDeque::new() }
    }
}

/// Items taken out last fed first.
pub struct DepthFirst<T> {
    vec: Vec<T>,
}

impl<T> DepthFirst<T> {
    /// The items waiting, last to come out first.
    pub closed spec fn stack(&self) -> Seq<T> {
        self.vec@
    }

    pub fn new() -> (s: Self)
        ensures
            s.stack() == Seq::<T>::empty(),
    {
        Self { vec: Vec::new() }
    }
}

/// Items taken out in random order.
pub struct RandomSearch<T> {
    vec: Vec<T>,
}

impl<T> RandomSearch<T> {
    /// The items waiting, in the order they are kept.
    pub closed spec fn pool(&self) -> Seq<T> {
        self.vec@
    }

    pub fn new() -> (s: Self)
        ensures
            s.pool() == Seq::<T>::empty(),
    {
        Self { vec: Vec::new() }
    }
}

impl<T> SearchStrategy<T> for BreadthFirst<T> {
    open spec fn items(&self) -> Multiset<T> {
        self.queue().to_multiset()
    }

    open spec fn waiting(&self) -> Seq<T> {
        self.queue()
    }

    /// The first item fed is taken first.
    open spec fn may_take(&self, x: T, rest: Seq<T>) -> bool {
        self.queue().len() > 0 && x == self.queue()[0] && rest == self.queue().drop_first()
    }

    fn feed(&mut self, x: T)
        ensures
            final(self).queue() == old(self).queue().push(x),
    {
        self.vec.push_back(x)
    }

    fn next(&mut self) -> (r: Option<T>)
        ensures
            match r {
                None => old(self).queue().len() == 0,
                Some(x) => old(self).queue().len() > 0 && x == old(self).queue()[0]
                    && final(self).queue() == old(self).queue().drop_first(),
            },
    {
        let ghost q = self.vec@;
        let r = self.vec.pop_front();
        proof {
            if q.len() > 0 {
                assert(q.drop_first() =~= q.remove(0));
            }
        }
        r
    }
}

impl<T> SearchStrategy<T> for DepthFirst<T> {
    open spec fn items(&self) -> Multiset<T> {
        self.stack().to_multiset()
    }

    open spec fn waiting(&self) -> Seq<T> {
        self.stack()
    }

    /// The last item fed is taken first.
    open spec fn may_take(&self, x: T, rest: Seq<T>) -> bool {
        self.stack().len() > 0 && x == self.stack().last() && rest == self.stack().drop_last()
    }

    fn feed(&mut self, x: T)
        ensures
            final(self).stack() == old(self).stack().push(x),
    {
        self.vec.push(x)
    }

    fn next(&mut self) -> (r: Option<T>)
        ensures
            match r {
                None => old(self).stack().len() == 0,
                Some(x) => old(self).stack().len() > 0 && x == old(self).stack().last()
                    && final(self).stack() == old(self).stack().drop_last(),
            },
    {
        let ghost q = self.vec@;
        let r = self.vec.pop();
        proof {
            if q.len() > 0 {
                assert(q.drop_last() =~= q.remove(q.len() - 1));
            }
        }
        r
    }
}

impl<T> SearchStrategy<T> for RandomSearch<T> {
    open spec fn items(&self) -> Multiset<T> {
        self.pool().to_multiset()
    }

    open spec fn waiting(&self) -> Seq<T> {
        self.pool()
    }

    /// Any waiting item may be taken; the others keep their order.
    open spec fn may_take(&self, x: T, rest: Seq<T>) -> bool {
        exists|i: int| 0 <= i < self.pool().len() && x == self.pool()[i] && rest == self.pool().remove(i)
    }

    fn feed(&mut self, x: T)
        ensures
            final(self).pool() == old(self).pool().push(x),
    {
        self.vec.push(x)
    }

    fn next(&mut self) -> (r: Option<T>)
        ensures
            match r {
                None => old(self).pool().len() == 0,
                Some(x) => exists|i: int|
                    0 <= i < old(self).pool().len() && x == old(self).pool()[i] && final(self).pool()
                        == old(self).pool().remove(i),
            },
    {
        if self.vec.len() == 0 {
            return None;
        }
        let index = random_index(self.vec.len());
        let ghost q = self.vec@;
        let x = self.vec.remove(index);
        assert(q.remove(index as int) == self.vec@);
        Some(x)
    }
}

/// A way to find the neighbors of an item.
pub trait NeighborsFinder<U>: Sized {
    /// Whether the finder can look up the neighbors of `x`.
    spec fn accepts(&self, x: U) -> bool;

    /// Whether `found` are the neighbors given for `x`, the finder becoming `after`.
    spec fn finds(&self, x: U, found: Seq<U>, after: Self) -> bool;

    fn neighbors(&mut self, x: &U) -> (r: Vec<U>)
        requires
            old(self).accepts(*x),
        ensures
            old(self).finds(*x, r@, *final(self)),
    ;
}

/// A traversal: items come out of the strategy, and the neighbors of each item that
/// comes out are fed back in.
pub struct GraphTraversal<U, S: SearchStrategy<U>, N: NeighborsFinder<U>> {
    pub strategy: S,
    pub neighbors_finder: N,
    pub phantom: PhantomData<U>,
}

impl<U, S: SearchStrategy<U>, N: NeighborsFinder<U>> GraphTraversal<U, S, N> {
    pub fn new(initial: U, strategy: S, neighbors_finder: N) -> (t: Self)
        ensures
            t.strategy.items() == strategy.items().insert(initial),
            t.strategy.waiting() == strategy.waiting().push(initial),
            t.neighbors_finder == neighbors_finder,
    {
        let mut strategy = strategy;
        strategy.feed(initial);
        GraphTraversal { strategy, neighbors_finder, phantom: PhantomData }
    }

    /// The next item out of the strategy, once its neighbors are fed in.
    pub fn next(&mut self) -> (r: Option<U>)
        requires
            forall|x: U|
                old(self).strategy.items().count(x) > 0 ==> old(self).neighbors_finder.accepts(x),
        ensures
            match r {
                None => {
                    &&& old(self).strategy.items().len() == 0
                    &&& old(self).strategy.waiting().len() == 0
                    &&& final(self).strategy.items() == old(self).strategy.items()
                    &&& final(self).strategy.waiting() == old(self).strategy.waiting()
                    &&& final(self).neighbors_finder == old(self).neighbors_finder
                },
                Some(x) => {
                    &&& old(self).strategy.items().count(x) > 0
                    &&& exists|found: Seq<U>|
                        {
                            &&& old(self).neighbors_finder.finds(x, found, final(self).neighbors_finder)
                            &&& final(self).strategy.items() == old(self).strategy.items().remove(
                                x,
                            ).add(found.to_multiset())
                            &&& exists|rest: Seq<U>|
                                #[trigger] old(self).strategy.may_take(x, rest)
                                    && final(self).strategy.waiting() == rest + found
                        }
                },
            },
    {
        let x = self.strategy.next();
        match x {
            None => None,
            Some(x) => {
                let mut neighbors = self.neighbors_finder.neighbors(&x);
                let ghost found = neighbors@;
                let ghost base = self.strategy.items();
                let ghost rest = self.strategy.waiting();
                let ghost finder = self.neighbors_finder;
                let len = neighbors.len();
                let mut k: usize = 0;
                while k < len
                    invariant
                        k <= len,
                        len == found.len(),
                        neighbors@ == found.subrange(k as int, len as int),
                        self.strategy.items() == base.add(found.subrange(0, k as int).to_multiset()),
                        self.strategy.waiting() == rest + found.subrange(0, k as int),
                        self.neighbors_finder == finder,
                    decreases len - k,
                {
                    let ghost before = neighbors@;
                    let y = neighbors.remove(0);
                    self.strategy.feed(y);
                    proof {
                        assert(found.subrange(0, k + 1) =~= found.subrange(0, k as int).push(y));
                        assert(rest + found.subrange(0, k + 1) =~= (rest + found.subrange(0, k as int)).push(y));
                        assert(neighbors@ =~= found.subrange(k + 1, len as int));
                    }
                    k += 1;
                }
                proof {
                    assert(found.subrange(0, len as int) =~= found);
                }
                Some(x)
            },
        }
    }
}

/// Neighbors in a graph: the targets listed by a node for its outgoing edges.
pub struct DigraphNeighbors<'a, T, U> {
    pub graph: &'a Digraph<T, U>,
}

impl<'a, T, U> NeighborsFinder<usize> for DigraphNeighbors<'a, T, U> {
    open spec fn accepts(&self, x: usize) -> bool {
        self.graph.wf() && x < self.graph.n()
    }

    open spec fn finds(&self, x: usize, found: Seq<usize>, after: Self) -> bool {
        &&& found == self.graph.out_lists()[x as int]
        &&& after == *self
    }

    fn neighbors(&mut self, x: &usize) -> (r: Vec<usize>) {
        self.graph.node_at(*x).downstream_nodes()
    }
}

/// The targets among `targets` not seen yet, each once, and the marks once they are seen.
pub open spec fn unseen_targets(targets: Seq<usize>, seen: Seq<bool>) -> (Seq<usize>, Seq<bool>)
    decreases targets.len(),
{
    if targets.len() == 0 {
        (Seq::empty(), seen)
    } else {
        let (before, marks) = unseen_targets(targets.drop_last(), seen);
        let y = targets.last();
        if marks[y as int] {
            (before, marks)
        } else {
            (before.push(y), marks.update(y as int, true))
        }
    }
}

/// Neighbors in a graph that were not found before: each node is given at most once.
pub struct UniqDigraphNeighbors<'a, T, U> {
    pub seen: Vec<bool>,
    pub graph: &'a Digraph<T, U>,
}

impl<'a, T, U> UniqDigraphNeighbors<'a, T, U> {
    /// A finder over `graph` with no mark yet; marks for every node must be set before use.
    pub fn new(graph: &'a Digraph<T, U>) -> (f: Self)
        ensures
            f.seen@ == Seq::<bool>::empty(),
            f.graph == graph,
    {
        Self { seen: Vec::new(), graph }
    }
}

impl<'a, T, U> NeighborsFinder<usize> for UniqDigraphNeighbors<'a, T, U> {
    open spec fn accepts(&self, x: usize) -> bool {
        self.graph.wf() && x < self.graph.n() && self.seen@.len() == self.graph.n()
    }

    open spec fn finds(&self, x: usize, found: Seq<usize>, after: Self) -> bool {
        let (ys, marks) = unseen_targets(self.graph.out_lists()[x as int], self.seen@);
        &&& found == ys
        &&& after.seen@ == marks
        &&& after.graph == self.graph
    }

    fn neighbors(&mut self, x: &usize) -> (r: Vec<usize>) {
        let targets = self.graph.node_at(*x).downstream_nodes();
        let ghost all = targets@;
        let ghost seen0 = self.seen@;
        let n = targets.len();
        let mut res: Vec<usize> = Vec::new();
        for k in 0..n
            invariant
                n == all.len(),
                targets@ == all,
                all == self.graph.out_lists()[*x as int],
                self.graph.wf(),
                *x < self.graph.n(),
                self.seen@.len() == self.graph.n(),
                self.graph == old(self).graph,
                (res@, self.seen@) == unseen_targets(all.subrange(0, k as int), seen0),
        {
            let y = targets[k];
            proof {
                assert(all.subrange(0, k + 1).drop_last() =~= all.subrange(0, k as int));
                assert(y < self.graph.n());
            }
            if !self.seen[y] {
                self.seen.set(y, true);
                res.push(y);
            }
        }
        proof {
            assert(all.subrange(0, n as int) =~= all);
            let (ys, marks) = unseen_targets(all, seen0);
            assert(res@ == ys && self.seen@ == marks);
            assert(self.graph == old(self).graph);
        }
        res
    }
}

impl<'a, T, U> GraphTraversal<usize, BreadthFirst<usize>, DigraphNeighbors<'a, T, U>> {
    /// Breadth-first traversal of `graph` from the node at `initial`.
    pub fn bfs(graph: &'a Digraph<T, U>, initial: usize) -> (t: Self)
        ensures
            t.strategy.items() == Multiset::<usize>::empty().insert(initial),
            t.strategy.waiting() == seq![initial],
            t.neighbors_finder.graph == graph,
    {
        Self::new(initial, BreadthFirst::new(), DigraphNeighbors { graph })
    }
}

impl<'a, T, U> GraphTraversal<usize, DepthFirst<usize>, DigraphNeighbors<'a, T, U>> {
    /// Depth-first traversal of `graph` from the node at `initial`.
    pub fn dfs(graph: &'a Digraph<T, U>, initial: usize) -> (t: Self)
        ensures
            t.strategy.items() == Multiset::<usize>::empty().insert(initial),
            t.strategy.waiting() == seq![initial],
            t.neighbors_finder.graph == graph,
    {
        Self::new(initial, DepthFirst::new(), DigraphNeighbors { graph })
    }
}

impl<'a, T, U> GraphTraversal<usize, RandomSearch<usize>, DigraphNeighbors<'a, T, U>> {
    /// Traversal of `graph` from the node at `initial`, in random order.
    pub fn random(graph: &'a Digraph<T, U>, initial: usize) -> (t: Self)
        ensures
            t.strategy.items() == Multiset::<usize>::empty().insert(initial),
            t.strategy.waiting() == seq![initial],
            t.neighbors_finder.graph == graph,
    {
        Self::new(initial, RandomSearch::new(), DigraphNeighbors { graph })
    }
}

} // verus!
