use super::{lemma_unseen_update, matrix_cells, matrix_shape, plain_weights, unseen_count, weights_of, Digraph};
use crate::models::Edge;
use vstd::prelude::*;

verus! {

/// Whether the edge keys `p` lead from node `a` to node `b`, each edge starting where the
/// one before ended, along edges of `edges` between two different nodes. The empty list
/// leads from a node to itself.
pub open spec fn is_walk<U>(edges: Map<(usize, usize), Edge<U>>, p: Seq<(usize, usize)>, a: int, b: int) -> bool {
    if p.len() == 0 {
        a == b
    } else {
        &&& p[0].0 == a
        &&& p[p.len() - 1].1 == b
        &&& forall|k: int| 0 <= k < p.len() ==> edges.contains_key(#[trigger] p[k]) && p[k].0 != p[k].1
        &&& forall|k: int| #![trigger p[k]] 0 <= k < p.len() - 1 ==> p[k].1 == p[k + 1].0
    }
}

/// The sum of the weights `w` of the edges of `p`.
pub open spec fn walk_weight(w: Map<(int, int), i64>, p: Seq<(usize, usize)>) -> int
    decreases p.len(),
{
    if p.len() == 0 {
        0
    } else {
        walk_weight(w, p.drop_last()) + w[(p[p.len() - 1].0 as int, p[p.len() - 1].1 as int)]
    }
}

/// Whether no edge between two different nodes has a negative weight in `w`.
pub open spec fn nonneg_weights<U>(edges: Map<(usize, usize), Edge<U>>, n: int, w: Map<(int, int), i64>) -> bool {
    forall|a: int, b: int|
        0 <= a < n && 0 <= b < n && a != b && edges.contains_key((a as usize, b as usize)) ==> #[trigger] w[(a, b)]
            >= 0
}

/// The smaller of `x` and `cap`.
pub open spec fn capped(x: i64, cap: i64) -> i64 {
    if x < cap {
        x
    } else {
        cap
    }
}

/// Whether the distances `d` and the edge lists `tr` from node `i` are those of a shortest
/// path search over the weights `w`, `no_edge` standing for no path:
/// each distance is the weight of its list, a walk from `i`, or it is `no_edge` with no
/// list; and, where no weight is negative, no walk to a node that the search was asked
/// about (all of them, or `target`) weighs less than its distance, `no_edge` at most.
pub open spec fn shortest_from<U>(
    edges: Map<(usize, usize), Edge<U>>,
    n: int,
    w: Map<(int, int), i64>,
    i: int,
    no_edge: i64,
    target: Option<usize>,
    d: Seq<i64>,
    tr: Seq<Vec<(usize, usize)>>,
) -> bool {
    &&& d.len() == n
    &&& tr.len() == n
    &&& forall|v: int| 0 <= v < n ==> #[trigger] traced(edges, w, i, no_edge, d, tr, v)
    &&& nonneg_weights(edges, n, w) ==> forall|v: int, p: Seq<(usize, usize)>|
        0 <= v < n && (target is None || target == Some(v as usize)) && #[trigger] is_walk(edges, p, i, v)
            ==> capped(d[v], no_edge) <= walk_weight(w, p)
}

/// Whether the distance of `v` is the weight of its edge list, a walk from `i`, or `no_edge`
/// with an empty list.
pub open spec fn traced<U>(
    edges: Map<(usize, usize), Edge<U>>,
    w: Map<(int, int), i64>,
    i: int,
    no_edge: i64,
    d: Seq<i64>,
    tr: Seq<Vec<(usize, usize)>>,
    v: int,
) -> bool {
    ||| v != i && d[v] == no_edge && tr[v]@.len() == 0
    ||| is_walk(edges, tr[v]@, i, v) && walk_weight(w, tr[v]@) == d[v]
}

/// Every node reached so far is at its shortest distance.
spec fn settled_best<U>(
    edges: Map<(usize, usize), Edge<U>>,
    w: Map<(int, int), i64>,
    i: int,
    d: Seq<i64>,
    added: Seq<bool>,
) -> bool {
    forall|s: int, p: Seq<(usize, usize)>|
        0 <= s < d.len() && added[s] && #[trigger] is_walk(edges, p, i, s) ==> d[s] <= walk_weight(w, p)
}

/// Every node not reached yet is no farther than through an edge from a reached node, for
/// the reached nodes other than `last`, and for `last` towards the nodes before `upto`.
spec fn relaxed<U>(
    edges: Map<(usize, usize), Edge<U>>,
    w: Map<(int, int), i64>,
    d: Seq<i64>,
    added: Seq<bool>,
    last: int,
    upto: int,
) -> bool {
    forall|s: int, v: int|
        0 <= s < d.len() && 0 <= v < d.len() && added[s] && !added[v] && s != v && edges.contains_key(
            (s as usize, v as usize),
        ) && (s != last || v < upto) ==> d[v] <= d[s] + #[trigger] w[(s, v)]
}

/// A walk followed by an edge from its end is a walk, one edge heavier.
proof fn lemma_walk_push<U>(
    edges: Map<(usize, usize), Edge<U>>,
    w: Map<(int, int), i64>,
    p: Seq<(usize, usize)>,
    a: int,
    b: usize,
    c: usize,
)
    requires
        is_walk(edges, p, a, b as int),
        edges.contains_key((b, c)),
        b != c,
    ensures
        is_walk(edges, p.push((b, c)), a, c as int),
        walk_weight(w, p.push((b, c))) == walk_weight(w, p) + w[(b as int, c as int)],
{
    let q = p.push((b, c));
    assert(q.drop_last() =~= p);
    if p.len() > 0 {
        assert forall|k: int| #![trigger q[k]] 0 <= k < q.len() - 1 implies q[k].1 == q[k + 1].0 by {
            if k < p.len() - 1 {
                assert(q[k] == p[k] && q[k + 1] == p[k + 1]);
            }
        }
        assert forall|k: int| 0 <= k < q.len() implies edges.contains_key(#[trigger] q[k]) && q[k].0 != q[k].1 by {
            if k < p.len() {
                assert(q[k] == p[k]);
            }
        }
    }
}

/// Without its last edge, a walk is a walk to where that edge starts.
proof fn lemma_walk_prefix<U>(
    edges: Map<(usize, usize), Edge<U>>,
    p: Seq<(usize, usize)>,
    a: int,
    b: int,
)
    requires
        is_walk(edges, p, a, b),
        p.len() > 0,
    ensures
        is_walk(edges, p.drop_last(), a, p[p.len() - 1].0 as int),
        edges.contains_key(p[p.len() - 1]),
        p[p.len() - 1].0 != p[p.len() - 1].1,
        p[p.len() - 1].1 == b,
{
    let q = p.drop_last();
    assert(edges.contains_key(p[p.len() - 1]));
    if q.len() > 0 {
        assert(p[p.len() - 2].1 == p[p.len() - 1].0);
        assert forall|k: int| 0 <= k < q.len() implies edges.contains_key(#[trigger] q[k]) && q[k].0 != q[k].1 by {
            assert(q[k] == p[k]);
        }
        assert forall|k: int| #![trigger q[k]] 0 <= k < q.len() - 1 implies q[k].1 == q[k + 1].0 by {
            assert(q[k] == p[k] && q[k + 1] == p[k + 1]);
        }
    }
}

/// A walk weighs no less than 0 when no edge weighs less.
proof fn lemma_walk_weight_nonneg<U>(
    edges: Map<(usize, usize), Edge<U>>,
    n: int,
    w: Map<(int, int), i64>,
    p: Seq<(usize, usize)>,
    a: int,
    b: int,
)
    requires
        is_walk(edges, p, a, b),
        nonneg_weights(edges, n, w),
        forall|k: (usize, usize)| #[trigger] edges.contains_key(k) ==> k.0 < n && k.1 < n,
    ensures
        walk_weight(w, p) >= 0,
    decreases p.len(),
{
    if p.len() > 0 {
        lemma_walk_prefix(edges, p, a, b);
        let e = p[p.len() - 1];
        lemma_walk_weight_nonneg(edges, n, w, p.drop_last(), a, e.0 as int);
        assert(w[(e.0 as int, e.1 as int)] >= 0);
    }
}

/// A walk from a reached node to a node not reached yet passes a node not reached yet
/// whose distance is no more than the weight of the walk.
proof fn lemma_first_exit<U>(
    edges: Map<(usize, usize), Edge<U>>,
    n: int,
    w: Map<(int, int), i64>,
    i: int,
    d: Seq<i64>,
    added: Seq<bool>,
    p: Seq<(usize, usize)>,
    u: int,
) -> (x: int)
    requires
        d.len() == n,
        added.len() == n,
        0 <= i < n,
        added[i],
        0 <= u < n,
        !added[u],
        is_walk(edges, p, i, u),
        settled_best(edges, w, i, d, added),
        relaxed(edges, w, d, added, -1, 0),
        nonneg_weights(edges, n, w),
        forall|k: (usize, usize)| #[trigger] edges.contains_key(k) ==> k.0 < n && k.1 < n,
    ensures
        0 <= x < n,
        !added[x],
        d[x] <= walk_weight(w, p),
    decreases p.len(),
{
    lemma_walk_prefix(edges, p, i, u);
    let q = p.drop_last();
    let e = p[p.len() - 1];
    let a = e.0 as int;
    assert(edges.contains_key(e));
    assert(edges.contains_key((a as usize, u as usize)));
    assert(w[(a, u)] >= 0);
    if added[a] {
        assert(is_walk(edges, q, i, a));
        assert(d[a] <= walk_weight(w, q));
        assert(d[u] <= d[a] + w[(a, u)]);
        u
    } else {
        lemma_first_exit(edges, n, w, i, d, added, q, a)
    }
}

impl<T, U> Digraph<T, U> {
    /// Shortest paths from the node at `from` over the weights that `weight` gives the
    /// edges, `no_edge` standing for no path: the distance of each node and the edges of a
    /// path of that length. Nodes are reached in order of distance; with a `target`, the
    /// search stops once the target is reached.
    pub fn dijkstra<F>(&self, from: usize, target: Option<usize>, weight: F, no_edge: i64) -> (r: (
        Vec<i64>,
        Vec<Vec<(usize, usize)>>,
    )) where F: Fn(&U) -> i64
        requires
            self.wf(),
            self.n() * self.n() <= usize::MAX,
            from < self.n(),
            target matches Some(t) ==> t < self.n(),
            forall|k: (usize, usize)|
                #[trigger] self.edge_map().contains_key(k) ==> call_requires(weight, (&self.edge_map()[k].weight,)),
        ensures
            exists|w: Map<(int, int), i64>|
                #[trigger] weights_of(self.edge_map(), self.n(), weight, no_edge, w) && shortest_from(
                    self.edge_map(),
                    self.n(),
                    w,
                    from as int,
                    no_edge,
                    target,
                    r.0@,
                    r.1@,
                ),
    {
        let n = self.n_nodes();
        let m = self.make_weight_matrix(weight, no_edge);
        let ghost w = matrix_cells(m);
        let ghost edges = self.edge_map();
        let ghost i = from as int;
        assert(forall|k: (usize, usize)| #[trigger] edges.contains_key(k) ==> k.0 < n && k.1 < n);
        let mut dists: Vec<i64> = Vec::new();
        let mut traces: Vec<Vec<(usize, usize)>> = Vec::new();
        let mut added: Vec<bool> = Vec::new();
        let mut min_w = no_edge;
        let mut min_j = usize::MAX;
        for j in 0..n
            invariant
                n == self.n(),
                from < n,
                i == from as int,
                edges == self.edge_map(),
                weights_of(edges, n as int, weight, no_edge, w),
                matrix_cells(m) == w,
                matrix_shape(m) == (n as nat, n as nat),
                dists@.len() == j,
                traces@.len() == j,
                added@.len() == j,
                forall|v: int| 0 <= v < j ==> #[trigger] added@[v] == (v == i),
                forall|v: int| 0 <= v < j ==> #[trigger] dists@[v] == w[(i, v)],
                forall|v: int| 0 <= v < j ==> #[trigger] traced(edges, w, i, no_edge, dists@, traces@, v),
                min_j == usize::MAX ==> min_w == no_edge && forall|v: int|
                    0 <= v < j && v != i ==> #[trigger] dists@[v] >= no_edge,
                min_j != usize::MAX ==> {
                    &&& min_j < j
                    &&& min_j != from
                    &&& min_w == dists@[min_j as int]
                    &&& min_w < no_edge
                    &&& forall|v: int| 0 <= v < j && v != i ==> min_w <= #[trigger] dists@[v]
                },
        {
            let value = m.cell(from, j);
            if j != from && value < min_w {
                min_w = value;
                min_j = j;
            }
            let mut t: Vec<(usize, usize)> = Vec::new();
            if j != from && self.has_edge(from, j) {
                t.push((from, j));
                proof {
                    lemma_walk_push(edges, w, Seq::empty(), i, from, j);
                    assert(Seq::<(usize, usize)>::empty().push((from, j)) =~= t@);
                }
            }
            let ghost d0 = dists@;
            let ghost t0 = traces@;
            traces.push(t);
            dists.push(value);
            added.push(j == from);
            proof {
                assert forall|v: int| 0 <= v < j + 1 implies #[trigger] traced(edges, w, i, no_edge, dists@, traces@, v) by {
                    if v < j {
                        assert(traced(edges, w, i, no_edge, d0, t0, v));
                        assert(dists@[v] == d0[v] && traces@[v] == t0[v]);
                    } else {
                        assert(w[(i, v)] == value);
                    }
                }
            }
        }
        proof {
            if nonneg_weights(edges, n as int, w) {
                assert forall|s: int, p: Seq<(usize, usize)>|
                    0 <= s < n && added@[s] && #[trigger] is_walk(edges, p, i, s) implies dists@[s] <= walk_weight(w, p) by {
                    lemma_walk_weight_nonneg(edges, n as int, w, p, i, s);
                }
            }
            if nonneg_weights(edges, n as int, w) {
                assert forall|s: int, v: int|
                    0 <= s < n && 0 <= v < n && added@[s] && !added@[v] && s != v && edges.contains_key(
                        (s as usize, v as usize),
                    ) implies dists@[v] <= dists@[s] + #[trigger] w[(s, v)] by {
                    assert(s == i);
                    assert(dists@[s] == w[(i, i)]);
                }
            }
        }
        while min_j != usize::MAX && (target.is_none() || !added[target.unwrap()])
            invariant
                n == self.n(),
                from < n,
                i == from as int,
                target matches Some(t) ==> t < n,
                edges == self.edge_map(),
                forall|k: (usize, usize)| #[trigger] edges.contains_key(k) ==> k.0 < n && k.1 < n,
                weights_of(edges, n as int, weight, no_edge, w),
                matrix_cells(m) == w,
                matrix_shape(m) == (n as nat, n as nat),
                dists@.len() == n,
                traces@.len() == n,
                added@.len() == n,
                added@[i],
                forall|v: int| 0 <= v < n ==> #[trigger] traced(edges, w, i, no_edge, dists@, traces@, v),
                nonneg_weights(edges, n as int, w) ==> settled_best(edges, w, i, dists@, added@),
                nonneg_weights(edges, n as int, w) ==> relaxed(edges, w, dists@, added@, -1, 0),
                min_j == usize::MAX ==> forall|v: int| 0 <= v < n && !added@[v] ==> #[trigger] dists@[v] >= no_edge,
                min_j != usize::MAX ==> {
                    &&& min_j < n
                    &&& !added@[min_j as int]
                    &&& dists@[min_j as int] < no_edge
                    &&& forall|v: int| 0 <= v < n && !added@[v] ==> dists@[min_j as int] <= #[trigger] dists@[v]
                },
            decreases unseen_count(added@),
        {
            let pre = min_j;
            proof {
                lemma_unseen_update(added@, pre as int);
                if nonneg_weights(edges, n as int, w) {
                    let added1 = added@.update(pre as int, true);
                    assert forall|s: int, p: Seq<(usize, usize)>|
                        0 <= s < n && added1[s] && #[trigger] is_walk(edges, p, i, s) implies dists@[s] <= walk_weight(
                            w,
                            p,
                        ) by {
                        if s == pre {
                            let x = lemma_first_exit(edges, n as int, w, i, dists@, added@, p, s);
                        } else {
                            assert(added@[s]);
                        }
                    }
                }
            }
            added.set(pre, true);
            min_w = no_edge;
            min_j = usize::MAX;
            for j in 0..n
                invariant
                    n == self.n(),
                    from < n,
                    i == from as int,
                    pre < n,
                    edges == self.edge_map(),
                    forall|k: (usize, usize)| #[trigger] edges.contains_key(k) ==> k.0 < n && k.1 < n,
                    weights_of(edges, n as int, weight, no_edge, w),
                    matrix_cells(m) == w,
                    matrix_shape(m) == (n as nat, n as nat),
                    dists@.len() == n,
                    traces@.len() == n,
                    added@.len() == n,
                    added@[i],
                    added@[pre as int],
                    dists@[pre as int] < no_edge,
                    forall|v: int| 0 <= v < n ==> #[trigger] traced(edges, w, i, no_edge, dists@, traces@, v),
                    nonneg_weights(edges, n as int, w) ==> settled_best(edges, w, i, dists@, added@),
                    nonneg_weights(edges, n as int, w) ==> relaxed(edges, w, dists@, added@, pre as int, j as int),
                    min_j == usize::MAX ==> min_w == no_edge && forall|v: int|
                        0 <= v < j && !added@[v] ==> #[trigger] dists@[v] >= no_edge,
                    min_j != usize::MAX ==> {
                        &&& min_j < j
                        &&& !added@[min_j as int]
                        &&& min_w == dists@[min_j as int]
                        &&& min_w < no_edge
                        &&& forall|v: int| 0 <= v < j && !added@[v] ==> min_w <= #[trigger] dists@[v]
                    },
            {
                let ghost dstart = dists@;
                if !added[j] {
                    if self.has_edge(pre, j) {
                        let wt = m.cell(pre, j);
                        match dists[pre].checked_add(wt) {
                            Some(s) => {
                                if s < dists[j] {
                                    let mut t: Vec<(usize, usize)> = Vec::new();
                                    let len = traces[pre].len();
                                    for k in 0..len
                                        invariant
                                            pre < traces@.len(),
                                            len == traces@[pre as int]@.len(),
                                            t@ == traces@[pre as int]@.subrange(0, k as int),
                                    {
                                        t.push(traces[pre][k]);
                                        proof {
                                            assert(t@ =~= traces@[pre as int]@.subrange(0, k + 1));
                                        }
                                    }
                                    t.push((pre, j));
                                    proof {
                                        let tp = traces@[pre as int]@;
                                        assert(tp.subrange(0, len as int) =~= tp);
                                        assert(traced(edges, w, i, no_edge, dists@, traces@, pre as int));
                                        lemma_walk_push(edges, w, tp, i, pre, j);
                                    }
                                    let ghost d0 = dists@;
                                    let ghost t0 = traces@;
                                    dists.set(j, s);
                                    traces.set(j, t);
                                    proof {
                                        assert forall|v: int| 0 <= v < n implies #[trigger] traced(
                                            edges,
                                            w,
                                            i,
                                            no_edge,
                                            dists@,
                                            traces@,
                                            v,
                                        ) by {
                                            if v != j {
                                                assert(traced(edges, w, i, no_edge, d0, t0, v));
                                            }
                                        }
                                        if nonneg_weights(edges, n as int, w) {
                                            assert forall|s2: int, p: Seq<(usize, usize)>|
                                                0 <= s2 < n && added@[s2] && #[trigger] is_walk(edges, p, i, s2) implies dists@[s2]
                                                <= walk_weight(w, p) by {
                                                assert(d0[s2] <= walk_weight(w, p));
                                            }
                                        }
                                    }
                                }
                            },
                            None => {
                                proof {
                                    if nonneg_weights(edges, n as int, w) {
                                        assert(traced(edges, w, i, no_edge, dists@, traces@, pre as int));
                                        lemma_walk_weight_nonneg(edges, n as int, w, traces@[pre as int]@, i, pre as int);
                                        assert(edges.contains_key((pre, j)));
                                        assert(w[(pre as int, j as int)] >= 0);
                                    }
                                }
                            },
                        }
                        assert(nonneg_weights(edges, n as int, w) ==> dists@[j as int] <= dists@[pre as int] + w[(
                            pre as int,
                            j as int,
                        )]);
                    }
                    if dists[j] < min_w {
                        min_w = dists[j];
                        min_j = j;
                    }
                }
                proof {
                    if nonneg_weights(edges, n as int, w) {
                    assert forall|s: int, v: int|
                        0 <= s < n && 0 <= v < n && added@[s] && !added@[v] && s != v && edges.contains_key(
                            (s as usize, v as usize),
                        ) && (s != pre || v < j + 1) implies dists@[v] <= dists@[s] + #[trigger] w[(s, v)] by {
                        assert(dists@[v] <= dstart[v]);
                        assert(dists@[s] == dstart[s]);
                        if s == pre && v == j {
                            assert(edges.contains_key((pre, j)));
                        }
                    }
                    }
                }
            }
        }
        proof {
            if nonneg_weights(edges, n as int, w) {
                assert forall|v: int, p: Seq<(usize, usize)>|
                    0 <= v < n && (target is None || target == Some(v as usize)) && #[trigger] is_walk(edges, p, i, v)
                        implies capped(dists@[v], no_edge) <= walk_weight(w, p) by {
                    if !added@[v] {
                        let x = lemma_first_exit(edges, n as int, w, i, dists@, added@, p, v);
                    }
                }
            }
        }
        (dists, traces)
    }
}

impl<T, U> Digraph<T, U> {
    /// The shortest path from the node at `from` to the node at `target` over the weights
    /// that `weight` gives the edges, with its length, when that length is below `no_edge`.
    pub fn shortest_weighted_path<F>(&self, from: usize, target: usize, weight: F, no_edge: i64) -> (r: Option<
        (i64, Vec<(usize, usize)>),
    >) where F: Fn(&U) -> i64
        requires
            self.wf(),
            self.n() * self.n() <= usize::MAX,
            from < self.n(),
            target < self.n(),
            forall|k: (usize, usize)|
                #[trigger] self.edge_map().contains_key(k) ==> call_requires(weight, (&self.edge_map()[k].weight,)),
        ensures
            exists|w: Map<(int, int), i64>|
                #[trigger] weights_of(self.edge_map(), self.n(), weight, no_edge, w) && match r {
                    Some((d, p)) => {
                        &&& d < no_edge
                        &&& is_walk(self.edge_map(), p@, from as int, target as int)
                        &&& walk_weight(w, p@) == d
                        &&& nonneg_weights(self.edge_map(), self.n(), w) ==> forall|q: Seq<(usize, usize)>|
                            #[trigger] is_walk(self.edge_map(), q, from as int, target as int) ==> d <= walk_weight(w, q)
                    },
                    None => nonneg_weights(self.edge_map(), self.n(), w) ==> forall|q: Seq<(usize, usize)>|
                        #[trigger] is_walk(self.edge_map(), q, from as int, target as int) ==> no_edge <= walk_weight(
                            w,
                            q,
                        ),
                },
    {
        let (mut dists, mut traces) = self.dijkstra(from, Some(target), weight, no_edge);
        let ghost d0 = dists@;
        let ghost t0 = traces@;
        if dists[target] < no_edge {
            let d = dists.remove(target);
            let p = traces.remove(target);
            proof {
                let w = choose|w: Map<(int, int), i64>|
                    #[trigger] weights_of(self.edge_map(), self.n(), weight, no_edge, w) && shortest_from(
                        self.edge_map(),
                        self.n(),
                        w,
                        from as int,
                        no_edge,
                        Some(target),
                        d0,
                        t0,
                    );
                assert(traced(self.edge_map(), w, from as int, no_edge, d0, t0, target as int));
                if nonneg_weights(self.edge_map(), self.n(), w) {
                    assert forall|q: Seq<(usize, usize)>|
                        #[trigger] is_walk(self.edge_map(), q, from as int, target as int) implies d <= walk_weight(w, q) by {
                        assert(capped(d0[target as int], no_edge) <= walk_weight(w, q));
                    }
                }
            }
            return Some((d, p));
        }
        proof {
            let w = choose|w: Map<(int, int), i64>|
                #[trigger] weights_of(self.edge_map(), self.n(), weight, no_edge, w) && shortest_from(
                    self.edge_map(),
                    self.n(),
                    w,
                    from as int,
                    no_edge,
                    Some(target),
                    d0,
                    t0,
                );
            if nonneg_weights(self.edge_map(), self.n(), w) {
                assert forall|q: Seq<(usize, usize)>|
                    #[trigger] is_walk(self.edge_map(), q, from as int, target as int) implies no_edge <= walk_weight(w, q) by {
                    assert(capped(d0[target as int], no_edge) <= walk_weight(w, q));
                }
            }
        }
        None
    }

    /// The shortest paths from the node at `from` to every node over the weights that
    /// `weight` gives the edges, `no_edge` standing for no path: the distances and the
    /// edges of the paths.
    pub fn shortest_weighted_paths_from<F>(&self, from: usize, weight: F, no_edge: i64) -> (r: (
        Vec<i64>,
        Vec<Vec<(usize, usize)>>,
    )) where F: Fn(&U) -> i64
        requires
            self.wf(),
            self.n() * self.n() <= usize::MAX,
            from < self.n(),
            forall|k: (usize, usize)|
                #[trigger] self.edge_map().contains_key(k) ==> call_requires(weight, (&self.edge_map()[k].weight,)),
        ensures
            exists|w: Map<(int, int), i64>|
                #[trigger] weights_of(self.edge_map(), self.n(), weight, no_edge, w) && shortest_from(
                    self.edge_map(),
                    self.n(),
                    w,
                    from as int,
                    no_edge,
                    None,
                    r.0@,
                    r.1@,
                ),
    {
        self.dijkstra(from, None, weight, no_edge)
    }
}

impl<T> Digraph<T, i64> {
    /// The shortest path between two nodes over the weights of the edges, with its length,
    /// when that length is below `i64::MAX`.
    pub fn shortest_path(&self, from: usize, target: usize) -> (r: Option<(i64, Vec<(usize, usize)>)>)
        requires
            self.wf(),
            self.n() * self.n() <= usize::MAX,
            from < self.n(),
            target < self.n(),
        ensures
            exists|w: Map<(int, int), i64>|
                #[trigger] plain_weights(self.edge_map(), self.n(), i64::MAX, w) && match r {
                    Some((d, p)) => {
                        &&& d < i64::MAX
                        &&& is_walk(self.edge_map(), p@, from as int, target as int)
                        &&& walk_weight(w, p@) == d
                        &&& nonneg_weights(self.edge_map(), self.n(), w) ==> forall|q: Seq<(usize, usize)>|
                            #[trigger] is_walk(self.edge_map(), q, from as int, target as int) ==> d <= walk_weight(w, q)
                    },
                    None => nonneg_weights(self.edge_map(), self.n(), w) ==> forall|q: Seq<(usize, usize)>|
                        #[trigger] is_walk(self.edge_map(), q, from as int, target as int) ==> i64::MAX
                            <= walk_weight(w, q),
                },
    {
        let id = |x: &i64| -> (y: i64) ensures y == *x { *x };
        let r = self.shortest_weighted_path(from, target, id, i64::MAX);
        proof {
            let w = choose|w: Map<(int, int), i64>|
                #[trigger] weights_of(self.edge_map(), self.n(), id, i64::MAX, w) && match r {
                    Some((d, p)) => {
                        &&& d < i64::MAX
                        &&& is_walk(self.edge_map(), p@, from as int, target as int)
                        &&& walk_weight(w, p@) == d
                        &&& nonneg_weights(self.edge_map(), self.n(), w) ==> forall|q: Seq<(usize, usize)>|
                            #[trigger] is_walk(self.edge_map(), q, from as int, target as int) ==> d <= walk_weight(w, q)
                    },
                    None => nonneg_weights(self.edge_map(), self.n(), w) ==> forall|q: Seq<(usize, usize)>|
                        #[trigger] is_walk(self.edge_map(), q, from as int, target as int) ==> i64::MAX
                            <= walk_weight(w, q),
                };
            assert(plain_weights(self.edge_map(), self.n(), i64::MAX, w));
        }
        r
    }

    /// The shortest paths from the node at `from` to every node over the weights of the
    /// edges, `i64::MAX` standing for no path: the distances and the edges of the paths.
    pub fn shortest_paths_from(&self, from: usize) -> (r: (Vec<i64>, Vec<Vec<(usize, usize)>>))
        requires
            self.wf(),
            self.n() * self.n() <= usize::MAX,
            from < self.n(),
        ensures
            exists|w: Map<(int, int), i64>|
                #[trigger] plain_weights(self.edge_map(), self.n(), i64::MAX, w) && shortest_from(
                    self.edge_map(),
                    self.n(),
                    w,
                    from as int,
                    i64::MAX,
                    None,
                    r.0@,
                    r.1@,
                ),
    {
        let id = |x: &i64| -> (y: i64) ensures y == *x { *x };
        let r = self.shortest_weighted_paths_from(from, id, i64::MAX);
        proof {
            let w = choose|w: Map<(int, int), i64>|
                #[trigger] weights_of(self.edge_map(), self.n(), id, i64::MAX, w) && shortest_from(
                    self.edge_map(),
                    self.n(),
                    w,
                    from as int,
                    i64::MAX,
                    None,
                    r.0@,
                    r.1@,
                );
            assert(plain_weights(self.edge_map(), self.n(), i64::MAX, w));
        }
        r
    }
}

} // verus!
