use std::collections::BTreeMap;

pub mod search_strategy;
pub mod shortest_path;
pub mod loops;

use super::node::{DataNode, Node};
use super::Edge;
use vstd::prelude::*;
use vstd::std_specs::cmp::PartialEqSpec;
use nalgebra::DMatrix;

verus! {

broadcast use {vstd::laws_cmp::group_laws_cmp, vstd::seq_lib::group_to_multiset_ensures};

/// A square matrix of weights, kept in an `nalgebra` matrix.
#[verifier::external_body]
pub struct WeightMatrix {
    cells: DMatrix<i64>,
}

/// The cells of a matrix, by row and column.
pub uninterp spec fn matrix_cells(m: WeightMatrix) -> Map<(int, int), i64>;

/// The numbers of rows and of columns of a matrix.
pub uninterp spec fn matrix_shape(m: WeightMatrix) -> (nat, nat);

impl WeightMatrix {
    /// `DMatrix::from_element`: an `n` by `n` matrix with `elem` in every cell.
    #[verifier::external_body]
    fn filled(n: usize, elem: i64) -> (m: WeightMatrix)
        requires
            n * n <= usize::MAX,
        ensures
            matrix_shape(m) == (n as nat, n as nat),
            forall|i: int, j: int|
                #![trigger matrix_cells(m).contains_key((i, j))]
                matrix_cells(m).contains_key((i, j)) <==> (0 <= i < n && 0 <= j < n),
            forall|i: int, j: int|
                0 <= i < n && 0 <= j < n ==> #[trigger] matrix_cells(m)[(i, j)] == elem,
    {
        WeightMatrix { cells: DMatrix::from_element(n, n, elem) }
    }

    /// `Index<(usize, usize)>` of a matrix: the cell at row `i` and column `j`.
    #[verifier::external_body]
    fn get(&self, i: usize, j: usize) -> (r: i64)
        requires
            i < matrix_shape(*self).0,
            j < matrix_shape(*self).1,
        ensures
            r == matrix_cells(*self)[(i as int, j as int)],
    {
        self.cells[(i, j)]
    }

    /// `IndexMut<(usize, usize)>` of a matrix: writes `v` in the cell at row `i` and
    /// column `j`.
    #[verifier::external_body]
    fn set(&mut self, i: usize, j: usize, v: i64)
        requires
            i < matrix_shape(*old(self)).0,
            j < matrix_shape(*old(self)).1,
        ensures
            matrix_shape(*final(self)) == matrix_shape(*old(self)),
            matrix_cells(*final(self)) == matrix_cells(*old(self)).insert((i as int, j as int), v),
    {
        self.cells[(i, j)] = v;
    }

    /// `nrows` of a matrix.
    #[verifier::external_body]
    fn rows(&self) -> (r: usize)
        ensures
            r == matrix_shape(*self).0,
    {
        self.cells.nrows()
    }

    /// `ncols` of a matrix.
    #[verifier::external_body]
    fn cols(&self) -> (r: usize)
        ensures
            r == matrix_shape(*self).1,
    {
        self.cells.ncols()
    }

    /// An `n` by `n` matrix with `elem` in every cell.
    pub fn new(n: usize, elem: i64) -> (m: WeightMatrix)
        requires
            n * n <= usize::MAX,
        ensures
            matrix_shape(m) == (n as nat, n as nat),
            forall|i: int, j: int|
                0 <= i < n && 0 <= j < n ==> #[trigger] matrix_cells(m)[(i, j)] == elem,
    {
        Self::filled(n, elem)
    }

    /// The cell at row `i` and column `j`.
    pub fn cell(&self, i: usize, j: usize) -> (r: i64)
        requires
            i < matrix_shape(*self).0,
            j < matrix_shape(*self).1,
        ensures
            r == matrix_cells(*self)[(i as int, j as int)],
    {
        self.get(i, j)
    }

    /// Writes `v` in the cell at row `i` and column `j`.
    pub fn set_cell(&mut self, i: usize, j: usize, v: i64)
        requires
            i < matrix_shape(*old(self)).0,
            j < matrix_shape(*old(self)).1,
        ensures
            matrix_shape(*final(self)) == matrix_shape(*old(self)),
            matrix_cells(*final(self)) == matrix_cells(*old(self)).insert((i as int, j as int), v),
    {
        self.set(i, j, v)
    }

    /// The numbers of rows and of columns.
    pub fn shape(&self) -> (r: (usize, usize))
        ensures
            r.0 == matrix_shape(*self).0,
            r.1 == matrix_shape(*self).1,
    {
        (self.rows(), self.cols())
    }
}

/// Whether `w` holds the weights of a graph of `n` nodes with edges `edges`: 0 on the
/// diagonal, a value that `weight` gives for the edge from `i` to `j`, and `no_edge` where
/// there is no edge.
pub open spec fn weights_of<U, F: Fn(&U) -> i64>(
    edges: Map<(usize, usize), Edge<U>>,
    n: int,
    weight: F,
    no_edge: i64,
    w: Map<(int, int), i64>,
) -> bool {
    forall|i: int, j: int|
        0 <= i < n && 0 <= j < n ==> {
            let x = #[trigger] w[(i, j)];
            if i == j {
                x == 0
            } else if edges.contains_key((i as usize, j as usize)) {
                call_ensures(weight, (&edges[(i as usize, j as usize)].weight,), x)
            } else {
                x == no_edge
            }
        }
}

/// Whether `w` holds the weights of a graph whose edges carry them: 0 on the diagonal,
/// the weight of the edge from `i` to `j`, and `no_edge` where there is no edge.
pub open spec fn plain_weights(edges: Map<(usize, usize), Edge<i64>>, n: int, no_edge: i64, w: Map<(int, int), i64>) -> bool {
    forall|i: int, j: int|
        0 <= i < n && 0 <= j < n ==> #[trigger] w[(i, j)] == if i == j {
            0
        } else if edges.contains_key((i as usize, j as usize)) {
            edges[(i as usize, j as usize)].weight
        } else {
            no_edge
        }
}

/// One step of the shortest path rounds: the path from `i` to `j` through `k`, when both of
/// its parts exist and it is shorter.
pub open spec fn relax(d: Map<(int, int), i64>, no_edge: i64, k: int, i: int, j: int) -> Map<(int, int), i64> {
    let a = d[(i, k)];
    let b = d[(k, j)];
    if a >= no_edge || b >= no_edge {
        d
    } else if a + b < d[(i, j)] {
        d.insert((i, j), (a + b) as i64)
    } else {
        d
    }
}

/// Whether the sum computed by that step fits in `i64`.
pub open spec fn relax_fits(d: Map<(int, int), i64>, no_edge: i64, k: int, i: int, j: int) -> bool {
    d[(i, k)] >= no_edge || d[(k, j)] >= no_edge || (i64::MIN <= d[(i, k)] + d[(k, j)] <= i64::MAX)
}

/// The steps through `k` for row `i`, columns `0..j`, in order.
pub open spec fn fw_row(d: Map<(int, int), i64>, no_edge: i64, k: int, i: int, j: int) -> Map<(int, int), i64>
    decreases j,
{
    if j <= 0 {
        d
    } else {
        relax(fw_row(d, no_edge, k, i, j - 1), no_edge, k, i, j - 1)
    }
}

/// The steps through `k` for rows `0..i` of an `n` by `n` matrix, in order.
pub open spec fn fw_round(d: Map<(int, int), i64>, no_edge: i64, n: int, k: int, i: int) -> Map<(int, int), i64>
    decreases i,
{
    if i <= 0 {
        d
    } else {
        fw_row(fw_round(d, no_edge, n, k, i - 1), no_edge, k, i - 1, n)
    }
}

/// The rounds through `0..k` of the shortest path computation on an `n` by `n` matrix.
pub open spec fn fw_rounds(d: Map<(int, int), i64>, no_edge: i64, n: int, k: int) -> Map<(int, int), i64>
    decreases k,
{
    if k <= 0 {
        d
    } else {
        fw_round(fw_rounds(d, no_edge, n, k - 1), no_edge, n, k - 1, n)
    }
}

/// Whether every sum of the steps of `fw_row` fits in `i64`.
pub open spec fn fw_row_fits(d: Map<(int, int), i64>, no_edge: i64, k: int, i: int, j: int) -> bool
    decreases j,
{
    j <= 0 || (fw_row_fits(d, no_edge, k, i, j - 1) && relax_fits(fw_row(d, no_edge, k, i, j - 1), no_edge, k, i, j - 1))
}

/// Whether every sum of the steps of `fw_round` fits in `i64`.
pub open spec fn fw_round_fits(d: Map<(int, int), i64>, no_edge: i64, n: int, k: int, i: int) -> bool
    decreases i,
{
    i <= 0 || (fw_round_fits(d, no_edge, n, k, i - 1) && fw_row_fits(fw_round(d, no_edge, n, k, i - 1), no_edge, k, i - 1, n))
}

/// Whether every sum of the rounds through `0..k` fits in `i64`.
pub open spec fn fw_fits(d: Map<(int, int), i64>, no_edge: i64, n: int, k: int) -> bool
    decreases k,
{
    k <= 0 || (fw_fits(d, no_edge, n, k - 1) && fw_round_fits(fw_rounds(d, no_edge, n, k - 1), no_edge, n, k - 1, n))
}

proof fn lemma_fw_row_fits_prefix(d: Map<(int, int), i64>, no_edge: i64, k: int, i: int, j: int, j2: int)
    requires
        0 <= j <= j2,
        fw_row_fits(d, no_edge, k, i, j2),
    ensures
        fw_row_fits(d, no_edge, k, i, j),
    decreases j2,
{
    if j < j2 {
        lemma_fw_row_fits_prefix(d, no_edge, k, i, j, j2 - 1);
    }
}

proof fn lemma_fw_round_fits_prefix(d: Map<(int, int), i64>, no_edge: i64, n: int, k: int, i: int, i2: int)
    requires
        0 <= i <= i2,
        fw_round_fits(d, no_edge, n, k, i2),
    ensures
        fw_round_fits(d, no_edge, n, k, i),
    decreases i2,
{
    if i < i2 {
        lemma_fw_round_fits_prefix(d, no_edge, n, k, i, i2 - 1);
    }
}

proof fn lemma_fw_fits_prefix(d: Map<(int, int), i64>, no_edge: i64, n: int, k: int, k2: int)
    requires
        0 <= k <= k2,
        fw_fits(d, no_edge, n, k2),
    ensures
        fw_fits(d, no_edge, n, k),
    decreases k2,
{
    if k < k2 {
        lemma_fw_fits_prefix(d, no_edge, n, k, k2 - 1);
    }
}

/// The Floyd-Warshall recurrence: the shortest distance from `i` to `j` through
/// intermediate nodes below `k`, `no_edge` and more standing for no path.
pub open spec fn fw_dp(w: Map<(int, int), i64>, no_edge: i64, k: int, i: int, j: int) -> int
    decreases k,
{
    if k <= 0 {
        w[(i, j)] as int
    } else {
        let c = fw_dp(w, no_edge, k - 1, i, j);
        let a = fw_dp(w, no_edge, k - 1, i, k - 1);
        let b = fw_dp(w, no_edge, k - 1, k - 1, j);
        if a >= no_edge || b >= no_edge {
            c
        } else if a + b < c {
            a + b
        } else {
            c
        }
    }
}

/// Within round `k`, started from `d` equal to the recurrence below `k`: the cells of rows
/// before `i`, and of row `i` before column `j`, hold the recurrence below `k + 1`, the
/// others still hold `d`.
pub open spec fn round_state(
    r: Map<(int, int), i64>,
    d: Map<(int, int), i64>,
    w: Map<(int, int), i64>,
    no_edge: i64,
    n: int,
    k: int,
    i: int,
    j: int,
) -> bool {
    &&& forall|x: int, y: int| 0 <= x < n && 0 <= y < n ==> #[trigger] r.contains_key((x, y))
    &&& forall|x: int, y: int|
        0 <= x < n && 0 <= y < n ==> #[trigger] r[(x, y)] == if x < i || (x == i && y < j) {
            fw_dp(w, no_edge, k + 1, x, y)
        } else {
            d[(x, y)] as int
        }
}

proof fn lemma_round_row(
    r0: Map<(int, int), i64>,
    d: Map<(int, int), i64>,
    w: Map<(int, int), i64>,
    no_edge: i64,
    n: int,
    k: int,
    i: int,
    j: int,
)
    requires
        0 <= k < n,
        0 <= i < n,
        0 <= j <= n,
        round_state(r0, d, w, no_edge, n, k, i, 0),
        forall|x: int, y: int| 0 <= x < n && 0 <= y < n ==> #[trigger] d[(x, y)] == fw_dp(w, no_edge, k, x, y),
        d[(k, k)] >= 0,
        fw_row_fits(r0, no_edge, k, i, j),
    ensures
        round_state(fw_row(r0, no_edge, k, i, j), d, w, no_edge, n, k, i, j),
    decreases j,
{
    if j > 0 {
        lemma_round_row(r0, d, w, no_edge, n, k, i, j - 1);
        let r = fw_row(r0, no_edge, k, i, j - 1);
        let c = j - 1;
        assert(d[(i, k)] == fw_dp(w, no_edge, k, i, k));
        assert(d[(k, c)] == fw_dp(w, no_edge, k, k, c));
        assert(d[(k, k)] == fw_dp(w, no_edge, k, k, k));
        assert(d[(i, c)] == fw_dp(w, no_edge, k, i, c));
        assert(fw_dp(w, no_edge, k + 1, i, k) == d[(i, k)]);
        assert(fw_dp(w, no_edge, k + 1, k, c) == d[(k, c)]);
        assert(r.contains_key((i, k)));
        assert(r.contains_key((k, c)));
        assert(r.contains_key((i, c)));
        assert(r[(i, k)] == d[(i, k)]);
        assert(r[(k, c)] == d[(k, c)]);
        assert(r[(i, c)] == d[(i, c)]);
        let r2 = relax(r, no_edge, k, i, c);
        assert(fw_row(r0, no_edge, k, i, j) == r2);
        assert forall|x: int, y: int| 0 <= x < n && 0 <= y < n implies #[trigger] r2.contains_key((x, y)) by {
            assert(r.contains_key((x, y)));
        }
        assert forall|x: int, y: int| 0 <= x < n && 0 <= y < n implies #[trigger] r2[(x, y)] == if x < i
            || (x == i && y < j) {
            fw_dp(w, no_edge, k + 1, x, y)
        } else {
            d[(x, y)] as int
        } by {
            assert(r.contains_key((x, y)));
            if x == i && y == c {
                assert(fw_row_fits(r0, no_edge, k, i, j));
                assert(relax_fits(r, no_edge, k, i, c));
                assert(r2[(i, c)] == fw_dp(w, no_edge, k + 1, i, c));
            } else {
                assert(r2[(x, y)] == r[(x, y)]);
            }
        }
        assert(round_state(r2, d, w, no_edge, n, k, i, j));
    } else {
        assert(fw_row(r0, no_edge, k, i, 0) == r0);
    }
}

proof fn lemma_round_rows(
    d: Map<(int, int), i64>,
    w: Map<(int, int), i64>,
    no_edge: i64,
    n: int,
    k: int,
    i: int,
)
    requires
        0 <= k < n,
        0 <= i <= n,
        forall|x: int, y: int| 0 <= x < n && 0 <= y < n ==> #[trigger] d.contains_key((x, y)),
        forall|x: int, y: int| 0 <= x < n && 0 <= y < n ==> #[trigger] d[(x, y)] == fw_dp(w, no_edge, k, x, y),
        d[(k, k)] >= 0,
        fw_round_fits(d, no_edge, n, k, i),
    ensures
        round_state(fw_round(d, no_edge, n, k, i), d, w, no_edge, n, k, i, 0),
    decreases i,
{
    if i > 0 {
        lemma_round_rows(d, w, no_edge, n, k, i - 1);
        let r0 = fw_round(d, no_edge, n, k, i - 1);
        lemma_round_row(r0, d, w, no_edge, n, k, i - 1, n);
        let r = fw_row(r0, no_edge, k, i - 1, n);
        assert forall|x: int, y: int| 0 <= x < n && 0 <= y < n implies #[trigger] r[(x, y)] == if x < i
            || (x == i && y < 0) {
            fw_dp(w, no_edge, k + 1, x, y)
        } else {
            d[(x, y)] as int
        } by {
            assert(r.contains_key((x, y)));
        }
    }
}

/// On a matrix where no shortest round trip through lower nodes is negative, the in-place
/// rounds compute the Floyd-Warshall recurrence: every cell ends up holding the shortest
/// distance through all the nodes.
pub proof fn lemma_floyd_warshall_recurrence(w: Map<(int, int), i64>, no_edge: i64, n: int, k: int)
    requires
        0 <= k <= n,
        forall|x: int, y: int| 0 <= x < n && 0 <= y < n ==> #[trigger] w.contains_key((x, y)),
        fw_fits(w, no_edge, n, k),
        forall|m: int| 0 <= m < k ==> #[trigger] fw_dp(w, no_edge, m, m, m) >= 0,
    ensures
        forall|x: int, y: int|
            0 <= x < n && 0 <= y < n ==> {
                &&& #[trigger] fw_rounds(w, no_edge, n, k).contains_key((x, y))
                &&& fw_rounds(w, no_edge, n, k)[(x, y)] == fw_dp(w, no_edge, k, x, y)
            },
    decreases k,
{
    if k > 0 {
        lemma_floyd_warshall_recurrence(w, no_edge, n, k - 1);
        let d = fw_rounds(w, no_edge, n, k - 1);
        assert(fw_dp(w, no_edge, k - 1, k - 1, k - 1) >= 0);
        assert(d.contains_key((k - 1, k - 1)));
        assert(d[(k - 1, k - 1)] >= 0);
        assert forall|x: int, y: int| 0 <= x < n && 0 <= y < n implies #[trigger] d.contains_key((x, y)) by {}
        assert forall|x: int, y: int| 0 <= x < n && 0 <= y < n implies #[trigger] d[(x, y)] == fw_dp(
            w,
            no_edge,
            k - 1,
            x,
            y,
        ) by {
            assert(d.contains_key((x, y)));
        }
        assert(fw_fits(w, no_edge, n, k - 1) && fw_round_fits(d, no_edge, n, k - 1, n));
        lemma_round_rows(d, w, no_edge, n, k - 1, n);
        let r = fw_round(d, no_edge, n, k - 1, n);
        assert(fw_rounds(w, no_edge, n, k) == r);
        assert forall|x: int, y: int| 0 <= x < n && 0 <= y < n implies {
            &&& #[trigger] fw_rounds(w, no_edge, n, k).contains_key((x, y))
            &&& fw_rounds(w, no_edge, n, k)[(x, y)] == fw_dp(w, no_edge, k, x, y)
        } by {
            assert(r.contains_key((x, y)));
            assert(r[(x, y)] == fw_dp(w, no_edge, k, x, y));
        }
    }
}

/// The weight of the walk `p` over the weights `w`: the sum of the weights of its steps.
pub open spec fn walk_weight(w: Map<(int, int), i64>, p: Seq<int>) -> int
    decreases p.len(),
{
    if p.len() <= 1 {
        0
    } else {
        w[(p[0], p[1])] + walk_weight(w, p.drop_first())
    }
}

/// Whether `p` is a walk from `i` to `j` among the nodes `0..n`, each of its steps going
/// from a node to another one along a weight below `no_edge`.
pub open spec fn is_walk(w: Map<(int, int), i64>, no_edge: i64, n: int, p: Seq<int>, i: int, j: int) -> bool {
    &&& p.len() >= 1
    &&& p[0] == i
    &&& p[p.len() - 1] == j
    &&& forall|s: int| 0 <= s < p.len() ==> 0 <= #[trigger] p[s] < n
    &&& forall|s: int|
        0 <= s < p.len() - 1 ==> p[s] != p[s + 1] && #[trigger] w[(p[s], p[s + 1])] < no_edge
}

/// Whether no node occurs twice in `p`.
pub open spec fn no_repeat(p: Seq<int>) -> bool {
    forall|a: int, b: int| 0 <= a < b < p.len() ==> #[trigger] p[a] != #[trigger] p[b]
}

/// Whether every stretch of the walk `p` weighs less than `no_edge`.
pub open spec fn stretches_below(w: Map<(int, int), i64>, no_edge: i64, p: Seq<int>) -> bool {
    forall|a: int, b: int| 0 <= a <= b < p.len() ==> #[trigger] walk_weight(w, p.subrange(a, b + 1)) < no_edge
}

/// Whether `d` holds the shortest distances over the weights `w` of `n` nodes: each distance
/// is at most the weight of every path between the two nodes that visits no node twice and
/// whose stretches all weigh less than `no_edge`, and each distance below `no_edge` is the
/// weight of some walk between them.
pub open spec fn shortest_distances(w: Map<(int, int), i64>, no_edge: i64, n: int, d: Map<(int, int), i64>) -> bool {
    &&& forall|i: int, j: int, p: Seq<int>|
        #![trigger is_walk(w, no_edge, n, p, i, j), d[(i, j)]]
        is_walk(w, no_edge, n, p, i, j) && no_repeat(p) && stretches_below(w, no_edge, p) ==> d[(i, j)]
            <= walk_weight(w, p)
    &&& forall|i: int, j: int|
        0 <= i < n && 0 <= j < n && #[trigger] d[(i, j)] < no_edge ==> exists|p: Seq<int>|
            #[trigger] is_walk(w, no_edge, n, p, i, j) && walk_weight(w, p) == d[(i, j)]
}

/// Whether the nodes inside `p`, between its ends, are all below `k`.
spec fn inner_below(p: Seq<int>, k: int) -> bool {
    forall|s: int| 0 < s < p.len() - 1 ==> #[trigger] p[s] < k
}

/// Whether every distance of `d` is at most the weight of every path that visits no node
/// twice, weighs less than `no_edge` in each stretch, and passes only through nodes below `k`.
spec fn below_paths(w: Map<(int, int), i64>, no_edge: i64, n: int, d: Map<(int, int), i64>, k: int) -> bool {
    forall|i: int, j: int, p: Seq<int>|
        #![trigger is_walk(w, no_edge, n, p, i, j), d[(i, j)]]
        is_walk(w, no_edge, n, p, i, j) && no_repeat(p) && stretches_below(w, no_edge, p) && inner_below(p, k)
            ==> d[(i, j)] <= walk_weight(w, p)
}

/// Whether every distance of `d` below `no_edge` is the weight of some walk.
spec fn walk_backed(w: Map<(int, int), i64>, no_edge: i64, n: int, d: Map<(int, int), i64>) -> bool {
    forall|i: int, j: int|
        0 <= i < n && 0 <= j < n && #[trigger] d[(i, j)] < no_edge ==> exists|p: Seq<int>|
            #[trigger] is_walk(w, no_edge, n, p, i, j) && walk_weight(w, p) == d[(i, j)]
}

/// Whether every cell of `a` is at most the same cell of `b`.
spec fn cells_le(a: Map<(int, int), i64>, b: Map<(int, int), i64>, n: int) -> bool {
    forall|x: int, y: int| 0 <= x < n && 0 <= y < n ==> #[trigger] a[(x, y)] <= b[(x, y)]
}

/// A walk weighs its first part up to position `s` plus the rest from position `s`.
proof fn lemma_walk_weight_split(w: Map<(int, int), i64>, p: Seq<int>, s: int)
    requires
        0 <= s < p.len(),
    ensures
        walk_weight(w, p) == walk_weight(w, p.subrange(0, s + 1)) + walk_weight(w, p.subrange(s, p.len() as int)),
    decreases s,
{
    if s == 0 {
        assert(p.subrange(0, p.len() as int) =~= p);
    } else {
        let q = p.drop_first();
        lemma_walk_weight_split(w, q, s - 1);
        assert(q.subrange(s - 1, q.len() as int) =~= p.subrange(s, p.len() as int));
        let h = p.subrange(0, s + 1);
        assert(h.drop_first() =~= q.subrange(0, s));
        assert(h[0] == p[0] && h[1] == p[1]);
    }
}

/// A step of a walk goes from a node to another one along a weight below `no_edge`.
proof fn lemma_walk_step(w: Map<(int, int), i64>, no_edge: i64, n: int, p: Seq<int>, i: int, j: int, t: int)
    requires
        is_walk(w, no_edge, n, p, i, j),
        0 <= t < p.len() - 1,
    ensures
        p[t] != p[t + 1],
        w[(p[t], p[t + 1])] < no_edge,
{
}

/// A step of two walks joined at `k` is a step of one of them.
proof fn lemma_join_step(w: Map<(int, int), i64>, no_edge: i64, n: int, q1: Seq<int>, q2: Seq<int>, q: Seq<int>, i: int, k: int, j: int, t: int)
    requires
        is_walk(w, no_edge, n, q1, i, k),
        is_walk(w, no_edge, n, q2, k, j),
        q == q1 + q2.drop_first(),
        0 <= t < q.len() - 1,
    ensures
        q[t] != q[t + 1],
        w[(q[t], q[t + 1])] < no_edge,
{
    let s = q1.len() - 1;
    if t < s {
        assert(q[t] == q1[t] && q[t + 1] == q1[t + 1]);
        lemma_walk_step(w, no_edge, n, q1, i, k, t);
    } else {
        let u = t - s;
        assert(q[t] == q2[u] && q[t + 1] == q2[u + 1]);
        lemma_walk_step(w, no_edge, n, q2, k, j, u);
    }
}

/// Two walks joined at `k` make a walk.
proof fn lemma_join_is_walk(w: Map<(int, int), i64>, no_edge: i64, n: int, q1: Seq<int>, q2: Seq<int>, q: Seq<int>, i: int, k: int, j: int)
    requires
        is_walk(w, no_edge, n, q1, i, k),
        is_walk(w, no_edge, n, q2, k, j),
        q == q1 + q2.drop_first(),
    ensures
        is_walk(w, no_edge, n, q, i, j),
{
    let s = q1.len() - 1;
    assert forall|t: int| 0 <= t < q.len() implies 0 <= #[trigger] q[t] < n by {
        if t < q1.len() {
            assert(q[t] == q1[t]);
        } else {
            assert(q[t] == q2[t - s]);
        }
    }
    assert forall|t: int|
        #![trigger q[t]]
        #![trigger w[(q[t], q[t + 1])]]
        0 <= t < q.len() - 1 implies q[t] != q[t + 1] && w[(q[t], q[t + 1])] < no_edge by {
        lemma_join_step(w, no_edge, n, q1, q2, q, i, k, j, t);
    }
    if q2.len() == 1 {
        assert(q[q.len() - 1] == q1[s]);
    } else {
        assert(q[q.len() - 1] == q2[q2.len() - 1]);
    }
    assert(q[0] == q1[0]);
}

/// Joining a walk to `k` and a walk from `k` gives a walk that weighs the sum of the two.
proof fn lemma_walk_join(w: Map<(int, int), i64>, no_edge: i64, n: int, q1: Seq<int>, q2: Seq<int>, i: int, k: int, j: int)
    requires
        is_walk(w, no_edge, n, q1, i, k),
        is_walk(w, no_edge, n, q2, k, j),
    ensures
        is_walk(w, no_edge, n, q1 + q2.drop_first(), i, j),
        walk_weight(w, q1 + q2.drop_first()) == walk_weight(w, q1) + walk_weight(w, q2),
{
    let q = q1 + q2.drop_first();
    let s = q1.len() - 1;
    assert(q.subrange(0, s + 1) =~= q1);
    assert(q.subrange(s, q.len() as int) =~= q2);
    lemma_walk_weight_split(w, q, s);
    lemma_join_is_walk(w, no_edge, n, q1, q2, q, i, k, j);
}

proof fn lemma_relax_steps(d: Map<(int, int), i64>, no_edge: i64, n: int, k: int, i: int, j: int)
    requires
        relax_fits(d, no_edge, k, i, j),
    ensures
        cells_le(relax(d, no_edge, k, i, j), d, n),
        d[(i, k)] < no_edge && d[(k, j)] < no_edge ==> relax(d, no_edge, k, i, j)[(i, j)] <= d[(i, k)] + d[(k, j)],
        forall|x: int, y: int| (x, y) != (i, j) ==> #[trigger] relax(d, no_edge, k, i, j)[(x, y)] == d[(x, y)],
{
}

proof fn lemma_relax_backed(w: Map<(int, int), i64>, d: Map<(int, int), i64>, no_edge: i64, n: int, k: int, i: int, j: int)
    requires
        0 <= i < n,
        0 <= j < n,
        0 <= k < n,
        relax_fits(d, no_edge, k, i, j),
        walk_backed(w, no_edge, n, d),
    ensures
        walk_backed(w, no_edge, n, relax(d, no_edge, k, i, j)),
{
    let r = relax(d, no_edge, k, i, j);
    let a = d[(i, k)];
    let b = d[(k, j)];
    if !(a >= no_edge || b >= no_edge) && a + b < d[(i, j)] {
        let q1 = choose|p: Seq<int>| #[trigger] is_walk(w, no_edge, n, p, i, k) && walk_weight(w, p) == d[(i, k)];
        let q2 = choose|p: Seq<int>| #[trigger] is_walk(w, no_edge, n, p, k, j) && walk_weight(w, p) == d[(k, j)];
        lemma_walk_join(w, no_edge, n, q1, q2, i, k, j);
        assert forall|x: int, y: int|
            0 <= x < n && 0 <= y < n && #[trigger] r[(x, y)] < no_edge implies exists|p: Seq<int>|
                #[trigger] is_walk(w, no_edge, n, p, x, y) && walk_weight(w, p) == r[(x, y)] by {
            if (x, y) == (i, j) {
                assert(is_walk(w, no_edge, n, q1 + q2.drop_first(), i, j));
            } else {
                assert(r[(x, y)] == d[(x, y)]);
            }
        }
    } else {
        assert(r == d);
    }
}

/// One row of a round through `k`: it only lowers cells, lowers cell `(i, y)` for each
/// column `y` done to the sum through `k` where both parts are below `no_edge`, and keeps
/// the distances backed by walks.
proof fn lemma_row_closes(w: Map<(int, int), i64>, r: Map<(int, int), i64>, no_edge: i64, n: int, k: int, i: int, jj: int)
    requires
        0 <= i < n,
        0 <= k < n,
        0 <= jj <= n,
        fw_row_fits(r, no_edge, k, i, jj),
        walk_backed(w, no_edge, n, r),
    ensures
        cells_le(fw_row(r, no_edge, k, i, jj), r, n),
        walk_backed(w, no_edge, n, fw_row(r, no_edge, k, i, jj)),
        forall|y: int|
            0 <= y < jj && r[(i, k)] < no_edge && r[(k, y)] < no_edge ==> #[trigger] fw_row(r, no_edge, k, i, jj)[(i, y)]
                <= r[(i, k)] + r[(k, y)],
    decreases jj,
{
    if jj > 0 {
        lemma_row_closes(w, r, no_edge, n, k, i, jj - 1);
        let cur = fw_row(r, no_edge, k, i, jj - 1);
        let y0 = jj - 1;
        lemma_relax_steps(cur, no_edge, n, k, i, y0);
        lemma_relax_backed(w, cur, no_edge, n, k, i, y0);
        let nxt = relax(cur, no_edge, k, i, y0);
        assert(fw_row(r, no_edge, k, i, jj) == nxt);
        assert forall|x: int, y: int| 0 <= x < n && 0 <= y < n implies #[trigger] nxt[(x, y)] <= r[(x, y)] by {
            assert(nxt[(x, y)] <= cur[(x, y)]);
            assert(cur[(x, y)] <= r[(x, y)]);
        }
        assert forall|y: int|
            0 <= y < jj && r[(i, k)] < no_edge && r[(k, y)] < no_edge implies #[trigger] nxt[(i, y)] <= r[(i, k)] + r[(k, y)] by {
            assert(cur[(i, k)] <= r[(i, k)]);
            assert(cur[(k, y)] <= r[(k, y)]);
            if y < y0 {
                assert(nxt[(i, y)] <= cur[(i, y)]);
            }
        }
    }
}

/// A round through `k`, rows `0..ii`: it only lowers cells, lowers each cell of those rows to
/// the sum through `k` where both parts are below `no_edge`, and keeps the distances backed
/// by walks.
proof fn lemma_round_closes_rows(w: Map<(int, int), i64>, d: Map<(int, int), i64>, no_edge: i64, n: int, k: int, ii: int)
    requires
        0 <= k < n,
        0 <= ii <= n,
        fw_round_fits(d, no_edge, n, k, ii),
        walk_backed(w, no_edge, n, d),
    ensures
        cells_le(fw_round(d, no_edge, n, k, ii), d, n),
        walk_backed(w, no_edge, n, fw_round(d, no_edge, n, k, ii)),
        forall|x: int, y: int|
            0 <= x < ii && 0 <= y < n && d[(x, k)] < no_edge && d[(k, y)] < no_edge ==> #[trigger] fw_round(
                d,
                no_edge,
                n,
                k,
                ii,
            )[(x, y)] <= d[(x, k)] + d[(k, y)],
    decreases ii,
{
    if ii > 0 {
        lemma_round_closes_rows(w, d, no_edge, n, k, ii - 1);
        let r = fw_round(d, no_edge, n, k, ii - 1);
        lemma_row_closes(w, r, no_edge, n, k, ii - 1, n);
        let nxt = fw_row(r, no_edge, k, ii - 1, n);
        assert(fw_round(d, no_edge, n, k, ii) == nxt);
        assert forall|x: int, y: int| 0 <= x < n && 0 <= y < n implies #[trigger] nxt[(x, y)] <= d[(x, y)] by {
            assert(nxt[(x, y)] <= r[(x, y)]);
            assert(r[(x, y)] <= d[(x, y)]);
        }
        assert forall|x: int, y: int|
            0 <= x < ii && 0 <= y < n && d[(x, k)] < no_edge && d[(k, y)] < no_edge implies #[trigger] nxt[(x, y)]
                <= d[(x, k)] + d[(k, y)] by {
            assert(nxt[(x, y)] <= r[(x, y)]);
            if x == ii - 1 {
                assert(r[(x, k)] <= d[(x, k)]);
                assert(r[(k, y)] <= d[(k, y)]);
                assert(nxt[(x, y)] <= r[(x, k)] + r[(k, y)]);
            } else {
                assert(r[(x, y)] <= d[(x, k)] + d[(k, y)]);
            }
        }
    }
}

/// Cutting a path at its node `k`, found at position `s` inside it, gives two paths through
/// lower nodes whose weights add up to the whole.
proof fn lemma_cut_path(w: Map<(int, int), i64>, no_edge: i64, n: int, p: Seq<int>, i: int, j: int, k: int, s: int)
    requires
        is_walk(w, no_edge, n, p, i, j),
        no_repeat(p),
        stretches_below(w, no_edge, p),
        inner_below(p, k + 1),
        0 < s < p.len() - 1,
        p[s] == k,
    ensures
        is_walk(w, no_edge, n, p.subrange(0, s + 1), i, k),
        is_walk(w, no_edge, n, p.subrange(s, p.len() as int), k, j),
        no_repeat(p.subrange(0, s + 1)),
        no_repeat(p.subrange(s, p.len() as int)),
        stretches_below(w, no_edge, p.subrange(0, s + 1)),
        stretches_below(w, no_edge, p.subrange(s, p.len() as int)),
        inner_below(p.subrange(0, s + 1), k),
        inner_below(p.subrange(s, p.len() as int), k),
        walk_weight(w, p) == walk_weight(w, p.subrange(0, s + 1)) + walk_weight(w, p.subrange(s, p.len() as int)),
        walk_weight(w, p.subrange(0, s + 1)) < no_edge,
        walk_weight(w, p.subrange(s, p.len() as int)) < no_edge,
{
    let len = p.len() as int;
    let p1 = p.subrange(0, s + 1);
    let p2 = p.subrange(s, len);
    lemma_walk_weight_split(w, p, s);
    assert forall|t: int| 0 <= t < p1.len() implies 0 <= #[trigger] p1[t] < n by {
        assert(p1[t] == p[t]);
    }
    assert forall|t: int| 0 <= t < p1.len() - 1 implies p1[t] != p1[t + 1] && #[trigger] w[(p1[t], p1[t + 1])] < no_edge by {
        assert(p1[t] == p[t] && p1[t + 1] == p[t + 1]);
    }
    assert forall|t: int| 0 <= t < p2.len() implies 0 <= #[trigger] p2[t] < n by {
        assert(p2[t] == p[t + s]);
    }
    assert forall|t: int| 0 <= t < p2.len() - 1 implies p2[t] != p2[t + 1] && #[trigger] w[(p2[t], p2[t + 1])] < no_edge by {
        assert(p2[t] == p[t + s] && p2[t + 1] == p[t + s + 1]);
    }
    assert forall|a: int, b: int| 0 <= a < b < p1.len() implies #[trigger] p1[a] != #[trigger] p1[b] by {
        assert(p1[a] == p[a] && p1[b] == p[b]);
    }
    assert forall|a: int, b: int| 0 <= a < b < p2.len() implies #[trigger] p2[a] != #[trigger] p2[b] by {
        assert(p2[a] == p[a + s] && p2[b] == p[b + s]);
    }
    assert forall|a: int, b: int| 0 <= a <= b < p1.len() implies #[trigger] walk_weight(w, p1.subrange(a, b + 1)) < no_edge by {
        assert(p1.subrange(a, b + 1) =~= p.subrange(a, b + 1));
    }
    assert forall|a: int, b: int| 0 <= a <= b < p2.len() implies #[trigger] walk_weight(w, p2.subrange(a, b + 1)) < no_edge by {
        assert(p2.subrange(a, b + 1) =~= p.subrange(a + s, b + s + 1));
    }
    assert forall|t: int| 0 < t < p1.len() - 1 implies #[trigger] p1[t] < k by {
        assert(p1[t] == p[t]);
        assert(p[t] != p[s]);
    }
    assert forall|t: int| 0 < t < p2.len() - 1 implies #[trigger] p2[t] < k by {
        assert(p2[t] == p[t + s]);
        assert(p[t + s] != p[s]);
    }
    assert(p1 =~= p.subrange(0, s + 1));
    assert(walk_weight(w, p.subrange(0, s + 1)) < no_edge);
    assert(walk_weight(w, p.subrange(s, (len - 1) + 1)) < no_edge);
}

proof fn lemma_rounds_closed(w: Map<(int, int), i64>, no_edge: i64, n: int, k: int)
    requires
        0 <= k <= n,
        fw_fits(w, no_edge, n, n),
        forall|x: int| 0 <= x < n ==> #[trigger] w[(x, x)] == 0,
    ensures
        below_paths(w, no_edge, n, fw_rounds(w, no_edge, n, k), k),
        walk_backed(w, no_edge, n, fw_rounds(w, no_edge, n, k)),
    decreases k,
{
    if k == 0 {
        let d = fw_rounds(w, no_edge, n, 0);
        assert(d == w);
        assert forall|i: int, j: int, p: Seq<int>|
            #![trigger is_walk(w, no_edge, n, p, i, j), d[(i, j)]]
            is_walk(w, no_edge, n, p, i, j) && no_repeat(p) && stretches_below(w, no_edge, p) && inner_below(p, 0)
                implies d[(i, j)] <= walk_weight(w, p) by {
            if p.len() == 1 {
                assert(i == j);
            } else if p.len() == 2 {
                assert(p.drop_first().len() == 1);
                let s0: int = 0;
                assert(p[s0] != p[s0 + 1] && w[(p[s0], p[s0 + 1])] < no_edge);
                assert(walk_weight(w, p) == w[(p[0], p[1])] + walk_weight(w, p.drop_first()));
            } else {
                assert(p[1] < 0);
            }
        }
        assert forall|i: int, j: int|
            0 <= i < n && 0 <= j < n && #[trigger] d[(i, j)] < no_edge implies exists|p: Seq<int>|
                #[trigger] is_walk(w, no_edge, n, p, i, j) && walk_weight(w, p) == d[(i, j)] by {
            if i == j {
                let p = seq![i];
                assert(is_walk(w, no_edge, n, p, i, j));
                assert(w[(i, i)] == 0);
                assert(walk_weight(w, p) == d[(i, j)]);
            } else {
                let p = seq![i, j];
                assert(p.drop_first() =~= seq![j]);
                assert(walk_weight(w, seq![j]) == 0);
                assert(walk_weight(w, p) == w[(i, j)] + walk_weight(w, p.drop_first()));
                assert(is_walk(w, no_edge, n, p, i, j));
                assert(walk_weight(w, p) == d[(i, j)]);
            }
        }
    } else {
        lemma_rounds_closed(w, no_edge, n, k - 1);
        let d = fw_rounds(w, no_edge, n, k - 1);
        assert(below_paths(w, no_edge, n, d, k - 1));
        lemma_fw_fits_prefix(w, no_edge, n, k, n);
        assert(fw_round_fits(d, no_edge, n, k - 1, n));
        lemma_round_closes_rows(w, d, no_edge, n, k - 1, n);
        let nxt = fw_round(d, no_edge, n, k - 1, n);
        assert(fw_rounds(w, no_edge, n, k) == nxt);
        assert forall|i: int, j: int, p: Seq<int>|
            #![trigger is_walk(w, no_edge, n, p, i, j), nxt[(i, j)]]
            is_walk(w, no_edge, n, p, i, j) && no_repeat(p) && stretches_below(w, no_edge, p) && inner_below(p, k)
                implies nxt[(i, j)] <= walk_weight(w, p) by {
            assert(0 <= i < n && 0 <= j < n) by {
                assert(p[0] == i && p[p.len() - 1] == j);
            }
            if inner_below(p, k - 1) {
                assert(is_walk(w, no_edge, n, p, i, j) && no_repeat(p) && stretches_below(w, no_edge, p) && inner_below(p, k - 1));
                assert(d[(i, j)] <= walk_weight(w, p));
                assert(nxt[(i, j)] <= d[(i, j)]);
            } else {
                let s = choose|s: int| 0 < s < p.len() - 1 && !(#[trigger] p[s] < k - 1);
                assert(p[s] == k - 1);
                lemma_cut_path(w, no_edge, n, p, i, j, k - 1, s);
                let p1 = p.subrange(0, s + 1);
                let p2 = p.subrange(s, p.len() as int);
                assert(d[(i, k - 1)] <= walk_weight(w, p1));
                assert(d[(k - 1, j)] <= walk_weight(w, p2));
                assert(nxt[(i, j)] <= d[(i, k - 1)] + d[(k - 1, j)]);
            }
        }
    }
}

/// The Floyd-Warshall rounds give the shortest distances: each is at most the weight of every
/// path without repeated nodes whose stretches stay below `no_edge`, and each one below
/// `no_edge` is the weight of some walk.
pub proof fn lemma_floyd_warshall_shortest(w: Map<(int, int), i64>, no_edge: i64, n: int)
    requires
        0 <= n,
        fw_fits(w, no_edge, n, n),
        forall|x: int| 0 <= x < n ==> #[trigger] w[(x, x)] == 0,
    ensures
        shortest_distances(w, no_edge, n, fw_rounds(w, no_edge, n, n)),
{
    lemma_rounds_closed(w, no_edge, n, n);
    let d = fw_rounds(w, no_edge, n, n);
    assert forall|i: int, j: int, p: Seq<int>|
        #![trigger is_walk(w, no_edge, n, p, i, j), d[(i, j)]]
        is_walk(w, no_edge, n, p, i, j) && no_repeat(p) && stretches_below(w, no_edge, p) implies d[(i, j)]
            <= walk_weight(w, p) by {
        assert forall|s: int| 0 < s < p.len() - 1 implies #[trigger] p[s] < n by {}
        assert(inner_below(p, n));
    }
}

/// Whether the weight `w` taken from cell `(j, i)` of a matrix makes an edge from `i` to
/// `j`: it is below `i64::MAX`, it is not a zero on the diagonal, and there is no edge yet.
pub open spec fn relation_edge<U>(edges: Map<(usize, usize), Edge<U>>, cells: Map<(int, int), i64>, i: int, j: int) -> bool {
    let w = cells[(j, i)];
    &&& w < i64::MAX
    &&& !(w == 0 && i == j)
    &&& !edges.contains_key((i as usize, j as usize))
}

/// The columns `j < k` of row `i` that get a new edge from the relations.
pub open spec fn relation_targets<U>(edges: Map<(usize, usize), Edge<U>>, cells: Map<(int, int), i64>, i: int, k: int) -> Seq<usize>
    decreases k,
{
    if k <= 0 {
        Seq::empty()
    } else {
        relation_targets(edges, cells, i, k - 1) + if relation_edge(edges, cells, i, k - 1) {
            seq![(k - 1) as usize]
        } else {
            Seq::empty()
        }
    }
}

/// The rows `i < k` whose row gets a new edge towards column `j` from the relations.
pub open spec fn relation_sources<U>(edges: Map<(usize, usize), Edge<U>>, cells: Map<(int, int), i64>, j: int, k: int) -> Seq<usize>
    decreases k,
{
    if k <= 0 {
        Seq::empty()
    } else {
        relation_sources(edges, cells, j, k - 1) + if relation_edge(edges, cells, k - 1, j) {
            seq![(k - 1) as usize]
        } else {
            Seq::empty()
        }
    }
}

/// Position of the first `x` in `s` at or after `from`; the length of `s` if there is none.
pub open spec fn first_at(s: Seq<usize>, x: usize, from: int) -> int
    decreases s.len() - from,
{
    if from < 0 || from >= s.len() {
        s.len() as int
    } else if s[from] == x {
        from
    } else {
        first_at(s, x, from + 1)
    }
}

/// `s` without its first `x`; `s` itself if it holds no `x`.
pub open spec fn remove_first(s: Seq<usize>, x: usize) -> Seq<usize> {
    let k = first_at(s, x, 0);
    if k < s.len() {
        s.remove(k)
    } else {
        s
    }
}

/// `s` without, for each node `j < k` with an edge from `node` to `j`, its first `j`, taken
/// out in increasing order of `j`.
pub open spec fn strip_targets<U>(s: Seq<usize>, edges: Map<(usize, usize), Edge<U>>, node: usize, k: int) -> Seq<usize>
    decreases k,
{
    if k <= 0 {
        s
    } else {
        let t = strip_targets(s, edges, node, k - 1);
        if edges.contains_key((node, (k - 1) as usize)) {
            remove_first(t, (k - 1) as usize)
        } else {
            t
        }
    }
}

/// `s` without, for each node `j < k` with an edge from `j` to `node`, its first `j`, taken
/// out in increasing order of `j`.
pub open spec fn strip_sources<U>(s: Seq<usize>, edges: Map<(usize, usize), Edge<U>>, node: usize, k: int) -> Seq<usize>
    decreases k,
{
    if k <= 0 {
        s
    } else {
        let t = strip_sources(s, edges, node, k - 1);
        if edges.contains_key(((k - 1) as usize, node)) {
            remove_first(t, (k - 1) as usize)
        } else {
            t
        }
    }
}

/// The position found by `first_at` lies between the start and the end, and holds `x`
/// unless it is the end.
pub proof fn lemma_first_at(s: Seq<usize>, x: usize, from: int)
    requires
        0 <= from <= s.len(),
    ensures
        from <= first_at(s, x, from) <= s.len(),
        first_at(s, x, from) < s.len() ==> s[first_at(s, x, from)] == x,
    decreases s.len() - from,
{
    if from < s.len() && s[from] != x {
        lemma_first_at(s, x, from + 1);
    }
}

/// Removing an entry keeps every entry under a bound that held before.
pub proof fn lemma_remove_first_bounded(s: Seq<usize>, x: usize, bound: int)
    requires
        forall|m: int| 0 <= m < s.len() ==> s[m] < bound,
    ensures
        forall|k: int| 0 <= k < remove_first(s, x).len() ==> #[trigger] remove_first(s, x)[k] < bound,
{
    let f = first_at(s, x, 0);
    lemma_first_at(s, x, 0);
    if f < s.len() {
        assert(s.remove(f) =~= s.subrange(0, f) + s.subrange(f + 1, s.len() as int));
        assert forall|k: int| 0 <= k < remove_first(s, x).len() implies #[trigger] remove_first(s, x)[k]
            < bound by {
            if k < f {
                assert(remove_first(s, x)[k] == s[k]);
            } else {
                assert(remove_first(s, x)[k] == s[k + 1]);
            }
        }
    }
}

/// Position of the last node among the first `n` whose element equals `x`.
pub open spec fn last_match<T: PartialEq>(s: Seq<DataNode<T>>, x: T, n: int) -> Option<int>
    decreases n,
{
    if n <= 0 {
        None
    } else if s[n - 1].element.eq_spec(&x) {
        Some(n - 1)
    } else {
        last_match(s, x, n - 1)
    }
}

/// Whether key `a` comes before key `b` in lexicographic order.
pub open spec fn key_before(a: (usize, usize), b: (usize, usize)) -> bool {
    a.0 < b.0 || (a.0 == b.0 && a.1 < b.1)
}

/// The edges of `m` in row `i`, from column 0 up to column `j` (excluded).
pub open spec fn row_edges<U>(m: Map<(usize, usize), Edge<U>>, i: int, j: int) -> Seq<Edge<U>>
    decreases j,
{
    if j <= 0 {
        Seq::empty()
    } else {
        let k = (i as usize, (j - 1) as usize);
        row_edges(m, i, j - 1) + if m.contains_key(k) {
            seq![m[k]]
        } else {
            Seq::empty()
        }
    }
}

/// The edges of `m` in rows `0..i` of an `n` by `n` grid, in lexicographic key order.
pub open spec fn ordered_edges<U>(m: Map<(usize, usize), Edge<U>>, n: int, i: int) -> Seq<Edge<U>>
    decreases i,
{
    if i <= 0 {
        Seq::empty()
    } else {
        ordered_edges(m, n, i - 1) + row_edges(m, i - 1, n)
    }
}

/// The columns `j < k` of the keys of row `i` of `m`, in increasing order.
pub open spec fn row_targets<U>(m: Map<(usize, usize), Edge<U>>, i: usize, k: int) -> Seq<usize>
    decreases k,
{
    if k <= 0 {
        Seq::empty()
    } else {
        row_targets(m, i, k - 1) + if m.contains_key((i, (k - 1) as usize)) {
            seq![(k - 1) as usize]
        } else {
            Seq::empty()
        }
    }
}

/// The rows `i < k` of the keys of column `j` of `m`, in increasing order.
pub open spec fn col_sources<U>(m: Map<(usize, usize), Edge<U>>, j: usize, k: int) -> Seq<usize>
    decreases k,
{
    if k <= 0 {
        Seq::empty()
    } else {
        col_sources(m, j, k - 1) + if m.contains_key(((k - 1) as usize, j)) {
            seq![(k - 1) as usize]
        } else {
            Seq::empty()
        }
    }
}

/// Every element of `row_targets` or `col_sources` is below the bound of the scan.
pub proof fn lemma_scans_bounded<U>(m: Map<(usize, usize), Edge<U>>, x: usize, k: int)
    ensures
        forall|t: int| 0 <= t < row_targets(m, x, k).len() ==> #[trigger] row_targets(m, x, k)[t] < k,
        forall|t: int| 0 <= t < col_sources(m, x, k).len() ==> #[trigger] col_sources(m, x, k)[t] < k,
    decreases k,
{
    if k > 0 {
        lemma_scans_bounded(m, x, k - 1);
        assert forall|t: int| 0 <= t < row_targets(m, x, k).len() implies #[trigger] row_targets(
            m,
            x,
            k,
        )[t] < k by {
            if t < row_targets(m, x, k - 1).len() {
                assert(row_targets(m, x, k)[t] == row_targets(m, x, k - 1)[t]);
            }
        }
        assert forall|t: int| 0 <= t < col_sources(m, x, k).len() implies #[trigger] col_sources(
            m,
            x,
            k,
        )[t] < k by {
            if t < col_sources(m, x, k - 1).len() {
                assert(col_sources(m, x, k)[t] == col_sources(m, x, k - 1)[t]);
            }
        }
    }
}

/// Number of `false` marks in `s`.
pub open spec fn unseen_count(s: Seq<bool>) -> nat
    decreases s.len(),
{
    if s.len() == 0 {
        0
    } else {
        unseen_count(s.drop_last()) + if s.last() {
            0nat
        } else {
            1nat
        }
    }
}

/// Setting a `false` mark to `true` leaves one `false` mark fewer.
pub proof fn lemma_unseen_update(s: Seq<bool>, i: int)
    requires
        0 <= i < s.len(),
        !s[i],
    ensures
        unseen_count(s.update(i, true)) + 1 == unseen_count(s),
    decreases s.len(),
{
    let t = s.update(i, true);
    if i < s.len() - 1 {
        assert(t.drop_last() =~= s.drop_last().update(i, true));
        lemma_unseen_update(s.drop_last(), i);
    } else {
        assert(t.drop_last() =~= s.drop_last());
    }
}

/// The edge that a graph stores between the nodes at `i` and `j`.
pub open spec fn stored_edge<U>(i: usize, j: usize, weight: U) -> Edge<U> {
    Edge { from: None, to: None, weight, ref_from: Some(i), ref_to: Some(j) }
}

impl<T> DataNode<T> {
    /// Removes the first outgoing entry towards `to`, if there is one.
    pub(crate) fn remove_out_edge_to(&mut self, to: usize)
        ensures
            final(self).out_edges@ == remove_first(old(self).out_edges@, to),
            final(self).in_edges == old(self).in_edges,
            final(self).element == old(self).element,
            final(self).index == old(self).index,
    {
        let n = self.out_edges.len();
        let mut i: usize = 0;
        while i < n && self.out_edges[i] != to
            invariant
                n == self.out_edges@.len(),
                i <= n,
                first_at(self.out_edges@, to, 0) == first_at(self.out_edges@, to, i as int),
            decreases n - i,
        {
            i += 1;
        }
        if i < n {
            self.out_edges.remove(i);
        }
    }

    /// Removes the first incoming entry from `from`, if there is one.
    pub(crate) fn remove_in_edge_from(&mut self, from: usize)
        ensures
            final(self).in_edges@ == remove_first(old(self).in_edges@, from),
            final(self).out_edges == old(self).out_edges,
            final(self).element == old(self).element,
            final(self).index == old(self).index,
    {
        let n = self.in_edges.len();
        let mut i: usize = 0;
        while i < n && self.in_edges[i] != from
            invariant
                n == self.in_edges@.len(),
                i <= n,
                first_at(self.in_edges@, from, 0) == first_at(self.in_edges@, from, i as int),
            decreases n - i,
        {
            i += 1;
        }
        if i < n {
            self.in_edges.remove(i);
        }
    }
}

/// A directed graph. Nodes are kept in the order they were made and known by their index;
/// edges are kept by the pair of indices they join, at most one per pair. Each node also
/// lists the targets of its outgoing edges and the sources of its incoming ones.
pub struct Digraph<T, U> {
    nodes: Vec<DataNode<T>>,
    edges: BTreeMap<(usize, usize), Edge<U>>,
}

impl<T, U> Digraph<T, U> {
    /// The nodes, by index.
    pub closed spec fn node_seq(&self) -> Seq<DataNode<T>> {
        self.nodes@
    }

    /// The edges, by the pair of node indices they join.
    pub closed spec fn edge_map(&self) -> Map<(usize, usize), Edge<U>> {
        self.edges@
    }

    pub open spec fn n(&self) -> int {
        self.node_seq().len() as int
    }

    /// The elements carried by the nodes, by index.
    pub open spec fn elements(&self) -> Seq<T> {
        self.node_seq().map_values(|d: DataNode<T>| d.element)
    }

    /// The targets listed by each node for its outgoing edges.
    pub open spec fn out_lists(&self) -> Seq<Seq<usize>> {
        self.node_seq().map_values(|d: DataNode<T>| d.out_edges@)
    }

    /// The sources listed by each node for its incoming edges.
    pub open spec fn in_lists(&self) -> Seq<Seq<usize>> {
        self.node_seq().map_values(|d: DataNode<T>| d.in_edges@)
    }

    /// Each node knows its index; each edge joins two nodes of the graph, points to them,
    /// and is kept under their indices; the adjacency lists name nodes of the graph.
    pub open spec fn wf(&self) -> bool {
        &&& forall|i: int| 0 <= i < self.n() ==> (#[trigger] self.node_seq()[i]).index == i
        &&& forall|k: (usize, usize)|
            #[trigger] self.edge_map().contains_key(k) ==> {
                &&& k.0 < self.n()
                &&& k.1 < self.n()
                &&& self.edge_map()[k].ref_from == Some(k.0)
                &&& self.edge_map()[k].ref_to == Some(k.1)
            }
        &&& forall|i: int, k: int|
            0 <= i < self.n() && 0 <= k < self.out_lists()[i].len() ==> #[trigger] self.out_lists()[i][k]
                < self.n()
        &&& forall|i: int, k: int|
            0 <= i < self.n() && 0 <= k < self.in_lists()[i].len() ==> #[trigger] self.in_lists()[i][k]
                < self.n()
    }

    pub fn new() -> (g: Self)
        ensures
            g.node_seq() == Seq::<DataNode<T>>::empty(),
            g.edge_map() == Map::<(usize, usize), Edge<U>>::empty(),
            g.wf(),
    {
        Digraph { nodes: Vec::new(), edges: BTreeMap::new() }
    }

    /// Adds a node carrying `value`, without edges; returns its index.
    pub fn make_node(&mut self, value: T) -> (r: usize)
        requires
            old(self).wf(),
        ensures
            final(self).wf(),
            r == old(self).n(),
            final(self).n() == old(self).n() + 1,
            final(self).node_seq().subrange(0, r as int) == old(self).node_seq(),
            final(self).node_seq()[r as int].element == value,
            final(self).node_seq()[r as int].out_edges@ == Seq::<usize>::empty(),
            final(self).node_seq()[r as int].in_edges@ == Seq::<usize>::empty(),
            final(self).node_seq()[r as int].index == r,
            final(self).edge_map() == old(self).edge_map(),
    {
        let mut node = DataNode::from(value);
        let r = self.nodes.len();
        node.index = r;
        self.nodes.push(node);
        proof {
            assert(self.node_seq().subrange(0, r as int) =~= old(self).node_seq());
            assert forall|i: int, k: int|
                0 <= i < self.n() && 0 <= k < self.out_lists()[i].len() implies #[trigger] self.out_lists()[i][k]
                < self.n() by {
                if i < r {
                    assert(self.out_lists()[i] == old(self).out_lists()[i]);
                }
            }
            assert forall|i: int, k: int|
                0 <= i < self.n() && 0 <= k < self.in_lists()[i].len() implies #[trigger] self.in_lists()[i][k]
                < self.n() by {
                if i < r {
                    assert(self.in_lists()[i] == old(self).in_lists()[i]);
                }
            }
        }
        r
    }

    pub fn n_nodes(&self) -> (r: usize)
        ensures
            r == self.n(),
    {
        self.nodes.len()
    }

    /// The nodes, by index.
    pub fn nodes_iter(&self) -> (r: &[DataNode<T>])
        ensures
            r@ == self.node_seq(),
    {
        self.nodes.as_slice()
    }

    pub fn node_at(&self, i: usize) -> (r: &DataNode<T>)
        requires
            i < self.n(),
        ensures
            *r == self.node_seq()[i as int],
    {
        &self.nodes[i]
    }

    pub fn edge_at(&self, i: usize, j: usize) -> (r: Option<&Edge<U>>)
        ensures
            match r {
                Some(e) => self.edge_map().contains_key((i, j)) && *e == self.edge_map()[(i, j)],
                None => !self.edge_map().contains_key((i, j)),
            },
    {
        self.edges.get(&(i, j))
    }

    pub fn has_edge(&self, i: usize, j: usize) -> (r: bool)
        ensures
            r == self.edge_map().contains_key((i, j)),
    {
        self.edges.contains_key(&(i, j))
    }

    /// The key under which an edge between two nodes is kept.
    fn edge_index(&self, from: &DataNode<T>, to: &DataNode<T>) -> (r: (usize, usize))
        ensures
            r == (from.index, to.index),
    {
        (from.index, to.index)
    }

    /// Keeps `edge` between `from` and `to` unless one is there already.
    fn save_edge(&mut self, from: usize, to: usize, edge: Edge<U>) -> (r: Option<(usize, usize)>)
        requires
            old(self).wf(),
            from < old(self).n(),
            to < old(self).n(),
            edge.ref_from == Some(from),
            edge.ref_to == Some(to),
        ensures
            final(self).wf(),
            final(self).elements() == old(self).elements(),
            old(self).edge_map().contains_key((from, to)) ==> {
                &&& r.is_none()
                &&& final(self).edge_map() == old(self).edge_map()
                &&& final(self).out_lists() == old(self).out_lists()
                &&& final(self).in_lists() == old(self).in_lists()
            },
            !old(self).edge_map().contains_key((from, to)) ==> {
                &&& r == Some((from, to))
                &&& final(self).edge_map() == old(self).edge_map().insert((from, to), edge)
                &&& final(self).out_lists() == old(self).out_lists().update(
                    from as int,
                    old(self).out_lists()[from as int].push(to),
                )
                &&& final(self).in_lists() == old(self).in_lists().update(
                    to as int,
                    old(self).in_lists()[to as int].push(from),
                )
            },
    {
        let index = (from, to);
        if self.edges.contains_key(&index) {
            return None;
        }
        self.add_adjacency(from, to);
        self.edges.insert(index, edge);
        Some(index)
    }

    /// Lists `to` among the targets of `from` and `from` among the sources of `to`.
    fn add_adjacency(&mut self, from: usize, to: usize)
        requires
            old(self).wf(),
            from < old(self).n(),
            to < old(self).n(),
        ensures
            final(self).wf(),
            final(self).n() == old(self).n(),
            final(self).elements() == old(self).elements(),
            final(self).edge_map() == old(self).edge_map(),
            final(self).out_lists() == old(self).out_lists().update(
                from as int,
                old(self).out_lists()[from as int].push(to),
            ),
            final(self).in_lists() == old(self).in_lists().update(
                to as int,
                old(self).in_lists()[to as int].push(from),
            ),
    {
        self.nodes[from].add_out_edge(to);
        self.nodes[to].add_in_edge(from);
        proof {
            let n = self.n();
            assert(self.elements() =~= old(self).elements());
            assert(self.out_lists() =~= old(self).out_lists().update(
                from as int,
                old(self).out_lists()[from as int].push(to),
            ));
            assert(self.in_lists() =~= old(self).in_lists().update(
                to as int,
                old(self).in_lists()[to as int].push(from),
            ));
            assert forall|i: int| 0 <= i < n implies (#[trigger] self.node_seq()[i]).index == i by {
                assert(self.node_seq()[i].index == old(self).node_seq()[i].index);
            }
            assert forall|i: int, k: int|
                0 <= i < n && 0 <= k < self.out_lists()[i].len() implies #[trigger] self.out_lists()[i][k]
                < n by {
                if i != from || k < old(self).out_lists()[i].len() {
                    assert(self.out_lists()[i][k] == old(self).out_lists()[i][k]);
                }
            }
            assert forall|i: int, k: int|
                0 <= i < n && 0 <= k < self.in_lists()[i].len() implies #[trigger] self.in_lists()[i][k]
                < n by {
                if i != to || k < old(self).in_lists()[i].len() {
                    assert(self.in_lists()[i][k] == old(self).in_lists()[i][k]);
                }
            }
        }
    }
}

impl<T, U> Digraph<T, U> {
    /// Adds an edge of weight `weight` from the last node carrying `from` to the last node
    /// carrying `to`, unless one of them is missing or the edge exists; returns its key.
    pub fn make_edge(&mut self, from: &T, to: &T, weight: U) -> (r: Option<(usize, usize)>) where
        T: PartialEq,

        requires
            old(self).wf(),
        ensures
            final(self).wf(),
            final(self).elements() == old(self).elements(),
            T::obeys_eq_spec() ==> match (
                last_match(old(self).node_seq(), *from, old(self).n()),
                last_match(old(self).node_seq(), *to, old(self).n()),
            ) {
                (Some(i), Some(j)) => {
                    let (i, j) = (i as usize, j as usize);
                    if old(self).edge_map().contains_key((i, j)) {
                        &&& r.is_none()
                        &&& final(self).edge_map() == old(self).edge_map()
                        &&& final(self).out_lists() == old(self).out_lists()
                        &&& final(self).in_lists() == old(self).in_lists()
                    } else {
                        &&& r == Some((i, j))
                        &&& final(self).edge_map() == old(self).edge_map().insert(
                            (i, j),
                            stored_edge(i, j, weight),
                        )
                        &&& final(self).out_lists() == old(self).out_lists().update(
                            i as int,
                            old(self).out_lists()[i as int].push(j),
                        )
                        &&& final(self).in_lists() == old(self).in_lists().update(
                            j as int,
                            old(self).in_lists()[j as int].push(i),
                        )
                    }
                },
                _ => {
                    &&& r.is_none()
                    &&& final(self).edge_map() == old(self).edge_map()
                    &&& final(self).out_lists() == old(self).out_lists()
                    &&& final(self).in_lists() == old(self).in_lists()
                },
            },
    {
        let mut e = Edge::orphan(weight);
        let mut node_from: Option<usize> = None;
        let mut node_to: Option<usize> = None;
        let n = self.nodes.len();
        for i in 0..n
            invariant
                n == self.n(),
                e.from.is_none(),
                e.to.is_none(),
                e.weight == weight,
                e.ref_from == node_from,
                e.ref_to == node_to,
                node_from.is_some() ==> node_from.unwrap() < i,
                node_to.is_some() ==> node_to.unwrap() < i,
                T::obeys_eq_spec() ==> match last_match(self.node_seq(), *from, i as int) {
                    None => node_from.is_none(),
                    Some(k) => node_from == Some(k as usize),
                },
                T::obeys_eq_spec() ==> match last_match(self.node_seq(), *to, i as int) {
                    None => node_to.is_none(),
                    Some(k) => node_to == Some(k as usize),
                },
        {
            if self.nodes[i].element == *from {
                e.set_node_from(i);
                node_from = Some(i);
            }
            if self.nodes[i].element == *to {
                e.set_node_to(i);
                node_to = Some(i);
            }
        }
        if !e.is_connected() {
            return None;
        }
        let i = node_from.unwrap();
        let j = node_to.unwrap();
        self.save_edge(i, j, e)
    }

    /// Adds an edge of weight `weight` from the node at `from` to the node at `to`. Both
    /// nodes list the new edge, and list it a second time when the graph did not hold an
    /// edge between them yet; the edge is kept only in that case, and its key returned.
    pub fn connect(&mut self, from: usize, to: usize, weight: U) -> (r: Option<(usize, usize)>)
        requires
            old(self).wf(),
            from < old(self).n(),
            to < old(self).n(),
        ensures
            final(self).wf(),
            final(self).elements() == old(self).elements(),
            old(self).edge_map().contains_key((from, to)) ==> {
                &&& r.is_none()
                &&& final(self).edge_map() == old(self).edge_map()
                &&& final(self).out_lists() == old(self).out_lists().update(
                    from as int,
                    old(self).out_lists()[from as int].push(to),
                )
                &&& final(self).in_lists() == old(self).in_lists().update(
                    to as int,
                    old(self).in_lists()[to as int].push(from),
                )
            },
            !old(self).edge_map().contains_key((from, to)) ==> {
                &&& r == Some((from, to))
                &&& final(self).edge_map() == old(self).edge_map().insert(
                    (from, to),
                    stored_edge(from, to, weight),
                )
                &&& final(self).out_lists() == old(self).out_lists().update(
                    from as int,
                    old(self).out_lists()[from as int].push(to).push(to),
                )
                &&& final(self).in_lists() == old(self).in_lists().update(
                    to as int,
                    old(self).in_lists()[to as int].push(from).push(from),
                )
            },
    {
        let e = Edge::data_edge(from, to, weight);
        self.add_adjacency(from, to);
        let r = self.save_edge(from, to, e);
        proof {
            if !old(self).edge_map().contains_key((from, to)) {
                assert(self.out_lists() =~= old(self).out_lists().update(
                    from as int,
                    old(self).out_lists()[from as int].push(to).push(to),
                ));
                assert(self.in_lists() =~= old(self).in_lists().update(
                    to as int,
                    old(self).in_lists()[to as int].push(from).push(from),
                ));
            }
        }
        r
    }

    /// Whether an edge goes from the node at `from` to the node at `to`.
    pub fn are_connected(&mut self, from: usize, to: usize) -> (r: bool)
        ensures
            r == old(self).edge_map().contains_key((from, to)),
            *final(self) == *old(self),
    {
        self.has_edge(from, to)
    }

    /// The edge from the node at `from` to the node at `to`.
    pub fn get_connection(&self, from: usize, to: usize) -> (r: Option<&Edge<U>>)
        ensures
            match r {
                Some(e) => self.edge_map().contains_key((from, to)) && *e == self.edge_map()[(
                    from,
                    to,
                )],
                None => !self.edge_map().contains_key((from, to)),
            },
    {
        self.edge_at(from, to)
    }

    /// Removes the edge kept under `index`, if any: the source forgets its first entry
    /// towards the target, and the target its first entry from the source.
    pub fn remove_edge_at(&mut self, index: (usize, usize))
        requires
            old(self).wf(),
        ensures
            final(self).wf(),
            final(self).n() == old(self).n(),
            final(self).elements() == old(self).elements(),
            !old(self).edge_map().contains_key(index) ==> *final(self) == *old(self),
            old(self).edge_map().contains_key(index) ==> {
                &&& final(self).edge_map() == old(self).edge_map().remove(index)
                &&& final(self).out_lists() == old(self).out_lists().update(
                    index.0 as int,
                    remove_first(old(self).out_lists()[index.0 as int], index.1),
                )
                &&& final(self).in_lists() == old(self).in_lists().update(
                    index.1 as int,
                    remove_first(old(self).in_lists()[index.1 as int], index.0),
                )
            },
    {
        if !self.edges.contains_key(&index) {
            return;
        }
        self.edges.remove(&index);
        let (a, b) = index;
        let to_index = self.nodes[b].index;
        self.nodes[a].remove_out_edge_to(to_index);
        let from_index = self.nodes[a].index;
        self.nodes[b].remove_in_edge_from(from_index);
        proof {
            let n = self.n();
            assert(self.elements() =~= old(self).elements());
            assert(self.out_lists() =~= old(self).out_lists().update(
                a as int,
                remove_first(old(self).out_lists()[a as int], b),
            ));
            assert(self.in_lists() =~= old(self).in_lists().update(
                b as int,
                remove_first(old(self).in_lists()[b as int], a),
            ));
            assert forall|i: int| 0 <= i < n implies (#[trigger] self.node_seq()[i]).index == i by {
                assert(self.node_seq()[i].index == old(self).node_seq()[i].index);
            }
            lemma_remove_first_bounded(old(self).out_lists()[a as int], b, n);
            lemma_remove_first_bounded(old(self).in_lists()[b as int], a, n);
            assert forall|i: int, k: int|
                0 <= i < n && 0 <= k < self.out_lists()[i].len() implies #[trigger] self.out_lists()[i][k]
                < n by {
                if i != a {
                    assert(self.out_lists()[i] == old(self).out_lists()[i]);
                }
            }
            assert forall|i: int, k: int|
                0 <= i < n && 0 <= k < self.in_lists()[i].len() implies #[trigger] self.in_lists()[i][k]
                < n by {
                if i != b {
                    assert(self.in_lists()[i] == old(self).in_lists()[i]);
                }
            }
        }
    }

    /// Removes the edge from the node at `from` to the node at `to`, if any.
    pub fn disconnect(&mut self, from: usize, to: usize)
        requires
            old(self).wf(),
        ensures
            final(self).wf(),
            final(self).n() == old(self).n(),
            final(self).elements() == old(self).elements(),
            final(self).edge_map() == old(self).edge_map().remove((from, to)),
    {
        let index = (from, to);
        self.remove_edge_at(index);
        proof {
            if !old(self).edge_map().contains_key(index) {
                assert(old(self).edge_map().remove(index) =~= old(self).edge_map());
            }
        }
    }

    /// Removes every edge into or out of the node at `node`.
    pub fn remove_node(&mut self, node: usize)
        requires
            old(self).wf(),
        ensures
            final(self).wf(),
            final(self).n() == old(self).n(),
            final(self).elements() == old(self).elements(),
            forall|k: (usize, usize)|
                #[trigger] final(self).edge_map().contains_key(k) == (old(self).edge_map().contains_key(k)
                    && k.0 != node && k.1 != node),
            forall|k: (usize, usize)|
                #[trigger] final(self).edge_map().contains_key(k) ==> final(self).edge_map()[k]
                    == old(self).edge_map()[k],
            node < old(self).n() ==> {
                let e = old(self).edge_map();
                let n = old(self).n();
                &&& final(self).out_lists()[node as int] == strip_targets(old(self).out_lists()[node as int], e, node, n)
                &&& final(self).in_lists()[node as int] == strip_sources(old(self).in_lists()[node as int], e, node, n)
            },
            forall|x: int|
                0 <= x < old(self).n() && x != node ==> #[trigger] final(self).out_lists()[x] == if old(
                    self,
                ).edge_map().contains_key((x as usize, node)) {
                    remove_first(old(self).out_lists()[x], node)
                } else {
                    old(self).out_lists()[x]
                },
            forall|x: int|
                0 <= x < old(self).n() && x != node ==> #[trigger] final(self).in_lists()[x] == if old(
                    self,
                ).edge_map().contains_key((node, x as usize)) {
                    remove_first(old(self).in_lists()[x], node)
                } else {
                    old(self).in_lists()[x]
                },
    {
        let n = self.nodes.len();
        let ghost e = old(self).edge_map();
        let ghost out0 = old(self).out_lists();
        let ghost in0 = old(self).in_lists();
        for j in 0..n
            invariant
                n == old(self).n(),
                e == old(self).edge_map(),
                out0 == old(self).out_lists(),
                in0 == old(self).in_lists(),
                self.wf(),
                self.n() == old(self).n(),
                self.elements() == old(self).elements(),
                forall|k: (usize, usize)|
                    #[trigger] self.edge_map().contains_key(k) == (old(self).edge_map().contains_key(k)
                        && !((k.0 == node && k.1 < j) || (k.1 == node && k.0 < j))),
                forall|k: (usize, usize)|
                    #[trigger] self.edge_map().contains_key(k) ==> self.edge_map()[k]
                        == old(self).edge_map()[k],
                node < n ==> self.out_lists()[node as int] == strip_targets(out0[node as int], e, node, j as int),
                node < n ==> self.in_lists()[node as int] == strip_sources(in0[node as int], e, node, j as int),
                forall|x: int|
                    0 <= x < n && x != node ==> #[trigger] self.out_lists()[x] == if x < j && e.contains_key(
                        (x as usize, node),
                    ) {
                        remove_first(out0[x], node)
                    } else {
                        out0[x]
                    },
                forall|x: int|
                    0 <= x < n && x != node ==> #[trigger] self.in_lists()[x] == if x < j && e.contains_key(
                        (node, x as usize),
                    ) {
                        remove_first(in0[x], node)
                    } else {
                        in0[x]
                    },
        {
            self.remove_edge_at((node, j));
            self.remove_edge_at((j, node));
        }
        proof {
            assert forall|k: (usize, usize)|
                #[trigger] self.edge_map().contains_key(k) == (old(self).edge_map().contains_key(k)
                    && k.0 != node && k.1 != node) by {
                if old(self).edge_map().contains_key(k) {
                    assert(k.0 < n && k.1 < n);
                }
            }
        }
    }

    /// Indices of the nodes whose element passes `filter`, in increasing order.
    pub fn find<F>(&self, filter: F) -> (r: Vec<usize>) where F: Fn(&T) -> bool
        requires
            forall|i: int| 0 <= i < self.n() ==> call_requires(filter, (&self.elements()[i],)),
        ensures
            forall|k: int|
                0 <= k < r.len() ==> r[k] < self.n() && call_ensures(
                    filter,
                    (&self.elements()[r[k] as int],),
                    true,
                ),
            forall|a: int, b: int| 0 <= a < b < r.len() ==> r[a] < r[b],
            forall|i: int|
                0 <= i < self.n() && !r@.contains(i as usize) ==> call_ensures(
                    filter,
                    (&self.elements()[i],),
                    false,
                ),
    {
        let mut res: Vec<usize> = Vec::new();
        let n = self.nodes.len();
        for i in 0..n
            invariant
                n == self.n(),
                forall|i: int| 0 <= i < self.n() ==> call_requires(filter, (&self.elements()[i],)),
                forall|k: int|
                    0 <= k < res.len() ==> res[k] < i && call_ensures(
                        filter,
                        (&self.elements()[res[k] as int],),
                        true,
                    ),
                forall|a: int, b: int| 0 <= a < b < res.len() ==> res[a] < res[b],
                forall|m: int|
                    0 <= m < i && !res@.contains(m as usize) ==> call_ensures(
                        filter,
                        (&self.elements()[m],),
                        false,
                    ),
        {
            let ghost old_res = res@;
            assert(self.elements()[i as int] == self.nodes[i as int].element);
            let keep = filter(&self.nodes[i].element);
            if keep {
                res.push(i);
            }
            proof {
                assert forall|m: int|
                    0 <= m < i + 1 && !res@.contains(m as usize) implies call_ensures(
                    filter,
                    (&self.elements()[m],),
                    false,
                ) by {
                    if m < i {
                        if old_res.contains(m as usize) {
                            let k = choose|k: int| 0 <= k < old_res.len() && old_res[k] == m as usize;
                            assert(res@[k] == m as usize);
                        }
                    } else if keep {
                        assert(res@[res@.len() - 1] == i);
                    }
                }
            }
        }
        res
    }

    /// Index of the first node whose element passes `filter`.
    pub fn find_first<F>(&self, filter: F) -> (r: Option<usize>) where F: Fn(&T) -> bool
        requires
            forall|i: int| 0 <= i < self.n() ==> call_requires(filter, (&self.elements()[i],)),
        ensures
            match r {
                Some(i) => {
                    &&& i < self.n()
                    &&& call_ensures(filter, (&self.elements()[i as int],), true)
                    &&& forall|m: int|
                        0 <= m < i ==> call_ensures(filter, (&self.elements()[m],), false)
                },
                None => forall|m: int|
                    0 <= m < self.n() ==> call_ensures(filter, (&self.elements()[m],), false),
            },
    {
        let n = self.nodes.len();
        for i in 0..n
            invariant
                n == self.n(),
                forall|i: int| 0 <= i < self.n() ==> call_requires(filter, (&self.elements()[i],)),
                forall|m: int| 0 <= m < i ==> call_ensures(filter, (&self.elements()[m],), false),
        {
            assert(self.elements()[i as int] == self.nodes[i as int].element);
            if filter(&self.nodes[i].element) {
                return Some(i);
            }
        }
        None
    }

    /// Index of the first node carrying `value`.
    pub fn get_node(&self, value: &T) -> (r: Option<usize>) where T: PartialEq
        ensures
            T::obeys_eq_spec() ==> match r {
                Some(i) => {
                    &&& i < self.n()
                    &&& self.elements()[i as int].eq_spec(value)
                    &&& forall|m: int| 0 <= m < i ==> !self.elements()[m].eq_spec(value)
                },
                None => forall|m: int| 0 <= m < self.n() ==> !self.elements()[m].eq_spec(value),
            },
    {
        let same = |x: &T| -> (b: bool)
            ensures
                T::obeys_eq_spec() ==> b == x.eq_spec(value),
            { *x == *value };
        self.find_first(same)
    }
}

impl<T, U> Digraph<T, U> {
    /// The edges, in increasing order of their keys.
    pub fn edges_iter(&self) -> (r: Vec<&Edge<U>>)
        requires
            self.wf(),
        ensures
            r@.len() == ordered_edges(self.edge_map(), self.n(), self.n()).len(),
            forall|k: int|
                0 <= k < r@.len() ==> *r@[k] == ordered_edges(self.edge_map(), self.n(), self.n())[k],
    {
        let n = self.nodes.len();
        let ghost m = self.edge_map();
        let mut res: Vec<&Edge<U>> = Vec::new();
        for i in 0..n
            invariant
                n == self.n(),
                m == self.edge_map(),
                res@.len() == ordered_edges(m, n as int, i as int).len(),
                forall|k: int|
                    0 <= k < res@.len() ==> *(#[trigger] res@[k]) == ordered_edges(m, n as int, i as int)[k],
        {
            for j in 0..n
                invariant
                    n == self.n(),
                    m == self.edge_map(),
                    res@.len() == (ordered_edges(m, n as int, i as int) + row_edges(m, i as int, j as int)).len(),
                    forall|k: int|
                        0 <= k < res@.len() ==> *(#[trigger] res@[k]) == (ordered_edges(m, n as int, i as int)
                            + row_edges(m, i as int, j as int))[k],
            {
                let ghost prev = res@;
                let got = self.edges.get(&(i, j));
                match got {
                    Some(e) => {
                        res.push(e);
                    },
                    None => {},
                }
                proof {
                    let o = ordered_edges(m, n as int, i as int);
                    let r0 = row_edges(m, i as int, j as int);
                    let r1 = row_edges(m, i as int, j + 1);
                    assert(r1 == r0 + if m.contains_key((i, j)) {
                        seq![m[(i, j)]]
                    } else {
                        Seq::empty()
                    });
                    assert forall|k: int| 0 <= k < res@.len() implies *(#[trigger] res@[k]) == (o + r1)[k] by {
                        if k < prev.len() {
                            assert(res@[k] == prev[k]);
                            assert(*prev[k] == (o + r0)[k]);
                        }
                    }
                }
            }
            proof {
                assert(ordered_edges(m, n as int, i + 1) == ordered_edges(m, n as int, i as int) + row_edges(m, i as int, n as int));
            }
        }
        res
    }

    /// Adds an edge of weight `weight`, copied, between every pair of nodes, taken in
    /// increasing order of keys, that has no edge yet and whose elements pass `filter`;
    /// returns the keys of the new edges.
    pub fn make_edge_when<F>(&mut self, filter: F, weight: U) -> (r: Vec<(usize, usize)>) where
        F: Fn(&T, &T) -> bool,
        U: Clone,

        requires
            old(self).wf(),
            forall|i: int, j: int|
                0 <= i < old(self).n() && 0 <= j < old(self).n() ==> call_requires(
                    filter,
                    (&old(self).elements()[i], &old(self).elements()[j]),
                ),
        ensures
            final(self).wf(),
            final(self).n() == old(self).n(),
            final(self).elements() == old(self).elements(),
            forall|a: int, b: int| 0 <= a < b < r@.len() ==> key_before(r@[a], r@[b]),
            forall|k: (usize, usize)|
                #[trigger] final(self).edge_map().contains_key(k) == (old(self).edge_map().contains_key(k)
                    || r@.contains(k)),
            forall|k: (usize, usize)|
                #[trigger] old(self).edge_map().contains_key(k) ==> final(self).edge_map()[k]
                    == old(self).edge_map()[k],
            forall|t: int|
                0 <= t < r@.len() ==> {
                    let k = #[trigger] r@[t];
                    &&& !old(self).edge_map().contains_key(k)
                    &&& k.0 < old(self).n()
                    &&& k.1 < old(self).n()
                    &&& call_ensures(
                        filter,
                        (&old(self).elements()[k.0 as int], &old(self).elements()[k.1 as int]),
                        true,
                    )
                    &&& final(self).edge_map()[k].ref_from == Some(k.0)
                    &&& final(self).edge_map()[k].ref_to == Some(k.1)
                    &&& final(self).edge_map()[k].from.is_none()
                    &&& final(self).edge_map()[k].to.is_none()
                    &&& cloned(weight, final(self).edge_map()[k].weight)
                },
            forall|i: usize, j: usize|
                i < old(self).n() && j < old(self).n() && !old(self).edge_map().contains_key((i, j))
                    && !r@.contains((i, j)) ==> call_ensures(
                    filter,
                    (&old(self).elements()[i as int], &old(self).elements()[j as int]),
                    false,
                ),
    {
        let mut res: Vec<(usize, usize)> = Vec::new();
        let n = self.nodes.len();
        for i in 0..n
            invariant
                n == old(self).n(),
                self.wf(),
                self.n() == old(self).n(),
                self.elements() == old(self).elements(),
                forall|i: int, j: int|
                    0 <= i < old(self).n() && 0 <= j < old(self).n() ==> call_requires(
                        filter,
                        (&old(self).elements()[i], &old(self).elements()[j]),
                    ),
                forall|t: int| 0 <= t < res@.len() ==> (#[trigger] res@[t]).0 < i,
                forall|a: int, b: int| 0 <= a < b < res@.len() ==> key_before(res@[a], res@[b]),
                forall|k: (usize, usize)|
                    #[trigger] self.edge_map().contains_key(k) == (old(self).edge_map().contains_key(k)
                        || res@.contains(k)),
                forall|k: (usize, usize)|
                    #[trigger] old(self).edge_map().contains_key(k) ==> self.edge_map()[k]
                        == old(self).edge_map()[k],
                forall|t: int|
                    0 <= t < res@.len() ==> {
                        let k = #[trigger] res@[t];
                        &&& !old(self).edge_map().contains_key(k)
                        &&& k.0 < old(self).n()
                        &&& k.1 < old(self).n()
                        &&& call_ensures(
                            filter,
                            (&old(self).elements()[k.0 as int], &old(self).elements()[k.1 as int]),
                            true,
                        )
                        &&& self.edge_map()[k].ref_from == Some(k.0)
                        &&& self.edge_map()[k].ref_to == Some(k.1)
                        &&& self.edge_map()[k].from.is_none()
                        &&& self.edge_map()[k].to.is_none()
                        &&& cloned(weight, self.edge_map()[k].weight)
                    },
                forall|a: usize, b: usize|
                    a < i && b < old(self).n() && !old(self).edge_map().contains_key((a, b))
                        && !res@.contains((a, b)) ==> call_ensures(
                        filter,
                        (&old(self).elements()[a as int], &old(self).elements()[b as int]),
                        false,
                    ),
        {
            for j in 0..n
                invariant
                    n == old(self).n(),
                    i < n,
                    self.wf(),
                    self.n() == old(self).n(),
                    self.elements() == old(self).elements(),
                    forall|i: int, j: int|
                        0 <= i < old(self).n() && 0 <= j < old(self).n() ==> call_requires(
                            filter,
                            (&old(self).elements()[i], &old(self).elements()[j]),
                        ),
                    forall|t: int|
                        0 <= t < res@.len() ==> key_before(#[trigger] res@[t], (i, j)),
                    forall|a: int, b: int| 0 <= a < b < res@.len() ==> key_before(res@[a], res@[b]),
                    forall|k: (usize, usize)|
                        #[trigger] self.edge_map().contains_key(k) == (old(self).edge_map().contains_key(
                            k,
                        ) || res@.contains(k)),
                    forall|k: (usize, usize)|
                        #[trigger] old(self).edge_map().contains_key(k) ==> self.edge_map()[k]
                            == old(self).edge_map()[k],
                    forall|t: int|
                        0 <= t < res@.len() ==> {
                            let k = #[trigger] res@[t];
                            &&& !old(self).edge_map().contains_key(k)
                            &&& k.0 < old(self).n()
                            &&& k.1 < old(self).n()
                            &&& call_ensures(
                                filter,
                                (&old(self).elements()[k.0 as int], &old(self).elements()[k.1 as int]),
                                true,
                            )
                            &&& self.edge_map()[k].ref_from == Some(k.0)
                            &&& self.edge_map()[k].ref_to == Some(k.1)
                            &&& self.edge_map()[k].from.is_none()
                            &&& self.edge_map()[k].to.is_none()
                            &&& cloned(weight, self.edge_map()[k].weight)
                        },
                    forall|a: usize, b: usize|
                        key_before((a, b), (i, j)) && b < old(self).n()
                            && !old(self).edge_map().contains_key((a, b)) && !res@.contains((a, b))
                            ==> call_ensures(
                            filter,
                            (&old(self).elements()[a as int], &old(self).elements()[b as int]),
                            false,
                        ),
            {
                let index = (i, j);
                let present = self.edges.contains_key(&index);
                proof {
                    assert(self.elements()[i as int] == self.nodes@[i as int].element);
                    assert(self.elements()[j as int] == self.nodes@[j as int].element);
                }
                let keep = !present && filter(&self.nodes[i].element, &self.nodes[j].element);
                if keep {
                let w = weight.clone();
                let e = Edge::data_edge(i, j, w);
                self.add_adjacency(i, j);
                self.edges.insert(index, e);
                let ghost old_res = res@;
                res.push(index);
                proof {
                    assert(res@[res@.len() - 1] == index);
                    assert forall|k: (usize, usize)|
                        #[trigger] self.edge_map().contains_key(k) == (old(self).edge_map().contains_key(k)
                            || res@.contains(k)) by {
                        if old_res.contains(k) {
                            let t = choose|t: int| 0 <= t < old_res.len() && old_res[t] == k;
                            assert(res@[t] == k);
                        }
                        if res@.contains(k) && k != index {
                            let t = choose|t: int| 0 <= t < res@.len() && res@[t] == k;
                            assert(old_res[t] == k);
                        }
                    }
                    assert forall|a: usize, b: usize|
                        key_before((a, b), (i, (j + 1) as usize)) && b < old(self).n()
                            && !old(self).edge_map().contains_key((a, b)) && !res@.contains((a, b))
                            implies call_ensures(
                            filter,
                            (&old(self).elements()[a as int], &old(self).elements()[b as int]),
                            false,
                        ) by {
                        if old_res.contains((a, b)) {
                            let t = choose|t: int| 0 <= t < old_res.len() && old_res[t] == (a, b);
                            assert(res@[t] == (a, b));
                        }
                    }
                }
                }
            }
        }
        res
    }
}

impl<T, U> Digraph<T, U> {
    /// The weights of the graph as an `n` by `n` matrix: 0 on the diagonal, `weight` of
    /// the edge from `i` to `j`, and `no_edge` where there is none.
    pub fn make_weight_matrix<F>(&self, weight: F, no_edge: i64) -> (m: WeightMatrix) where
        F: Fn(&U) -> i64,

        requires
            self.wf(),
            self.n() * self.n() <= usize::MAX,
            forall|k: (usize, usize)|
                #[trigger] self.edge_map().contains_key(k) ==> call_requires(weight, (&self.edge_map()[k].weight,)),
        ensures
            matrix_shape(m) == (self.n() as nat, self.n() as nat),
            weights_of(self.edge_map(), self.n(), weight, no_edge, matrix_cells(m)),
            forall|i: int, j: int|
                #![trigger matrix_cells(m).contains_key((i, j))]
                matrix_cells(m).contains_key((i, j)) <==> (0 <= i < self.n() && 0 <= j < self.n()),
    {
        let n = self.nodes.len();
        let mut m = WeightMatrix::filled(n, no_edge);
        for i in 0..n
            invariant
                n == self.n(),
                self.wf(),
                forall|k: (usize, usize)|
                    #[trigger] self.edge_map().contains_key(k) ==> call_requires(weight, (&self.edge_map()[k].weight,)),
                matrix_shape(m) == (n as nat, n as nat),
                forall|a: int, b: int|
                    #![trigger matrix_cells(m).contains_key((a, b))]
                    matrix_cells(m).contains_key((a, b)) <==> (0 <= a < n && 0 <= b < n),
                forall|a: int, b: int|
                    0 <= a < n && 0 <= b < n ==> {
                        let x = #[trigger] matrix_cells(m)[(a, b)];
                        if a >= i {
                            x == no_edge
                        } else if a == b {
                            x == 0
                        } else if self.edge_map().contains_key((a as usize, b as usize)) {
                            call_ensures(weight, (&self.edge_map()[(a as usize, b as usize)].weight,), x)
                        } else {
                            x == no_edge
                        }
                    },
        {
            for j in 0..n
                invariant
                    n == self.n(),
                    i < n,
                    self.wf(),
                    forall|k: (usize, usize)|
                        #[trigger] self.edge_map().contains_key(k) ==> call_requires(weight, (&self.edge_map()[k].weight,)),
                    matrix_shape(m) == (n as nat, n as nat),
                    forall|a: int, b: int|
                        #![trigger matrix_cells(m).contains_key((a, b))]
                        matrix_cells(m).contains_key((a, b)) <==> (0 <= a < n && 0 <= b < n),
                    forall|a: int, b: int|
                        0 <= a < n && 0 <= b < n ==> {
                            let x = #[trigger] matrix_cells(m)[(a, b)];
                            if a > i || (a == i && b >= j) {
                                x == no_edge
                            } else if a == b {
                                x == 0
                            } else if self.edge_map().contains_key((a as usize, b as usize)) {
                                call_ensures(weight, (&self.edge_map()[(a as usize, b as usize)].weight,), x)
                            } else {
                                x == no_edge
                            }
                        },
            {
                if i == j {
                    m.set(i, j, 0);
                } else {
                    match self.edges.get(&(i, j)) {
                        Some(edge) => {
                            let x = weight(&edge.weight);
                            m.set(i, j, x);
                        },
                        None => {},
                    }
                }
                proof {
                    assert forall|a: int, b: int|
                        #![trigger matrix_cells(m).contains_key((a, b))]
                        matrix_cells(m).contains_key((a, b)) <==> (0 <= a < n && 0 <= b < n) by {}
                }
            }
        }
        m
    }

    /// The rounds of the shortest path computation on an `n` by `n` matrix, in place: for
    /// each `k`, each `i` and each `j`, the path from `i` to `j` through `k` replaces the
    /// cell when both of its parts are below `no_edge` and it is shorter.
    fn shortest_rounds(d: &mut WeightMatrix, no_edge: i64, n: usize)
        requires
            matrix_shape(*old(d)) == (n as nat, n as nat),
            fw_fits(matrix_cells(*old(d)), no_edge, n as int, n as int),
        ensures
            matrix_shape(*final(d)) == (n as nat, n as nat),
            matrix_cells(*final(d)) == fw_rounds(matrix_cells(*old(d)), no_edge, n as int, n as int),
    {
        let ghost w = matrix_cells(*d);
        for k in 0..n
            invariant
                matrix_shape(*d) == (n as nat, n as nat),
                fw_fits(w, no_edge, n as int, n as int),
                matrix_cells(*d) == fw_rounds(w, no_edge, n as int, k as int),
        {
            let ghost rk = fw_rounds(w, no_edge, n as int, k as int);
            proof {
                lemma_fw_fits_prefix(w, no_edge, n as int, k + 1, n as int);
            }
            for i in 0..n
                invariant
                    matrix_shape(*d) == (n as nat, n as nat),
                    k < n,
                    rk == fw_rounds(w, no_edge, n as int, k as int),
                    fw_round_fits(rk, no_edge, n as int, k as int, n as int),
                    matrix_cells(*d) == fw_round(rk, no_edge, n as int, k as int, i as int),
            {
                let ghost ri = fw_round(rk, no_edge, n as int, k as int, i as int);
                proof {
                    lemma_fw_round_fits_prefix(rk, no_edge, n as int, k as int, i + 1, n as int);
                }
                for j in 0..n
                    invariant
                        matrix_shape(*d) == (n as nat, n as nat),
                        k < n,
                        i < n,
                        ri == fw_round(rk, no_edge, n as int, k as int, i as int),
                        fw_row_fits(ri, no_edge, k as int, i as int, n as int),
                        matrix_cells(*d) == fw_row(ri, no_edge, k as int, i as int, j as int),
                {
                    proof {
                        lemma_fw_row_fits_prefix(ri, no_edge, k as int, i as int, j + 1, n as int);
                    }
                    let a = d.get(i, k);
                    let b = d.get(k, j);
                    if !(a >= no_edge || b >= no_edge) {
                        let sum = a + b;
                        let c = d.get(i, j);
                        if sum < c {
                            d.set(i, j, sum);
                        }
                    }
                    proof {
                        assert(fw_row(ri, no_edge, k as int, i as int, j + 1) == relax(
                            fw_row(ri, no_edge, k as int, i as int, j as int),
                            no_edge,
                            k as int,
                            i as int,
                            j as int,
                        ));
                    }
                }
            }
        }
    }

    /// All shortest distances between nodes, by the Floyd-Warshall rounds over the weights
    /// that `weight` gives the edges, `no_edge` standing for no path.
    pub fn floyd_warshall<F>(&self, weight: F, no_edge: i64) -> (r: WeightMatrix) where
        F: Fn(&U) -> i64,

        requires
            self.wf(),
            self.n() * self.n() <= usize::MAX,
            forall|k: (usize, usize)|
                #[trigger] self.edge_map().contains_key(k) ==> call_requires(weight, (&self.edge_map()[k].weight,)),
            forall|w: Map<(int, int), i64>|
                #[trigger] weights_of(self.edge_map(), self.n(), weight, no_edge, w) ==> fw_fits(
                    w,
                    no_edge,
                    self.n(),
                    self.n(),
                ),
        ensures
            matrix_shape(r) == (self.n() as nat, self.n() as nat),
            exists|w: Map<(int, int), i64>|
                #[trigger] weights_of(self.edge_map(), self.n(), weight, no_edge, w) && matrix_cells(r)
                    == fw_rounds(w, no_edge, self.n(), self.n()) && shortest_distances(
                    w,
                    no_edge,
                    self.n(),
                    matrix_cells(r),
                ),
    {
        let n = self.nodes.len();
        let mut distances = self.make_weight_matrix(weight, no_edge);
        let ghost w = matrix_cells(distances);
        Self::shortest_rounds(&mut distances, no_edge, n);
        assert(weights_of(self.edge_map(), self.n(), weight, no_edge, w));
        proof {
            assert forall|x: int| 0 <= x < n implies #[trigger] w[(x, x)] == 0 by {}
            lemma_floyd_warshall_shortest(w, no_edge, n as int);
        }
        distances
    }

    /// Whether `weight` gives no edge a negative value.
    pub fn is_positively_weighted<F>(&self, weight: F) -> (r: bool) where F: Fn(&U) -> i64
        requires
            self.wf(),
            forall|k: (usize, usize)|
                #[trigger] self.edge_map().contains_key(k) ==> call_requires(weight, (&self.edge_map()[k].weight,)),
        ensures
            !r ==> exists|k: (usize, usize), x: i64|
                self.edge_map().contains_key(k) && #[trigger] call_ensures(weight, (&self.edge_map()[k].weight,), x)
                    && x < 0,
            r ==> forall|k: (usize, usize)|
                #[trigger] self.edge_map().contains_key(k) ==> exists|x: i64|
                    call_ensures(weight, (&self.edge_map()[k].weight,), x) && x >= 0,
    {
        let n = self.nodes.len();
        for i in 0..n
            invariant
                n == self.n(),
                self.wf(),
                forall|k: (usize, usize)|
                    #[trigger] self.edge_map().contains_key(k) ==> call_requires(weight, (&self.edge_map()[k].weight,)),
                forall|k: (usize, usize)|
                    #[trigger] self.edge_map().contains_key(k) && k.0 < i ==> exists|x: i64|
                        call_ensures(weight, (&self.edge_map()[k].weight,), x) && x >= 0,
        {
            for j in 0..n
                invariant
                    n == self.n(),
                    i < n,
                    self.wf(),
                    forall|k: (usize, usize)|
                        #[trigger] self.edge_map().contains_key(k) ==> call_requires(weight, (&self.edge_map()[k].weight,)),
                    forall|k: (usize, usize)|
                        #[trigger] self.edge_map().contains_key(k) && key_before(k, (i, j)) ==> exists|x: i64|
                            call_ensures(weight, (&self.edge_map()[k].weight,), x) && x >= 0,
            {
                match self.edges.get(&(i, j)) {
                    Some(edge) => {
                        let x = weight(edge.data());
                        if x < 0 {
                            assert(self.edge_map().contains_key((i, j)));
                            return false;
                        }
                    },
                    None => {},
                }
            }
        }
        proof {
            assert forall|k: (usize, usize)|
                #[trigger] self.edge_map().contains_key(k) implies exists|x: i64|
                    call_ensures(weight, (&self.edge_map()[k].weight,), x) && x >= 0 by {
                assert(k.0 < n);
            }
        }
        true
    }
}

impl<T> Digraph<T, i64> {
    /// The weights of the graph as an `n` by `n` matrix: 0 on the diagonal, the weight of
    /// the edge from `i` to `j`, and `i64::MAX` where there is none.
    pub fn get_matrix(&self) -> (m: WeightMatrix)
        requires
            self.wf(),
            self.n() * self.n() <= usize::MAX,
        ensures
            matrix_shape(m) == (self.n() as nat, self.n() as nat),
            plain_weights(self.edge_map(), self.n(), i64::MAX, matrix_cells(m)),
    {
        let m = self.make_weight_matrix(|x: &i64| -> (y: i64) ensures y == *x { *x }, i64::MAX);
        m
    }

    /// All shortest distances between nodes, over the weights of the edges, `i64::MAX`
    /// standing for no path.
    pub fn all_shortest_paths(&self) -> (r: WeightMatrix)
        requires
            self.wf(),
            self.n() * self.n() <= usize::MAX,
            forall|w: Map<(int, int), i64>|
                #[trigger] plain_weights(self.edge_map(), self.n(), i64::MAX, w) ==> fw_fits(
                    w,
                    i64::MAX,
                    self.n(),
                    self.n(),
                ),
        ensures
            matrix_shape(r) == (self.n() as nat, self.n() as nat),
            exists|w: Map<(int, int), i64>|
                #[trigger] plain_weights(self.edge_map(), self.n(), i64::MAX, w) && matrix_cells(r)
                    == fw_rounds(w, i64::MAX, self.n(), self.n()) && shortest_distances(
                    w,
                    i64::MAX,
                    self.n(),
                    matrix_cells(r),
                ),
    {
        let id = |x: &i64| -> (y: i64) ensures y == *x { *x };
        proof {
            assert forall|w: Map<(int, int), i64>|
                #[trigger] weights_of(self.edge_map(), self.n(), id, i64::MAX, w) implies fw_fits(
                    w,
                    i64::MAX,
                    self.n(),
                    self.n(),
                ) by {
                assert(plain_weights(self.edge_map(), self.n(), i64::MAX, w));
            }
        }
        let r = self.floyd_warshall(id, i64::MAX);
        proof {
            let w = choose|w: Map<(int, int), i64>|
                #[trigger] weights_of(self.edge_map(), self.n(), id, i64::MAX, w) && matrix_cells(r)
                    == fw_rounds(w, i64::MAX, self.n(), self.n()) && shortest_distances(
                    w,
                    i64::MAX,
                    self.n(),
                    matrix_cells(r),
                );
            assert(plain_weights(self.edge_map(), self.n(), i64::MAX, w));
        }
        r
    }

    /// Whether no edge has a negative weight.
    pub fn is_positive(&self) -> (r: bool)
        requires
            self.wf(),
        ensures
            r == forall|k: (usize, usize)|
                #[trigger] self.edge_map().contains_key(k) ==> self.edge_map()[k].weight >= 0,
    {
        let id = |x: &i64| -> (y: i64) ensures y == *x { *x };
        let r = self.is_positively_weighted(id);
        proof {
            if !r {
                let (k, x) = choose|k: (usize, usize), x: i64|
                    self.edge_map().contains_key(k) && #[trigger] call_ensures(id, (&self.edge_map()[k].weight,), x)
                        && x < 0;
                assert(self.edge_map()[k].weight < 0);
            } else {
                assert forall|k: (usize, usize)|
                    #[trigger] self.edge_map().contains_key(k) implies self.edge_map()[k].weight >= 0 by {
                    let x = choose|x: i64| call_ensures(id, (&self.edge_map()[k].weight,), x) && x >= 0;
                }
            }
        }
        r
    }

    /// Adds the edges that the matrix `relations` gives, in increasing order of keys: the
    /// edge from `i` to `j` takes the value of cell `(j, i)`, and is added when that value
    /// is below `i64::MAX`, is not a zero on the diagonal, and no edge is there yet.
    pub fn create_relations(&mut self, relations: WeightMatrix)
        requires
            old(self).wf(),
            matrix_shape(relations) == (old(self).n() as nat, old(self).n() as nat),
        ensures
            final(self).wf(),
            final(self).n() == old(self).n(),
            final(self).elements() == old(self).elements(),
            forall|k: (usize, usize)|
                #[trigger] final(self).edge_map().contains_key(k) == (old(self).edge_map().contains_key(k) || (k.0
                    < old(self).n() && k.1 < old(self).n() && relation_edge(
                    old(self).edge_map(),
                    matrix_cells(relations),
                    k.0 as int,
                    k.1 as int,
                ))),
            forall|k: (usize, usize)|
                #[trigger] final(self).edge_map().contains_key(k) ==> final(self).edge_map()[k] == if old(
                    self,
                ).edge_map().contains_key(k) {
                    old(self).edge_map()[k]
                } else {
                    stored_edge(k.0, k.1, matrix_cells(relations)[(k.1 as int, k.0 as int)])
                },
            forall|i: int|
                0 <= i < old(self).n() ==> #[trigger] final(self).out_lists()[i] == old(self).out_lists()[i]
                    + relation_targets(old(self).edge_map(), matrix_cells(relations), i, old(self).n()),
            forall|j: int|
                0 <= j < old(self).n() ==> #[trigger] final(self).in_lists()[j] == old(self).in_lists()[j]
                    + relation_sources(old(self).edge_map(), matrix_cells(relations), j, old(self).n()),
    {
        let n = self.nodes.len();
        let ghost m0 = self.edge_map();
        let ghost cells = matrix_cells(relations);
        let ghost out0 = self.out_lists();
        let ghost in0 = self.in_lists();
        for i in 0..n
            invariant
                n == old(self).n(),
                m0 == old(self).edge_map(),
                out0 == old(self).out_lists(),
                in0 == old(self).in_lists(),
                cells == matrix_cells(relations),
                matrix_shape(relations) == (n as nat, n as nat),
                self.wf(),
                self.n() == n,
                self.elements() == old(self).elements(),
                forall|k: (usize, usize)|
                    #[trigger] self.edge_map().contains_key(k) == (m0.contains_key(k) || (k.0 < i && k.1 < n
                        && relation_edge(m0, cells, k.0 as int, k.1 as int))),
                forall|k: (usize, usize)|
                    #[trigger] self.edge_map().contains_key(k) ==> self.edge_map()[k] == if m0.contains_key(k) {
                        m0[k]
                    } else {
                        stored_edge(k.0, k.1, cells[(k.1 as int, k.0 as int)])
                    },
                forall|t: int|
                    0 <= t < n ==> #[trigger] self.out_lists()[t] == out0[t] + if t < i {
                        relation_targets(m0, cells, t, n as int)
                    } else {
                        Seq::empty()
                    },
                forall|t: int|
                    0 <= t < n ==> #[trigger] self.in_lists()[t] == in0[t] + relation_sources(m0, cells, t, i as int),
        {
            for j in 0..n
                invariant
                    n == old(self).n(),
                    i < n,
                    m0 == old(self).edge_map(),
                    out0 == old(self).out_lists(),
                    in0 == old(self).in_lists(),
                    cells == matrix_cells(relations),
                    matrix_shape(relations) == (n as nat, n as nat),
                    self.wf(),
                    self.n() == n,
                    self.elements() == old(self).elements(),
                    forall|k: (usize, usize)|
                        #[trigger] self.edge_map().contains_key(k) == (m0.contains_key(k) || (key_before(k, (i, j))
                            && k.1 < n && relation_edge(m0, cells, k.0 as int, k.1 as int))),
                    forall|k: (usize, usize)|
                        #[trigger] self.edge_map().contains_key(k) ==> self.edge_map()[k] == if m0.contains_key(k) {
                            m0[k]
                        } else {
                            stored_edge(k.0, k.1, cells[(k.1 as int, k.0 as int)])
                        },
                    forall|t: int|
                        0 <= t < n ==> #[trigger] self.out_lists()[t] == out0[t] + if t < i {
                            relation_targets(m0, cells, t, n as int)
                        } else if t == i {
                            relation_targets(m0, cells, t, j as int)
                        } else {
                            Seq::empty()
                        },
                    forall|t: int|
                        0 <= t < n ==> #[trigger] self.in_lists()[t] == in0[t] + relation_sources(
                            m0,
                            cells,
                            t,
                            if t < j { i + 1 } else { i as int },
                        ),
            {
                let w = relations.get(j, i);
                let present = self.edges.contains_key(&(i, j));
                proof {
                    assert(present == m0.contains_key((i, j)));
                }
                if !(w >= i64::MAX || (w == 0 && i == j)) && !present {
                    let e = Edge::data_edge(i, j, w);
                    self.add_adjacency(i, j);
                    self.edges.insert((i, j), e);
                    proof {
                        assert(relation_edge(m0, cells, i as int, j as int));
                        assert forall|t: int| 0 <= t < n implies #[trigger] self.out_lists()[t] == out0[t] + if t < i {
                            relation_targets(m0, cells, t, n as int)
                        } else if t == i {
                            relation_targets(m0, cells, t, j + 1)
                        } else {
                            Seq::empty()
                        } by {
                            if t == i {
                                assert(relation_targets(m0, cells, t, j + 1) == relation_targets(m0, cells, t, j as int)
                                    + seq![j]);
                            }
                        }
                        assert forall|t: int| 0 <= t < n implies #[trigger] self.in_lists()[t] == in0[t] + relation_sources(
                            m0,
                            cells,
                            t,
                            if t < j + 1 { i + 1 } else { i as int },
                        ) by {
                            if t == j {
                                assert(relation_sources(m0, cells, t, i + 1) == relation_sources(m0, cells, t, i as int)
                                    + seq![i]);
                            }
                        }
                    }
                } else {
                    proof {
                        assert(!relation_edge(m0, cells, i as int, j as int));
                        assert forall|t: int| 0 <= t < n implies #[trigger] self.out_lists()[t] == out0[t] + if t < i {
                            relation_targets(m0, cells, t, n as int)
                        } else if t == i {
                            relation_targets(m0, cells, t, j + 1)
                        } else {
                            Seq::empty()
                        } by {
                            if t == i {
                                assert(relation_targets(m0, cells, t, j + 1) == relation_targets(m0, cells, t, j as int));
                            }
                        }
                        assert forall|t: int| 0 <= t < n implies #[trigger] self.in_lists()[t] == in0[t] + relation_sources(
                            m0,
                            cells,
                            t,
                            if t < j + 1 { i + 1 } else { i as int },
                        ) by {
                            if t == j {
                                assert(relation_sources(m0, cells, t, i + 1) == relation_sources(m0, cells, t, i as int));
                            }
                        }
                    }
                }
            }
        }
    }

    /// A graph with one node for each element, in order, and the edges that `relations`
    /// gives, as `create_relations` adds them.
    pub fn from_matrix(elements: Vec<T>, relations: WeightMatrix) -> (g: Self)
        requires
            matrix_shape(relations) == (elements@.len() as nat, elements@.len() as nat),
        ensures
            g.wf(),
            g.elements() == elements@,
            forall|k: (usize, usize)|
                #[trigger] g.edge_map().contains_key(k) == (k.0 < elements@.len() && k.1 < elements@.len()
                    && relation_edge(Map::<(usize, usize), Edge<i64>>::empty(), matrix_cells(relations), k.0 as int, k.1 as int)),
            forall|k: (usize, usize)|
                #[trigger] g.edge_map().contains_key(k) ==> g.edge_map()[k] == stored_edge(
                    k.0,
                    k.1,
                    matrix_cells(relations)[(k.1 as int, k.0 as int)],
                ),
    {
        let ghost els = elements@;
        let mut graph: Self = Self::from(elements);
        graph.create_relations(relations);
        graph
    }
}

impl<T: Clone> Digraph<T, i64> {
    /// A graph on copies of the elements whose edges are the shortest distances of this
    /// graph, as `create_relations` adds them from `all_shortest_paths`.
    pub fn shortest_digraph(&self) -> (g: Self)
        requires
            self.wf(),
            self.n() * self.n() <= usize::MAX,
            forall|w: Map<(int, int), i64>|
                #[trigger] plain_weights(self.edge_map(), self.n(), i64::MAX, w) ==> fw_fits(
                    w,
                    i64::MAX,
                    self.n(),
                    self.n(),
                ),
        ensures
            g.wf(),
            g.n() == self.n(),
            forall|i: int| 0 <= i < g.n() ==> cloned(self.elements()[i], #[trigger] g.elements()[i]),
            exists|w: Map<(int, int), i64>|
                #[trigger] plain_weights(self.edge_map(), self.n(), i64::MAX, w) && forall|k: (usize, usize)|
                    #[trigger] g.edge_map().contains_key(k) == (k.0 < self.n() && k.1 < self.n() && relation_edge(
                        Map::<(usize, usize), Edge<i64>>::empty(),
                        fw_rounds(w, i64::MAX, self.n(), self.n()),
                        k.0 as int,
                        k.1 as int,
                    )),
    {
        let distances = self.all_shortest_paths();
        let mut res: Self = Digraph::new();
        let n = self.nodes.len();
        for i in 0..n
            invariant
                n == self.n(),
                res.wf(),
                res.n() == i,
                res.edge_map() == Map::<(usize, usize), Edge<i64>>::empty(),
                forall|t: int| 0 <= t < i ==> cloned(self.elements()[t], #[trigger] res.elements()[t]),
                forall|t: int| 0 <= t < res.n() ==> (#[trigger] res.out_lists()[t]).len() == 0,
                forall|t: int| 0 <= t < res.n() ==> (#[trigger] res.in_lists()[t]).len() == 0,
        {
            assert(self.elements()[i as int] == self.nodes@[i as int].element);
            let x = self.nodes[i].element.clone();
            let ghost before = res.node_seq();
            let ghost before_out = res.out_lists();
            let ghost before_in = res.in_lists();
            let ghost before_el = res.elements();
            let r = res.make_node(x);
            proof {
                assert forall|t: int| 0 <= t < i + 1 implies cloned(self.elements()[t], #[trigger] res.elements()[t]) by {
                    if t < i {
                        assert(res.node_seq()[t] == res.node_seq().subrange(0, i as int)[t]);
                        assert(before_el[t] == before[t].element);
                        assert(res.elements()[t] == before_el[t]);
                    } else {
                        assert(res.elements()[t] == res.node_seq()[r as int].element);
                    }
                }
                assert forall|t: int| 0 <= t < res.n() implies (#[trigger] res.out_lists()[t]).len() == 0 by {
                    if t < i {
                        assert(res.node_seq()[t] == res.node_seq().subrange(0, i as int)[t]);
                        assert(before_out[t] == before[t].out_edges@);
                    }
                }
                assert forall|t: int| 0 <= t < res.n() implies (#[trigger] res.in_lists()[t]).len() == 0 by {
                    if t < i {
                        assert(res.node_seq()[t] == res.node_seq().subrange(0, i as int)[t]);
                        assert(before_in[t] == before[t].in_edges@);
                    }
                }
            }
        }
        res.create_relations(distances);
        res
    }
}

impl<T: Node, U: Clone> Digraph<T, U> {
    /// Rebuilds every edge so that it names its endpoints by their labels, and rebuilds
    /// the adjacency lists of the nodes from the edges, in increasing order of keys.
    pub fn labelize(&mut self)
        requires
            old(self).wf(),
        ensures
            final(self).wf(),
            final(self).n() == old(self).n(),
            final(self).elements() == old(self).elements(),
            forall|k: (usize, usize)|
                #[trigger] final(self).edge_map().contains_key(k) == old(self).edge_map().contains_key(k),
            forall|k: (usize, usize)|
                #[trigger] final(self).edge_map().contains_key(k) ==> {
                    let e = final(self).edge_map()[k];
                    &&& e.ref_from == Some(k.0)
                    &&& e.ref_to == Some(k.1)
                    &&& e.from.is_some()
                    &&& e.from.unwrap()@ == old(self).elements()[k.0 as int].label_spec()
                    &&& e.to.is_some()
                    &&& e.to.unwrap()@ == old(self).elements()[k.1 as int].label_spec()
                    &&& cloned(old(self).edge_map()[k].weight, e.weight)
                },
            forall|i: int|
                0 <= i < final(self).n() ==> #[trigger] final(self).out_lists()[i] == row_targets(
                    old(self).edge_map(),
                    i as usize,
                    old(self).n(),
                ),
            forall|j: int|
                0 <= j < final(self).n() ==> #[trigger] final(self).in_lists()[j] == col_sources(
                    old(self).edge_map(),
                    j as usize,
                    old(self).n(),
                ),
    {
        let n = self.nodes.len();
        let ghost m = self.edge_map();
        for i in 0..n
            invariant
                n == old(self).n(),
                self.wf(),
                self.n() == old(self).n(),
                self.elements() == old(self).elements(),
                self.edge_map() == m,
                m == old(self).edge_map(),
                forall|t: int| 0 <= t < i ==> (#[trigger] self.out_lists()[t]).len() == 0,
                forall|t: int| 0 <= t < i ==> (#[trigger] self.in_lists()[t]).len() == 0,
        {
            let ghost before = self.node_seq();
            let ghost before_out = self.out_lists();
            let ghost before_in = self.in_lists();
            self.nodes[i].clear_edges();
            proof {
                assert forall|t: int| 0 <= t < n && t != i implies self.node_seq()[t] == before[t] by {}
                assert forall|t: int| 0 <= t < i + 1 implies (#[trigger] self.out_lists()[t]).len() == 0 by {
                    if t < i {
                        assert(self.node_seq()[t] == before[t]);
                        assert(before_out[t] == before[t].out_edges@);
                    } else {
                        assert(self.out_lists()[t] == self.node_seq()[t].out_edges@);
                    }
                }
                assert forall|t: int| 0 <= t < i + 1 implies (#[trigger] self.in_lists()[t]).len() == 0 by {
                    if t < i {
                        assert(self.node_seq()[t] == before[t]);
                        assert(before_in[t] == before[t].in_edges@);
                    } else {
                        assert(self.in_lists()[t] == self.node_seq()[t].in_edges@);
                    }
                }
                assert(self.elements() =~= old(self).elements()) by {
                    assert forall|t: int| 0 <= t < n implies self.elements()[t] == old(self).elements()[t] by {
                        if t != i {
                            assert(self.node_seq()[t] == before[t]);
                        }
                    }
                }
                assert forall|t: int| 0 <= t < n implies (#[trigger] self.node_seq()[t]).index == t by {
                    if t != i {
                        assert(self.node_seq()[t] == before[t]);
                    }
                }
                assert forall|t: int, k: int|
                    0 <= t < n && 0 <= k < self.out_lists()[t].len() implies #[trigger] self.out_lists()[t][k]
                    < n by {
                    assert(self.out_lists()[t] == self.node_seq()[t].out_edges@);
                    if t != i {
                        assert(self.node_seq()[t] == before[t]);
                        assert(before_out[t] == before[t].out_edges@);
                        assert(self.out_lists()[t][k] == before_out[t][k]);
                    }
                }
                assert forall|t: int, k: int|
                    0 <= t < n && 0 <= k < self.in_lists()[t].len() implies #[trigger] self.in_lists()[t][k]
                    < n by {
                    assert(self.in_lists()[t] == self.node_seq()[t].in_edges@);
                    if t != i {
                        assert(self.node_seq()[t] == before[t]);
                        assert(before_in[t] == before[t].in_edges@);
                        assert(self.in_lists()[t][k] == before_in[t][k]);
                    }
                }
            }
        }
        let mut new_edges: BTreeMap<(usize, usize), Edge<U>> = BTreeMap::new();
        for i in 0..n
            invariant
                n == old(self).n(),
                self.wf(),
                self.n() == old(self).n(),
                self.elements() == old(self).elements(),
                self.edge_map() == m,
                m == old(self).edge_map(),
                forall|k: (usize, usize)|
                    #[trigger] new_edges@.contains_key(k) == (m.contains_key(k) && k.0 < i),
                forall|k: (usize, usize)|
                    #[trigger] new_edges@.contains_key(k) ==> {
                        let e = new_edges@[k];
                        &&& e.ref_from == Some(k.0)
                        &&& e.ref_to == Some(k.1)
                        &&& e.from.is_some()
                        &&& e.from.unwrap()@ == old(self).elements()[k.0 as int].label_spec()
                        &&& e.to.is_some()
                        &&& e.to.unwrap()@ == old(self).elements()[k.1 as int].label_spec()
                        &&& cloned(m[k].weight, e.weight)
                    },
                forall|t: int|
                    0 <= t < n ==> #[trigger] self.out_lists()[t] == if t < i {
                        row_targets(m, t as usize, n as int)
                    } else {
                        Seq::empty()
                    },
                forall|t: int|
                    0 <= t < n ==> #[trigger] self.in_lists()[t] == col_sources(m, t as usize, i as int),
        {
            for j in 0..n
                invariant
                    n == old(self).n(),
                    i < n,
                    self.wf(),
                    self.n() == old(self).n(),
                    self.elements() == old(self).elements(),
                    self.edge_map() == m,
                    m == old(self).edge_map(),
                    forall|k: (usize, usize)|
                        #[trigger] new_edges@.contains_key(k) == (m.contains_key(k) && key_before(k, (i, j))),
                    forall|k: (usize, usize)|
                        #[trigger] new_edges@.contains_key(k) ==> {
                            let e = new_edges@[k];
                            &&& e.ref_from == Some(k.0)
                            &&& e.ref_to == Some(k.1)
                            &&& e.from.is_some()
                            &&& e.from.unwrap()@ == old(self).elements()[k.0 as int].label_spec()
                            &&& e.to.is_some()
                            &&& e.to.unwrap()@ == old(self).elements()[k.1 as int].label_spec()
                            &&& cloned(m[k].weight, e.weight)
                        },
                    forall|t: int|
                        0 <= t < n ==> #[trigger] self.out_lists()[t] == if t < i {
                            row_targets(m, t as usize, n as int)
                        } else if t == i {
                            row_targets(m, t as usize, j as int)
                        } else {
                            Seq::empty()
                        },
                    forall|t: int|
                        0 <= t < n ==> #[trigger] self.in_lists()[t] == col_sources(
                            m,
                            t as usize,
                            if t < j { i + 1 } else { i as int },
                        ),
            {
                let present = self.edges.contains_key(&(i, j));
                if present {
                    let w = match self.edges.get(&(i, j)) {
                        Some(edge) => edge.weight.clone(),
                        None => { proof { assert(false); } return; },
                    };
                    let mut new_edge = Edge::orphan(w);
                    new_edge.set_node_from(i);
                    proof {
                        assert(self.elements()[i as int] == self.node_seq()[i as int].element);
                        assert(self.elements()[j as int] == self.node_seq()[j as int].element);
                    }
                    new_edge.from = Some(self.nodes[i].get_label());
                    new_edge.set_node_to(j);
                    new_edge.to = Some(self.nodes[j].get_label());
                    let ghost out0 = self.out_lists();
                    let ghost in0 = self.in_lists();
                    self.add_adjacency(i, j);
                    new_edges.insert((i, j), new_edge);
                    proof {
                        assert forall|t: int| 0 <= t < n implies #[trigger] self.out_lists()[t] == if t < i {
                            row_targets(m, t as usize, n as int)
                        } else if t == i {
                            row_targets(m, t as usize, j + 1)
                        } else {
                            Seq::empty()
                        } by {
                            if t == i {
                                assert(row_targets(m, i, j + 1) == row_targets(m, i, j as int) + seq![j]);
                            }
                        }
                        assert forall|t: int| 0 <= t < n implies #[trigger] self.in_lists()[t] == col_sources(
                            m,
                            t as usize,
                            if t < j + 1 { i + 1 } else { i as int },
                        ) by {
                            if t == j {
                                assert(col_sources(m, j, i + 1) == col_sources(m, j, i as int) + seq![i]);
                            }
                        }
                    }
                } else {
                    proof {
                        assert forall|t: int| 0 <= t < n implies #[trigger] self.out_lists()[t] == if t < i {
                            row_targets(m, t as usize, n as int)
                        } else if t == i {
                            row_targets(m, t as usize, j + 1)
                        } else {
                            Seq::empty()
                        } by {
                            if t == i {
                                assert(row_targets(m, i, j + 1) == row_targets(m, i, j as int));
                            }
                        }
                        assert forall|t: int| 0 <= t < n implies #[trigger] self.in_lists()[t] == col_sources(
                            m,
                            t as usize,
                            if t < j + 1 { i + 1 } else { i as int },
                        ) by {
                            if t == j {
                                assert(col_sources(m, j, i + 1) == col_sources(m, j, i as int));
                            }
                        }
                    }
                }
            }
        }
        let ghost nodes_before = self.node_seq();
        let ghost out_before = self.out_lists();
        let ghost in_before = self.in_lists();
        self.edges = new_edges;
        proof {
            assert(self.node_seq() == nodes_before);
            assert(self.out_lists() == out_before);
            assert(self.in_lists() == in_before);
            assert forall|k: (usize, usize)| #[trigger] self.edge_map().contains_key(k) implies {
                &&& k.0 < self.n()
                &&& k.1 < self.n()
                &&& self.edge_map()[k].ref_from == Some(k.0)
                &&& self.edge_map()[k].ref_to == Some(k.1)
            } by {
                assert(m.contains_key(k));
            }
        }
    }
}

impl<T, U> vstd::std_specs::convert::FromSpecImpl<Vec<T>> for Digraph<T, U> {
    open spec fn obeys_from_spec() -> bool {
        false
    }

    open spec fn from_spec(v: Vec<T>) -> Digraph<T, U> {
        arbitrary()
    }
}

impl<T, U> From<Vec<T>> for Digraph<T, U> {
    /// A graph with one node for each element, in order, and no edge.
    fn from(data: Vec<T>) -> (g: Self)
        ensures
            g.wf(),
            g.elements() == data@,
            forall|i: int| 0 <= i < g.n() ==> (#[trigger] g.out_lists()[i]).len() == 0,
            forall|i: int| 0 <= i < g.n() ==> (#[trigger] g.in_lists()[i]).len() == 0,
            g.edge_map() == Map::<(usize, usize), Edge<U>>::empty(),
    {
        let mut g = Digraph::new();
        let mut data = data;
        let ghost all = data@;
        while data.len() > 0
            invariant
                g.wf(),
                g.elements() + data@ == all,
                forall|i: int| 0 <= i < g.n() ==> (#[trigger] g.out_lists()[i]).len() == 0,
                forall|i: int| 0 <= i < g.n() ==> (#[trigger] g.in_lists()[i]).len() == 0,
                g.edge_map() == Map::<(usize, usize), Edge<U>>::empty(),
            decreases data@.len(),
        {
            let x = data.remove(0);
            let ghost before = g.node_seq();
            let ghost before_out = g.out_lists();
            let ghost before_in = g.in_lists();
            let r = g.make_node(x);
            proof {
                assert(g.node_seq()[r as int].out_edges@.len() == 0);
                assert(g.out_lists()[r as int].len() == 0);
                assert(g.in_lists()[r as int].len() == 0);
                assert forall|i: int| 0 <= i < g.n() - 1 implies g.node_seq()[i] == before[i] by {
                    assert(g.node_seq().subrange(0, g.n() - 1)[i] == before[i]);
                }
                assert(g.elements() + data@ =~= all) by {
                    assert forall|i: int| 0 <= i < g.n() - 1 implies g.elements()[i] == all[i] by {
                        assert(g.node_seq()[i] == before[i]);
                    }
                }
                assert forall|i: int| 0 <= i < g.n() implies (#[trigger] g.out_lists()[i]).len() == 0 by {
                    if i < g.n() - 1 {
                        assert(g.node_seq()[i] == before[i]);
                        assert(before_out[i] == before[i].out_edges@);
                    }
                }
                assert forall|i: int| 0 <= i < g.n() implies (#[trigger] g.in_lists()[i]).len() == 0 by {
                    if i < g.n() - 1 {
                        assert(g.node_seq()[i] == before[i]);
                        assert(before_in[i] == before[i].in_edges@);
                    }
                }
            }
        }
        assert(g.elements() =~= all);
        g
    }
}

impl<T, U> Default for Digraph<T, U> {
    fn default() -> (g: Self)
        ensures
            g.node_seq() == Seq::<DataNode<T>>::empty(),
            g.edge_map() == Map::<(usize, usize), Edge<U>>::empty(),
            g.wf(),
    {
        Digraph::new()
    }
}

} // verus!
