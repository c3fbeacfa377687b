use nalgebra::DMatrix;
use vstd::prelude::*;

verus! {

/// A bound on a difference of two clocks: `x - y <= n`, `x - y < n`, no bound at all, or a
/// bound that nothing meets.
#[derive(Debug, Clone, Copy, PartialEq, Eq, Hash, Structural)]
pub enum Bound {
    Large(i32),
    Strict(i32),
    Infinite,
    MinusInfinite,
}

/// Whether the difference `x` meets the bound `b`.
pub open spec fn meets(b: Bound, x: int) -> bool {
    match b {
        Bound::Large(n) => x <= n,
        Bound::Strict(n) => x < n,
        Bound::Infinite => true,
        Bound::MinusInfinite => false,
    }
}

/// Whether `a` is at least as tight as `b`: minus infinity first, then the finite bounds by
/// value, a strict bound before the large one of the same value, infinity last.
pub open spec fn tighter(a: Bound, b: Bound) -> bool {
    match (a, b) {
        (Bound::MinusInfinite, _) => true,
        (_, Bound::Infinite) => true,
        (Bound::Infinite, _) => false,
        (_, Bound::MinusInfinite) => false,
        (Bound::Large(x), Bound::Large(y)) => x <= y,
        (Bound::Strict(x), Bound::Strict(y)) => x <= y,
        (Bound::Strict(x), Bound::Large(y)) => x <= y,
        (Bound::Large(x), Bound::Strict(y)) => x < y,
    }
}

/// The tighter of two bounds.
pub open spec fn bound_min(a: Bound, b: Bound) -> Bound {
    if tighter(a, b) {
        a
    } else {
        b
    }
}

/// The bound on `x + z` given bounds on `x` and on `z`, the value taken as a mathematical
/// integer: strict when one of them is strict.
pub open spec fn bound_sum(a: Bound, b: Bound) -> (Option<int>, bool, bool) {
    match (a, b) {
        (Bound::MinusInfinite, _) => (None, false, false),
        (_, Bound::MinusInfinite) => (None, false, false),
        (Bound::Infinite, _) => (None, true, false),
        (_, Bound::Infinite) => (None, true, false),
        (Bound::Large(x), Bound::Large(y)) => (Some(x + y), false, false),
        (Bound::Large(x), Bound::Strict(y)) => (Some(x + y), false, true),
        (Bound::Strict(x), Bound::Large(y)) => (Some(x + y), false, true),
        (Bound::Strict(x), Bound::Strict(y)) => (Some(x + y), false, true),
    }
}

/// The sum of two bounds where it is a bound of this type: `None` where the finite sum does
/// not fit in an `i32`.
pub open spec fn add_bounds(a: Bound, b: Bound) -> Option<Bound> {
    let (v, inf, strict) = bound_sum(a, b);
    match v {
        None => Some(
            if inf {
                Bound::Infinite
            } else {
                Bound::MinusInfinite
            },
        ),
        Some(s) => if i32::MIN <= s <= i32::MAX {
            Some(
                if strict {
                    Bound::Strict(s as i32)
                } else {
                    Bound::Large(s as i32)
                },
            )
        } else {
            None
        },
    }
}

/// The tighter bound meets exactly the differences that both bounds meet.
pub proof fn lemma_min_meets(a: Bound, b: Bound, x: int)
    ensures
        meets(bound_min(a, b), x) == (meets(a, x) && meets(b, x)),
{
}

/// Differences that meet two bounds add up to a difference that meets their sum.
pub proof fn lemma_sum_meets(a: Bound, b: Bound, x: int, y: int)
    requires
        meets(a, x),
        meets(b, y),
        add_bounds(a, b) is Some,
    ensures
        meets(add_bounds(a, b)->Some_0, x + y),
{
}

impl Bound {
    /// The bound `<= 0`.
    pub fn zero() -> (r: Bound)
        ensures
            r == Bound::Large(0),
    {
        Bound::Large(0)
    }

    /// Whether this bound is at least as tight as `other`.
    pub fn is_tighter(&self, other: &Bound) -> (r: bool)
        ensures
            r == tighter(*self, *other),
    {
        match (*self, *other) {
            (Bound::MinusInfinite, _) => true,
            (_, Bound::Infinite) => true,
            (Bound::Infinite, _) => false,
            (_, Bound::MinusInfinite) => false,
            (Bound::Large(x), Bound::Large(y)) => x <= y,
            (Bound::Strict(x), Bound::Strict(y)) => x <= y,
            (Bound::Strict(x), Bound::Large(y)) => x <= y,
            (Bound::Large(x), Bound::Strict(y)) => x < y,
        }
    }

    /// The tighter of this bound and `other`.
    pub fn min(self, other: Bound) -> (r: Bound)
        ensures
            r == bound_min(self, other),
    {
        if self.is_tighter(&other) {
            self
        } else {
            other
        }
    }

    /// The sum of this bound and `other`, or `None` where the sum does not fit in an `i32`.
    pub fn plus(self, other: Bound) -> (r: Option<Bound>)
        ensures
            r == add_bounds(self, other),
    {
        match (self, other) {
            (Bound::MinusInfinite, _) => Some(Bound::MinusInfinite),
            (_, Bound::MinusInfinite) => Some(Bound::MinusInfinite),
            (Bound::Infinite, _) => Some(Bound::Infinite),
            (_, Bound::Infinite) => Some(Bound::Infinite),
            (Bound::Large(x), Bound::Large(y)) => match x.checked_add(y) {
                Some(s) => Some(Bound::Large(s)),
                None => None,
            },
            (Bound::Large(x), Bound::Strict(y)) => match x.checked_add(y) {
                Some(s) => Some(Bound::Strict(s)),
                None => None,
            },
            (Bound::Strict(x), Bound::Large(y)) => match x.checked_add(y) {
                Some(s) => Some(Bound::Strict(s)),
                None => None,
            },
            (Bound::Strict(x), Bound::Strict(y)) => match x.checked_add(y) {
                Some(s) => Some(Bound::Strict(s)),
                None => None,
            },
        }
    }

    /// The bound on `-x` given this bound on `x`, turned around: `x >= -n` read as a bound
    /// of the other direction; infinity and minus infinity trade places.
    pub fn negated(self) -> (r: Bound)
        requires
            self != Bound::Large(i32::MIN),
            self != Bound::Strict(i32::MIN),
        ensures
            r == match self {
                Bound::Large(n) => Bound::Large(-n as i32),
                Bound::Strict(n) => Bound::Strict(-n as i32),
                Bound::Infinite => Bound::MinusInfinite,
                Bound::MinusInfinite => Bound::Infinite,
            },
    {
        match self {
            Bound::Large(n) => Bound::Large(-n),
            Bound::Strict(n) => Bound::Strict(-n),
            Bound::Infinite => Bound::MinusInfinite,
            Bound::MinusInfinite => Bound::Infinite,
        }
    }
}

/// Whether `a` is strictly tighter than `b`.
pub open spec fn below(a: Bound, b: Bound) -> bool {
    tighter(a, b) && a != b
}

/// A bound whose value may be any integer: what the sum of bounds is before it is fitted
/// into a `Bound`.
enum ExactBound {
    Finite(int, bool),
    Plus,
    Minus,
}

spec fn exact(b: Bound) -> ExactBound {
    match b {
        Bound::Large(n) => ExactBound::Finite(n as int, false),
        Bound::Strict(n) => ExactBound::Finite(n as int, true),
        Bound::Infinite => ExactBound::Plus,
        Bound::MinusInfinite => ExactBound::Minus,
    }
}

spec fn exact_sum(a: ExactBound, b: ExactBound) -> ExactBound {
    match (a, b) {
        (ExactBound::Minus, _) => ExactBound::Minus,
        (_, ExactBound::Minus) => ExactBound::Minus,
        (ExactBound::Plus, _) => ExactBound::Plus,
        (_, ExactBound::Plus) => ExactBound::Plus,
        (ExactBound::Finite(x, s), ExactBound::Finite(y, t)) => ExactBound::Finite(x + y, s || t),
    }
}

spec fn exact_le(a: ExactBound, b: ExactBound) -> bool {
    match (a, b) {
        (ExactBound::Minus, _) => true,
        (_, ExactBound::Plus) => true,
        (ExactBound::Plus, _) => false,
        (_, ExactBound::Minus) => false,
        (ExactBound::Finite(x, s), ExactBound::Finite(y, t)) => x < y || (x == y && (s || !t)),
    }
}

proof fn lemma_exact_facts(a: Bound, b: Bound)
    ensures
        tighter(a, b) == exact_le(exact(a), exact(b)),
        add_bounds(a, b) matches Some(s) ==> exact(s) == exact_sum(exact(a), exact(b)),
        exact(bound_min(a, b)) == exact(a) || exact(bound_min(a, b)) == exact(b),
        exact_le(exact(bound_min(a, b)), exact(a)),
        exact_le(exact(bound_min(a, b)), exact(b)),
{
}

proof fn lemma_exact_order(a: ExactBound, b: ExactBound, c: ExactBound)
    ensures
        exact_le(a, a),
        exact_le(a, b) || exact_le(b, a),
        exact_le(a, b) && exact_le(b, c) ==> exact_le(a, c),
        exact_sum(a, b) == exact_sum(b, a),
        exact_sum(exact_sum(a, b), c) == exact_sum(a, exact_sum(b, c)),
        exact_le(a, b) ==> exact_le(exact_sum(a, c), exact_sum(b, c)),
        exact_le(a, b) ==> exact_le(exact_sum(c, a), exact_sum(c, b)),
        exact_le(ExactBound::Finite(0, false), b) ==> exact_le(a, exact_sum(a, b)),
        exact_le(ExactBound::Finite(0, false), b) ==> exact_le(a, exact_sum(b, a)),
{
}

/// A bound is met by every difference that a tighter bound meets; of two bounds, one is
/// tighter than the other.
pub proof fn lemma_tighter_meets(a: Bound, b: Bound, x: int)
    ensures
        tighter(a, b) && meets(a, x) ==> meets(b, x),
        tighter(a, b) || tighter(b, a),
{
}

/// A bound strictly below `<= 0` is met by no difference of a clock with itself.
pub proof fn lemma_below_zero(b: Bound)
    requires
        below(b, Bound::Large(0)),
    ensures
        !meets(b, 0),
{
}

/// The bounds of a matrix, kept in an `nalgebra` matrix.
#[verifier::external_body]
#[derive(Debug)]
pub struct BoundMatrix {
    cells: DMatrix<Bound>,
}

/// The cells of a matrix of bounds, by row and column.
pub uninterp spec fn bound_cells(m: BoundMatrix) -> Map<(int, int), Bound>;

/// The numbers of rows and of columns of a matrix of bounds.
pub uninterp spec fn bound_shape(m: BoundMatrix) -> (nat, nat);

impl BoundMatrix {
    /// `DMatrix::from_element`: an `n` by `n` matrix with `elem` in every cell.
    #[verifier::external_body]
    fn filled(n: usize, elem: Bound) -> (m: BoundMatrix)
        requires
            n * n <= usize::MAX,
        ensures
            bound_shape(m) == (n as nat, n as nat),
            forall|i: int, j: int| 0 <= i < n && 0 <= j < n ==> #[trigger] bound_cells(m)[(i, j)] == elem,
    {
        BoundMatrix { cells: DMatrix::from_element(n, n, elem) }
    }

    /// `Index<(usize, usize)>` of a matrix: the cell at row `i` and column `j`.
    #[verifier::external_body]
    fn get(&self, i: usize, j: usize) -> (r: Bound)
        requires
            i < bound_shape(*self).0,
            j < bound_shape(*self).1,
        ensures
            r == bound_cells(*self)[(i as int, j as int)],
    {
        self.cells[(i, j)]
    }

    /// `IndexMut<(usize, usize)>` of a matrix: writes `v` in the cell at row `i` and
    /// column `j`.
    #[verifier::external_body]
    fn set(&mut self, i: usize, j: usize, v: Bound)
        requires
            i < bound_shape(*old(self)).0,
            j < bound_shape(*old(self)).1,
        ensures
            bound_shape(*final(self)) == bound_shape(*old(self)),
            bound_cells(*final(self)) == bound_cells(*old(self)).insert((i as int, j as int), v),
    {
        self.cells[(i, j)] = v;
    }

    /// `nrows` of a matrix.
    #[verifier::external_body]
    fn rows(&self) -> (r: usize)
        ensures
            r == bound_shape(*self).0,
    {
        self.cells.nrows()
    }

    /// `ncols` of a matrix.
    #[verifier::external_body]
    fn cols(&self) -> (r: usize)
        ensures
            r == bound_shape(*self).1,
    {
        self.cells.ncols()
    }
}

/// A difference bound matrix: the zone of clock valuations where, for every pair of clocks
/// `i` and `j`, `v[i] - v[j]` meets the bound at `(i, j)`. Clock `0` stands for the constant
/// zero, so that bounds on one clock are bounds on its difference with clock `0`.
#[derive(Debug)]
pub struct DBM {
    size: usize,
    cells: BoundMatrix,
}

impl DBM {
    /// Number of clocks, the zero clock included.
    pub closed spec fn dim(&self) -> nat {
        self.size as nat
    }

    /// The bound on `v[i] - v[j]`.
    pub closed spec fn bound(&self, i: int, j: int) -> Bound {
        bound_cells(self.cells)[(i, j)]
    }

    /// The matrix is square, and small enough for its cells to be counted in a `usize`.
    pub closed spec fn wf(&self) -> bool {
        &&& self.size >= 1
        &&& bound_shape(self.cells) == (self.size as nat, self.size as nat)
        &&& self.size * self.size <= usize::MAX
    }

    /// Whether the valuation `v`, one value per clock, meets every bound.
    pub open spec fn satisfies(&self, v: Seq<int>) -> bool {
        &&& v.len() == self.dim()
        &&& forall|i: int, j: int|
            0 <= i < self.dim() && 0 <= j < self.dim() ==> meets(#[trigger] self.bound(i, j), v[i] - v[j])
    }

    /// Whether two matrices of the same size have the same bounds but at `(i, j)`.
    pub open spec fn same_but(&self, other: &DBM, i: int, j: int) -> bool {
        &&& self.dim() == other.dim()
        &&& forall|a: int, b: int|
            0 <= a < self.dim() && 0 <= b < self.dim() && (a != i || b != j) ==> #[trigger] self.bound(a, b)
                == other.bound(a, b)
    }

    fn get(&self, i: usize, j: usize) -> (r: Bound)
        requires
            self.wf(),
            i < self.dim(),
            j < self.dim(),
        ensures
            r == self.bound(i as int, j as int),
    {
        self.cells.get(i, j)
    }

    /// Overwrites the bound at `(i, j)`; the matrix may then not be canonical any more.
    pub fn set(&mut self, i: usize, j: usize, b: Bound)
        requires
            old(self).wf(),
            i < old(self).dim(),
            j < old(self).dim(),
        ensures
            final(self).wf(),
            final(self).bound(i as int, j as int) == b,
            final(self).same_but(&*old(self), i as int, j as int),
    {
        self.cells.set(i, j, b);
    }

    /// The matrix of `vars` clocks with no bound but `v[i] - v[i] <= 0`: every valuation.
    pub fn new(vars: usize) -> (d: DBM)
        requires
            (vars + 1) * (vars + 1) <= usize::MAX,
        ensures
            d.wf(),
            d.dim() == vars + 1,
            forall|i: int, j: int|
                0 <= i < d.dim() && 0 <= j < d.dim() ==> #[trigger] d.bound(i, j) == if i == j {
                    Bound::Large(0)
                } else {
                    Bound::Infinite
                },
    {
        assert(vars + 1 <= usize::MAX) by (nonlinear_arith)
            requires
                (vars + 1) * (vars + 1) <= usize::MAX,
        ;
        let n = vars + 1;
        let mut d = DBM { size: n, cells: BoundMatrix::filled(n, Bound::Infinite) };
        let mut k: usize = 0;
        while k < n
            invariant
                n == vars + 1,
                d.wf(),
                d.dim() == n,
                k <= n,
                forall|i: int, j: int|
                    0 <= i < n && 0 <= j < n ==> #[trigger] d.bound(i, j) == if i == j && i < k {
                        Bound::Large(0)
                    } else {
                        Bound::Infinite
                    },
            decreases n - k,
        {
            d.set(k, k, Bound::Large(0));
            k += 1;
        }
        d
    }

    /// The matrix of `vars` clocks that no valuation meets.
    pub fn empty(vars: usize) -> (d: DBM)
        requires
            (vars + 1) * (vars + 1) <= usize::MAX,
        ensures
            d.wf(),
            d.dim() == vars + 1,
            forall|i: int, j: int|
                0 <= i < d.dim() && 0 <= j < d.dim() ==> #[trigger] d.bound(i, j) == Bound::MinusInfinite,
            forall|v: Seq<int>| !#[trigger] d.satisfies(v),
    {
        assert(vars + 1 <= usize::MAX) by (nonlinear_arith)
            requires
                (vars + 1) * (vars + 1) <= usize::MAX,
        ;
        let n = vars + 1;
        let d = DBM { size: n, cells: BoundMatrix::filled(n, Bound::MinusInfinite) };
        proof {
            assert forall|v: Seq<int>| !#[trigger] d.satisfies(v) by {
                if d.satisfies(v) {
                    assert(meets(d.bound(0, 0), v[0] - v[0]));
                }
            }
        }
        d
    }

    /// The bound on `v[i] - v[j]`.
    pub fn at(&self, i: usize, j: usize) -> (r: Bound)
        requires
            self.wf(),
            i < self.dim(),
            j < self.dim(),
        ensures
            r == self.bound(i as int, j as int),
    {
        self.get(i, j)
    }

    /// Number of clocks, the zero clock left out.
    /// Whether the matrix is square, as every matrix built by this type is.
    pub fn is_square(&self) -> (r: bool)
        ensures
            r == self.wf(),
    {
        self.size >= 1 && self.cells.rows() == self.size && self.cells.cols() == self.size
            && self.size.checked_mul(self.size).is_some()
    }

    pub fn vars_count(&self) -> (r: usize)
        requires
            self.wf(),
        ensures
            r == self.dim() - 1,
    {
        self.size - 1
    }

    /// Whether the bound of the zero clock with itself is below `<= 0`; no valuation then
    /// meets the matrix.
    pub fn is_empty(&self) -> (r: bool)
        requires
            self.wf(),
        ensures
            r == below(self.bound(0, 0), Bound::Large(0)),
            r ==> forall|v: Seq<int>| !#[trigger] self.satisfies(v),
    {
        let b = self.get(0, 0);
        let r = b.is_tighter(&Bound::zero()) && b != Bound::zero();
        proof {
            if r {
                lemma_below_zero(b);
                assert forall|v: Seq<int>| !#[trigger] self.satisfies(v) by {
                    if self.satisfies(v) {
                        assert(meets(self.bound(0, 0), v[0] - v[0]));
                    }
                }
            }
        }
        r
    }

    /// Marks the matrix empty: the bound of the zero clock with itself becomes minus
    /// infinity.
    pub fn make_empty(&mut self)
        requires
            old(self).wf(),
        ensures
            final(self).wf(),
            final(self).bound(0, 0) == Bound::MinusInfinite,
            final(self).same_but(&*old(self), 0, 0),
            forall|v: Seq<int>| !#[trigger] final(self).satisfies(v),
    {
        self.set(0, 0, Bound::MinusInfinite);
        proof {
            assert forall|v: Seq<int>| !#[trigger] self.satisfies(v) by {
                if self.satisfies(v) {
                    assert(meets(self.bound(0, 0), v[0] - v[0]));
                }
            }
        }
    }
}

/// Tightening the bound at `(i, j)` with the sum of the bounds at `(i, k)` and `(k, j)`
/// keeps the valuations that meet the matrix.
pub proof fn lemma_tighten_keeps_zone(before: DBM, after: DBM, i: int, j: int, k: int)
    requires
        0 <= i < before.dim(),
        0 <= j < before.dim(),
        0 <= k < before.dim(),
        after.same_but(&before, i, j),
        add_bounds(before.bound(i, k), before.bound(k, j)) is Some,
        after.bound(i, j) == bound_min(
            before.bound(i, j),
            add_bounds(before.bound(i, k), before.bound(k, j))->Some_0,
        ),
    ensures
        forall|v: Seq<int>| #[trigger] after.satisfies(v) == before.satisfies(v),
{
    let s = add_bounds(before.bound(i, k), before.bound(k, j))->Some_0;
    assert forall|v: Seq<int>| #[trigger] after.satisfies(v) == before.satisfies(v) by {
        if v.len() == before.dim() {
            lemma_min_meets(before.bound(i, j), s, v[i] - v[j]);
            if before.satisfies(v) {
                assert(meets(before.bound(i, k), v[i] - v[k]));
                assert(meets(before.bound(k, j), v[k] - v[j]));
                lemma_sum_meets(before.bound(i, k), before.bound(k, j), v[i] - v[k], v[k] - v[j]);
                assert forall|a: int, b: int|
                    0 <= a < after.dim() && 0 <= b < after.dim() implies meets(
                    #[trigger] after.bound(a, b),
                    v[a] - v[b],
                ) by {
                    if a != i || b != j {
                        assert(after.bound(a, b) == before.bound(a, b));
                    }
                }
            }
            if after.satisfies(v) {
                assert(meets(after.bound(i, j), v[i] - v[j]));
                assert forall|a: int, b: int|
                    0 <= a < before.dim() && 0 <= b < before.dim() implies meets(
                    #[trigger] before.bound(a, b),
                    v[a] - v[b],
                ) by {
                    if a != i || b != j {
                        assert(after.bound(a, b) == before.bound(a, b));
                    }
                }
            }
        }
    }
}

/// Setting the bound at `(i, j)` to a tighter `c` keeps the valuations that meet the
/// matrix and `c`.
pub proof fn lemma_restrict_zone(before: DBM, after: DBM, i: int, j: int, c: Bound)
    requires
        0 <= i < before.dim(),
        0 <= j < before.dim(),
        after.same_but(&before, i, j),
        after.bound(i, j) == c,
        tighter(c, before.bound(i, j)),
    ensures
        forall|v: Seq<int>|
            #[trigger] after.satisfies(v) == (before.satisfies(v) && meets(c, v[i] - v[j])),
{
    assert forall|v: Seq<int>|
        #[trigger] after.satisfies(v) == (before.satisfies(v) && meets(c, v[i] - v[j])) by {
        if v.len() == before.dim() {
            lemma_tighter_meets(c, before.bound(i, j), v[i] - v[j]);
            if before.satisfies(v) && meets(c, v[i] - v[j]) {
                assert forall|a: int, b: int|
                    0 <= a < after.dim() && 0 <= b < after.dim() implies meets(
                    #[trigger] after.bound(a, b),
                    v[a] - v[b],
                ) by {
                    if a != i || b != j {
                        assert(after.bound(a, b) == before.bound(a, b));
                    }
                }
            }
            if after.satisfies(v) {
                assert(meets(after.bound(i, j), v[i] - v[j]));
                assert forall|a: int, b: int|
                    0 <= a < before.dim() && 0 <= b < before.dim() implies meets(
                    #[trigger] before.bound(a, b),
                    v[a] - v[b],
                ) by {
                    if a != i || b != j {
                        assert(after.bound(a, b) == before.bound(a, b));
                    }
                }
            }
        }
    }
}

/// A bound below `<= 0` on a clock against itself leaves no valuation.
pub proof fn lemma_negative_diagonal(d: DBM, i: int)
    requires
        0 <= i < d.dim(),
        below(d.bound(i, i), Bound::Large(0)),
    ensures
        forall|v: Seq<int>| !#[trigger] d.satisfies(v),
{
    lemma_below_zero(d.bound(i, i));
    assert forall|v: Seq<int>| !#[trigger] d.satisfies(v) by {
        if d.satisfies(v) {
            assert(meets(d.bound(i, i), v[i] - v[i]));
        }
    }
}

/// The bound at `(i, j)` of `d` tightened with the sum of those at `(i, k)` and `(k, j)`,
/// where that sum fits.
pub open spec fn tightened(d: DBM, i: int, j: int, k: int) -> Bound {
    match add_bounds(d.bound(i, k), d.bound(k, j)) {
        Some(s) => bound_min(d.bound(i, j), s),
        None => d.bound(i, j),
    }
}

/// `2` to the power `e`.
pub open spec fn two_to(e: nat) -> int
    decreases e,
{
    if e == 0 {
        1
    } else {
        2 * two_to((e - 1) as nat)
    }
}

/// Whether the size of `b`, when it is finite, times `2` to the power `e`, fits in an `i32`.
pub open spec fn small_bound(b: Bound, e: nat) -> bool {
    match b {
        Bound::Large(n) => -i32::MAX <= n * two_to(e) <= i32::MAX,
        Bound::Strict(n) => -i32::MAX <= n * two_to(e) <= i32::MAX,
        _ => true,
    }
}

/// Whether the size of every finite bound of `d`, times `2` to the power `e`, fits in an
/// `i32`.
pub open spec fn small_at(d: DBM, e: nat) -> bool {
    forall|x: int, y: int| 0 <= x < d.dim() && 0 <= y < d.dim() ==> small_bound(#[trigger] d.bound(x, y), e)
}

/// Whether every bound of `d` is at least as tight as the exact sum of the bounds through
/// each clock below `m`.
spec fn closed_below(d: DBM, m: int) -> bool {
    forall|x: int, y: int, c: int|
        0 <= x < d.dim() && 0 <= y < d.dim() && 0 <= c < m && c < d.dim() ==> exact_le(
            exact(#[trigger] d.bound(x, y)),
            exact_sum(exact(#[trigger] d.bound(x, c)), exact(#[trigger] d.bound(c, y))),
        )
}

proof fn lemma_two_to_positive(e: nat)
    ensures
        two_to(e) >= 1,
    decreases e,
{
    if e > 0 {
        lemma_two_to_positive((e - 1) as nat);
    }
}

/// A bound whose size times `2 * p` fits in an `i32`, added to another such bound, gives a
/// sum that fits in an `i32` and whose size times `p` fits.
proof fn lemma_small_sum(a: int, b: int, p: int)
    requires
        p >= 1,
        -i32::MAX <= a * (2 * p) <= i32::MAX,
        -i32::MAX <= b * (2 * p) <= i32::MAX,
    ensures
        -i32::MAX <= (a + b) * p <= i32::MAX,
        -i32::MAX <= a + b <= i32::MAX,
        -i32::MAX <= a * p <= i32::MAX,
{
    assert(-i32::MAX <= (a + b) * p <= i32::MAX && -i32::MAX <= a * p <= i32::MAX) by (nonlinear_arith)
        requires
            p >= 1,
            -i32::MAX <= a * (2 * p) <= i32::MAX,
            -i32::MAX <= b * (2 * p) <= i32::MAX,
    ;
    assert(-i32::MAX <= a + b <= i32::MAX) by (nonlinear_arith)
        requires
            p >= 1,
            -i32::MAX <= (a + b) * p <= i32::MAX,
    ;
}

/// One round of tightening through clock `k`, from a matrix whose bound of `k` against
/// itself is not below `<= 0` and whose bounds are small enough for the sums not to
/// overflow, keeps every bound at least as tight as the sums through the clocks before `k`,
/// makes it so through `k` too, and halves the room left for the sizes of the bounds.
proof fn lemma_round_closes(s: DBM, f: DBM, k: int, e: nat)
    requires
        s.dim() == f.dim(),
        0 <= k < s.dim(),
        e >= 1,
        forall|x: int, y: int|
            0 <= x < s.dim() && 0 <= y < s.dim() ==> #[trigger] f.bound(x, y) == tightened(s, x, y, k),
        !below(s.bound(k, k), Bound::Large(0)),
        small_at(s, e),
        closed_below(s, k),
    ensures
        small_at(f, (e - 1) as nat),
        closed_below(f, k + 1),
{
    let n = s.dim();
    let p = two_to((e - 1) as nat);
    lemma_two_to_positive((e - 1) as nat);
    assert(two_to(e) == 2 * p);
    // every sum through `k` fits, so each new bound is the exact tighter one
    assert forall|x: int, y: int| 0 <= x < n && 0 <= y < n implies {
        &&& add_bounds(s.bound(x, k), s.bound(k, y)) is Some
        &&& exact(#[trigger] f.bound(x, y)) == (if exact_le(exact(s.bound(x, y)), exact_sum(exact(s.bound(x, k)), exact(s.bound(k, y)))) {
            exact(s.bound(x, y))
        } else {
            exact_sum(exact(s.bound(x, k)), exact(s.bound(k, y)))
        })
        &&& small_bound(f.bound(x, y), (e - 1) as nat)
    } by {
        let a = s.bound(x, k);
        let b = s.bound(k, y);
        let c = s.bound(x, y);
        assert(f.bound(x, y) == tightened(s, x, y, k));
        assert(small_bound(a, e) && small_bound(b, e) && small_bound(c, e));
        match (a, b) {
            (Bound::Large(u), Bound::Large(w)) => lemma_small_sum(u as int, w as int, p),
            (Bound::Large(u), Bound::Strict(w)) => lemma_small_sum(u as int, w as int, p),
            (Bound::Strict(u), Bound::Large(w)) => lemma_small_sum(u as int, w as int, p),
            (Bound::Strict(u), Bound::Strict(w)) => lemma_small_sum(u as int, w as int, p),
            _ => {},
        }
        match c {
            Bound::Large(u) => lemma_small_sum(u as int, 0, p),
            Bound::Strict(u) => lemma_small_sum(u as int, 0, p),
            _ => {},
        }
        lemma_exact_facts(a, b);
        let sm = add_bounds(a, b)->Some_0;
        lemma_exact_facts(c, sm);
    }
    assert(small_at(f, (e - 1) as nat));
    // the row and the column of `k` do not move
    assert forall|x: int| 0 <= x < n implies #[trigger] exact(f.bound(x, k)) == exact(s.bound(x, k)) && exact(
        f.bound(k, x),
    ) == exact(s.bound(k, x)) by {
        assert(add_bounds(s.bound(x, k), s.bound(k, k)) is Some);
        assert(add_bounds(s.bound(k, k), s.bound(k, x)) is Some);
        lemma_exact_facts(s.bound(k, k), Bound::Large(0));
        lemma_exact_order(exact(s.bound(x, k)), exact(s.bound(k, k)), exact(s.bound(x, k)));
        lemma_exact_order(exact(s.bound(k, x)), exact(s.bound(k, k)), exact(s.bound(k, x)));
    }
    assert forall|x: int, y: int, c: int|
        0 <= x < n && 0 <= y < n && 0 <= c < k + 1 && c < n implies exact_le(
        exact(#[trigger] f.bound(x, y)),
        exact_sum(exact(#[trigger] f.bound(x, c)), exact(#[trigger] f.bound(c, y))),
    ) by {
        let exy = exact(s.bound(x, y));
        let exk = exact(s.bound(x, k));
        let eky = exact(s.bound(k, y));
        let r = exact_sum(exk, eky);
        let fxy = exact(f.bound(x, y));
        assert(exact(f.bound(x, k)) == exk);
        assert(exact(f.bound(k, y)) == eky);
        lemma_exact_order(fxy, exy, r);
        assert(exact_le(fxy, exy) && exact_le(fxy, r));
        if c == k {
        } else {
            let exc = exact(s.bound(x, c));
            let ecy = exact(s.bound(c, y));
            let ekc = exact(s.bound(k, c));
            let eck = exact(s.bound(c, k));
            let ekk = exact(s.bound(k, k));
            let fxc = exact(f.bound(x, c));
            let fcy = exact(f.bound(c, y));
            assert(exact_le(exy, exact_sum(exc, ecy)));
            assert(exact_le(exk, exact_sum(exc, eck)));
            assert(exact_le(eky, exact_sum(ekc, ecy)));
            assert(exact_le(ekk, exact_sum(ekc, eck)));
            lemma_exact_facts(s.bound(k, k), Bound::Large(0));
            assert(exact_le(ExactBound::Finite(0, false), ekk));
            assert(fxc == exc || fxc == exact_sum(exk, ekc));
            assert(fcy == ecy || fcy == exact_sum(eck, eky));
            if fxc == exc && fcy == ecy {
                lemma_exact_order(fxy, exy, exact_sum(exc, ecy));
            } else if fxc == exc {
                // x -> c -> k -> y
                lemma_exact_order(exc, eck, eky);
                lemma_exact_order(exk, exact_sum(exc, eck), eky);
                lemma_exact_order(fxy, r, exact_sum(exact_sum(exc, eck), eky));
            } else if fcy == ecy {
                // x -> k -> c -> y
                lemma_exact_order(exk, ekc, ecy);
                lemma_exact_order(eky, exact_sum(ekc, ecy), exk);
                lemma_exact_order(fxy, r, exact_sum(exk, exact_sum(ekc, ecy)));
            } else {
                // x -> k -> c -> k -> y
                let kck = exact_sum(ekc, eck);
                lemma_exact_order(exk, ekc, exact_sum(eck, eky));
                lemma_exact_order(ekc, eck, eky);
                lemma_exact_order(ekk, kck, eky);
                lemma_exact_order(exact_sum(ekk, eky), exact_sum(kck, eky), exk);
                lemma_exact_order(eky, ekk, exk);
                lemma_exact_order(eky, exact_sum(ekk, eky), exk);
                lemma_exact_order(r, exact_sum(exk, exact_sum(ekk, eky)), exact_sum(exk, exact_sum(kck, eky)));
                lemma_exact_order(fxy, r, exact_sum(exk, exact_sum(kck, eky)));
            }
        }
    }
}

/// While a round through `k` goes on, the bounds in the row and the column of `k` stay as
/// they were: tightening one of them adds the bound of `k` against itself, which is not below
/// `<= 0`.
proof fn lemma_row_column_steady(snap: DBM, cur: DBM, i: int, j: int, k: int)
    requires
        0 <= i < snap.dim(),
        0 <= j < snap.dim(),
        0 <= k < snap.dim(),
        cur.dim() == snap.dim(),
        i > 0 || j > 0 ==> !below(snap.bound(k, k), Bound::Large(0)),
        forall|x: int, y: int|
            0 <= x < snap.dim() && 0 <= y < snap.dim() ==> #[trigger] cur.bound(x, y) == if x < i || (x == i
                && y < j) {
                tightened(snap, x, y, k)
            } else {
                snap.bound(x, y)
            },
    ensures
        tightened(cur, i, j, k) == tightened(snap, i, j, k),
{
    assert(cur.bound(i, j) == snap.bound(i, j));
    if i < i || (i == i && k < j) {
        lemma_steady(snap, i, k);
    }
    assert(cur.bound(i, k) == snap.bound(i, k));
    if k < i || (k == i && j < j) {
        lemma_steady(snap, k, j);
    }
    assert(cur.bound(k, j) == snap.bound(k, j));
}

/// Tightening a bound in the row or the column of `k` through `k` leaves it as it was, when
/// the bound of `k` against itself is not below `<= 0`.
proof fn lemma_steady(d: DBM, x: int, y: int)
    ensures
        !below(d.bound(x, x), Bound::Large(0)) ==> tightened(d, x, y, x) == d.bound(x, y),
        !below(d.bound(y, y), Bound::Large(0)) ==> tightened(d, x, y, y) == d.bound(x, y),
{
    lemma_exact_facts(d.bound(x, x), Bound::Large(0));
    lemma_exact_facts(d.bound(y, y), Bound::Large(0));
    lemma_exact_facts(d.bound(x, x), d.bound(x, y));
    lemma_exact_facts(d.bound(x, y), d.bound(y, y));
    lemma_exact_order(exact(d.bound(x, y)), exact(d.bound(x, x)), exact(d.bound(x, y)));
    lemma_exact_order(exact(d.bound(x, y)), exact(d.bound(y, y)), exact(d.bound(x, y)));
    match add_bounds(d.bound(x, x), d.bound(x, y)) {
        Some(s) => lemma_exact_facts(d.bound(x, y), s),
        None => {},
    }
    match add_bounds(d.bound(x, y), d.bound(y, y)) {
        Some(s) => lemma_exact_facts(d.bound(x, y), s),
        None => {},
    }
}

/// A bound of a clock against itself below `<= 0` stays below it when tightened through
/// that clock.
proof fn lemma_tightened_diagonal(d: DBM, x: int)
    ensures
        !below(tightened(d, x, x, x), Bound::Large(0)) ==> !below(d.bound(x, x), Bound::Large(0)),
{
    let b = d.bound(x, x);
    lemma_exact_facts(b, b);
    match add_bounds(b, b) {
        Some(s) => {
            lemma_exact_facts(b, s);
            lemma_exact_facts(bound_min(b, s), Bound::Large(0));
            lemma_exact_facts(b, Bound::Large(0));
            lemma_exact_order(exact(bound_min(b, s)), exact(b), exact(Bound::Large(0)));
        },
        None => {},
    }
}

/// A matrix closed through all its clocks is canonical.
proof fn lemma_closed_is_canonical(d: DBM)
    requires
        closed_below(d, d.dim() as int),
    ensures
        d.is_canonical(),
{
    assert forall|i: int, j: int, k: int|
        0 <= i < d.dim() && 0 <= j < d.dim() && 0 <= k < d.dim() implies (add_bounds(
        #[trigger] d.bound(i, k),
        #[trigger] d.bound(k, j),
    ) matches Some(s) ==> tighter(#[trigger] d.bound(i, j), s)) by {
        lemma_exact_facts(d.bound(i, k), d.bound(k, j));
        match add_bounds(d.bound(i, k), d.bound(k, j)) {
            Some(s) => lemma_exact_facts(d.bound(i, j), s),
            None => {},
        }
    }
}

impl DBM {
    /// Tightens the bound at `(i, j)` with the sum of those at `(i, k)` and `(k, j)`, where
    /// that sum fits.
    fn tighten(&mut self, i: usize, j: usize, k: usize)
        requires
            old(self).wf(),
            i < old(self).dim(),
            j < old(self).dim(),
            k < old(self).dim(),
        ensures
            final(self).wf(),
            final(self).dim() == old(self).dim(),
            forall|v: Seq<int>| #[trigger] final(self).satisfies(v) == old(self).satisfies(v),
            old(self).bound(0, 0) == Bound::MinusInfinite ==> final(self).bound(0, 0)
                == Bound::MinusInfinite,
            final(self).same_but(&*old(self), i as int, j as int),
            final(self).bound(i as int, j as int) == tightened(*old(self), i as int, j as int, k as int),
    {
        let cur = self.get(i, j);
        match self.get(i, k).plus(self.get(k, j)) {
            Some(s) => {
                let ghost before = *self;
                self.set(i, j, cur.min(s));
                proof {
                    lemma_tighten_keeps_zone(before, *self, i as int, j as int, k as int);
                }
            },
            None => {},
        }
    }

    /// Whether every finite bound, times `2` to the number of clocks, fits in an `i32`: no
    /// sum of bounds that the canonical form makes can then overflow.
    pub open spec fn small(&self) -> bool {
        small_at(*self, self.dim())
    }

    /// Whether every bound is at least as tight as the sum of the bounds through any clock,
    /// where that sum is a bound of this type.
    pub open spec fn is_canonical(&self) -> bool {
        forall|i: int, j: int, k: int|
            0 <= i < self.dim() && 0 <= j < self.dim() && 0 <= k < self.dim() ==> (add_bounds(
                #[trigger] self.bound(i, k),
                #[trigger] self.bound(k, j),
            ) matches Some(s) ==> tighter(#[trigger] self.bound(i, j), s))
    }

    /// Tightens every bound with the sums of bounds through every clock, in the order of the
    /// clocks; stops with the matrix marked empty as soon as a clock's bound against itself
    /// falls below `<= 0`. The valuations that meet the matrix stay the same, and unless the
    /// matrix is marked empty no clock is left with a bound against itself below `<= 0`.
    /// Where no sum overflows on the way, which [`DBM::small`] ensures, the matrix is then
    /// canonical, or marked empty.
    pub fn make_canonical(&mut self)
        requires
            old(self).wf(),
        ensures
            final(self).wf(),
            final(self).dim() == old(self).dim(),
            forall|v: Seq<int>| #[trigger] final(self).satisfies(v) == old(self).satisfies(v),
            final(self).bound(0, 0) == Bound::MinusInfinite || forall|d: int|
                0 <= d < final(self).dim() ==> !below(#[trigger] final(self).bound(d, d), Bound::Large(0)),
            old(self).small() ==> final(self).bound(0, 0) == Bound::MinusInfinite || final(self).is_canonical(),
            final(self).bound(0, 0) == Bound::MinusInfinite ==> forall|v: Seq<int>| !#[trigger] old(self).satisfies(v),
    {
        let ghost z0 = *self;
        let n = self.size;
        for k in 0..n
            invariant
                n == self.dim(),
                n == z0.dim(),
                z0 == *old(self),
                self.wf(),
                forall|v: Seq<int>| #[trigger] self.satisfies(v) == z0.satisfies(v),
                k > 0 ==> forall|d: int| 0 <= d < n ==> !below(#[trigger] self.bound(d, d), Bound::Large(0)),
                z0.small() ==> small_at(*self, (n - k) as nat) && closed_below(*self, k as int),
        {
            let ghost snap = *self;
            for i in 0..n
                invariant
                    n == self.dim(),
                    n == z0.dim(),
                    n == snap.dim(),
                    z0 == *old(self),
                    k < n,
                    self.wf(),
                    forall|v: Seq<int>| #[trigger] self.satisfies(v) == z0.satisfies(v),
                    forall|d: int|
                        0 <= d < n && (d < i || k > 0) ==> !below(#[trigger] self.bound(d, d), Bound::Large(0)),
                    k > 0 ==> forall|d: int| 0 <= d < n ==> !below(#[trigger] snap.bound(d, d), Bound::Large(0)),
                    i > 0 ==> !below(snap.bound(k as int, k as int), Bound::Large(0)),
                    forall|x: int, y: int|
                        0 <= x < n && 0 <= y < n ==> #[trigger] self.bound(x, y) == if x < i {
                            tightened(snap, x, y, k as int)
                        } else {
                            snap.bound(x, y)
                        },
                    z0.small() ==> small_at(snap, (n - k) as nat) && closed_below(snap, k as int),
            {
                for j in 0..n
                    invariant
                        n == self.dim(),
                        n == z0.dim(),
                        n == snap.dim(),
                        z0 == *old(self),
                        k < n,
                        i < n,
                        self.wf(),
                        forall|v: Seq<int>| #[trigger] self.satisfies(v) == z0.satisfies(v),
                        forall|d: int|
                            0 <= d < n && (d < i || (d > i && k > 0) || (d == i && (j > i || k > 0)))
                                ==> !below(#[trigger] self.bound(d, d), Bound::Large(0)),
                        k > 0 ==> forall|d: int| 0 <= d < n ==> !below(#[trigger] snap.bound(d, d), Bound::Large(0)),
                        i > 0 || j > 0 ==> !below(snap.bound(k as int, k as int), Bound::Large(0)),
                        forall|x: int, y: int|
                            0 <= x < n && 0 <= y < n ==> #[trigger] self.bound(x, y) == if x < i || (x == i
                                && y < j) {
                                tightened(snap, x, y, k as int)
                            } else {
                                snap.bound(x, y)
                            },
                        z0.small() ==> small_at(snap, (n - k) as nat) && closed_below(snap, k as int),
                {
                    let ghost pre_tighten = *self;
                    proof {
                        lemma_row_column_steady(snap, pre_tighten, i as int, j as int, k as int);
                    }
                    self.tighten(i, j, k);
                    proof {
                        assert forall|d: int| 0 <= d < n && d != i implies #[trigger] self.bound(d, d)
                            == pre_tighten.bound(d, d) by {}
                        assert forall|x: int, y: int| 0 <= x < n && 0 <= y < n && (x != i || y != j) implies #[trigger] self.bound(x, y)
                            == pre_tighten.bound(x, y) by {}
                    }
                    if i == j {
                        let d = self.get(i, j);
                        if d.is_tighter(&Bound::zero()) && d != Bound::zero() {
                            proof {
                                lemma_negative_diagonal(*self, i as int);
                            }
                            let ghost pre = *self;
                            self.make_empty();
                            proof {
                                assert(self.same_but(&pre, 0, 0));
                                assert(self.dim() == pre.dim());
                                assert forall|v: Seq<int>| #[trigger] self.satisfies(v) == z0.satisfies(v) by {
                                    assert(!pre.satisfies(v));
                                }
                                assert forall|v: Seq<int>| !#[trigger] z0.satisfies(v) by {
                                    assert(!pre.satisfies(v));
                                    assert(pre.satisfies(v) == z0.satisfies(v));
                                }
                            }
                            return;
                        }
                        proof {
                            if i == 0 && k == 0 {
                                lemma_tightened_diagonal(snap, 0);
                            }
                        }
                    } else {
                        proof {
                            assert(self.bound(i as int, i as int) == pre_tighten.bound(i as int, i as int));
                        }
                    }
                }
            }
            proof {
                if z0.small() {
                    lemma_round_closes(snap, *self, k as int, (n - k) as nat);
                }
            }
        }
        proof {
            if z0.small() {
                lemma_closed_is_canonical(*self);
            }
            if self.bound(0, 0) == Bound::MinusInfinite {
                assert forall|v: Seq<int>| !#[trigger] z0.satisfies(v) by {
                    if self.satisfies(v) {
                        assert(meets(self.bound(0, 0), v[0] - v[0]));
                    }
                }
            }
        }
    }

    /// Restricts the matrix to the valuations where `v[var_i] - v[var_j]` meets
    /// `constraint`, tightening the other bounds through the two clocks; the matrix is
    /// marked empty when the bound of the other direction rules the constraint out.
    pub fn add(&mut self, var_i: usize, var_j: usize, constraint: Bound)
        requires
            old(self).wf(),
            var_i < old(self).dim(),
            var_j < old(self).dim(),
        ensures
            final(self).wf(),
            final(self).dim() == old(self).dim(),
            forall|v: Seq<int>|
                #[trigger] final(self).satisfies(v) == (old(self).satisfies(v) && meets(
                    constraint,
                    v[var_i as int] - v[var_j as int],
                )),
    {
        let ghost z0 = *self;
        let ghost vi = var_i as int;
        let ghost vj = var_j as int;
        match self.get(var_j, var_i).plus(constraint) {
            Some(s) => {
                if s.is_tighter(&Bound::zero()) && s != Bound::zero() {
                    proof {
                        lemma_below_zero(s);
                        assert forall|v: Seq<int>|
                            !(z0.satisfies(v) && meets(constraint, v[vi] - v[vj])) by {
                            if z0.satisfies(v) && meets(constraint, v[vi] - v[vj]) {
                                assert(meets(z0.bound(vj, vi), v[vj] - v[vi]));
                                lemma_sum_meets(z0.bound(vj, vi), constraint, v[vj] - v[vi], v[vi] - v[vj]);
                            }
                        }
                    }
                    self.make_empty();
                }
            },
            None => {},
        }
        let ghost z1 = *self;
        assert(forall|v: Seq<int>|
            (#[trigger] z1.satisfies(v) && meets(constraint, v[vi] - v[vj])) == (z0.satisfies(v)
                && meets(constraint, v[vi] - v[vj])));
        let current = self.get(var_i, var_j);
        if constraint.is_tighter(&current) && constraint != current {
            self.set(var_i, var_j, constraint);
            proof {
                lemma_restrict_zone(z1, *self, vi, vj, constraint);
            }
            let n = self.size;
            for i in 0..n
                invariant
                    n == self.dim(),
                    self.wf(),
                    var_i < n,
                    var_j < n,
                    forall|v: Seq<int>|
                        #[trigger] self.satisfies(v) == (z0.satisfies(v) && meets(
                            constraint,
                            v[vi] - v[vj],
                        )),
            {
                for j in 0..n
                    invariant
                        n == self.dim(),
                        self.wf(),
                        i < n,
                        var_i < n,
                        var_j < n,
                        forall|v: Seq<int>|
                            #[trigger] self.satisfies(v) == (z0.satisfies(v) && meets(
                                constraint,
                                v[vi] - v[vj],
                            )),
                {
                    self.tighten(i, j, var_i);
                    self.tighten(i, j, var_j);
                }
            }
        } else {
            proof {
                lemma_tighter_meets(current, constraint, 0);
                assert forall|v: Seq<int>|
                    #[trigger] self.satisfies(v) == (z0.satisfies(v) && meets(constraint, v[vi] - v[vj])) by {
                    if self.satisfies(v) {
                        assert(meets(self.bound(vi, vj), v[vi] - v[vj]));
                        lemma_tighter_meets(current, constraint, v[vi] - v[vj]);
                    }
                }
            }
        }
    }
}

impl DBM {
    /// Whether `other` has the size and the bounds of this matrix.
    pub open spec fn same_bounds(&self, other: &DBM) -> bool {
        &&& self.dim() == other.dim()
        &&& (self.wf() <==> other.wf())
        &&& forall|a: int, b: int|
            0 <= a < self.dim() && 0 <= b < self.dim() ==> #[trigger] self.bound(a, b) == other.bound(
                a,
                b,
            )
    }

    /// A copy of the matrix.
    pub fn copy(&self) -> (r: DBM)
        requires
            self.wf(),
        ensures
            r.same_bounds(self),
            forall|v: Seq<int>| #[trigger] r.satisfies(v) == self.satisfies(v),
    {
        let n = self.size;
        let mut r = DBM { size: n, cells: BoundMatrix::filled(n, Bound::Infinite) };
        let mut a: usize = 0;
        while a < n
            invariant
                n == self.dim(),
                self.wf(),
                r.wf(),
                r.dim() == n,
                a <= n,
                forall|x: int, y: int|
                    0 <= x < a && 0 <= y < n ==> #[trigger] r.bound(x, y) == self.bound(x, y),
            decreases n - a,
        {
            let mut b: usize = 0;
            while b < n
                invariant
                    n == self.dim(),
                    self.wf(),
                    r.wf(),
                    r.dim() == n,
                    a < n,
                    b <= n,
                    forall|x: int, y: int|
                        0 <= x < n && 0 <= y < n && (x < a || (x == a && y < b)) ==> #[trigger] r.bound(x, y)
                            == self.bound(x, y),
                decreases n - b,
            {
                let v = self.get(a, b);
                r.set(a, b, v);
                b += 1;
            }
            a += 1;
        }
        proof {
            assert forall|v: Seq<int>| #[trigger] r.satisfies(v) == self.satisfies(v) by {
                if r.satisfies(v) {
                    assert forall|a: int, b: int|
                        0 <= a < self.dim() && 0 <= b < self.dim() implies meets(
                        #[trigger] self.bound(a, b),
                        v[a] - v[b],
                    ) by {
                        assert(r.bound(a, b) == self.bound(a, b));
                    }
                }
                if self.satisfies(v) {
                    assert forall|a: int, b: int|
                        0 <= a < r.dim() && 0 <= b < r.dim() implies meets(
                        #[trigger] r.bound(a, b),
                        v[a] - v[b],
                    ) by {
                        assert(r.bound(a, b) == self.bound(a, b));
                    }
                }
            }
        }
        r
    }

    /// A copy of the matrix brought to its canonical form, as [`DBM::make_canonical`] does.
    pub fn get_canonical(&self) -> (r: DBM)
        requires
            self.wf(),
        ensures
            r.wf(),
            r.dim() == self.dim(),
            forall|v: Seq<int>| #[trigger] r.satisfies(v) == self.satisfies(v),
            r.bound(0, 0) == Bound::MinusInfinite || forall|d: int|
                0 <= d < r.dim() ==> !below(#[trigger] r.bound(d, d), Bound::Large(0)),
            self.small() ==> r.bound(0, 0) == Bound::MinusInfinite || r.is_canonical(),
            r.bound(0, 0) == Bound::MinusInfinite ==> forall|v: Seq<int>| !#[trigger] self.satisfies(v),
    {
        let mut canonical = self.copy();
        proof {
            if self.small() {
                assert forall|x: int, y: int| 0 <= x < canonical.dim() && 0 <= y < canonical.dim() implies small_bound(
                    #[trigger] canonical.bound(x, y),
                    canonical.dim(),
                ) by {
                    assert(canonical.bound(x, y) == self.bound(x, y));
                }
            }
        }
        let ghost before = canonical;
        canonical.make_canonical();
        proof {
            if canonical.bound(0, 0) == Bound::MinusInfinite {
                assert forall|v: Seq<int>| !#[trigger] self.satisfies(v) by {
                    assert(!before.satisfies(v));
                    assert(before.satisfies(v) == self.satisfies(v));
                }
            }
        }
        canonical
    }

    /// Restricts clock `var_i` to values that meet `bound`.
    pub fn set_upper_bound(&mut self, var_i: usize, bound: Bound)
        requires
            old(self).wf(),
            var_i < old(self).dim(),
        ensures
            final(self).wf(),
            final(self).dim() == old(self).dim(),
            forall|v: Seq<int>|
                #[trigger] final(self).satisfies(v) == (old(self).satisfies(v) && meets(
                    bound,
                    v[var_i as int] - v[0],
                )),
    {
        self.add(var_i, 0, bound)
    }

    /// Restricts clock `var_i` to values whose negation meets the negated `bound`: at least
    /// `n` for `Large(n)`, more than `n` for `Strict(n)`.
    pub fn set_lower_bound(&mut self, var_i: usize, bound: Bound)
        requires
            old(self).wf(),
            var_i < old(self).dim(),
            bound != Bound::Large(i32::MIN),
            bound != Bound::Strict(i32::MIN),
        ensures
            final(self).wf(),
            final(self).dim() == old(self).dim(),
            forall|v: Seq<int>|
                #[trigger] final(self).satisfies(v) == (old(self).satisfies(v) && meets(
                    lower(bound),
                    v[0] - v[var_i as int],
                )),
    {
        self.add(0, var_i, bound.negated())
    }

    /// The same as `set_upper_bound`.
    pub fn add_sup(&mut self, var_i: usize, constraint: Bound)
        requires
            old(self).wf(),
            var_i < old(self).dim(),
        ensures
            final(self).wf(),
            final(self).dim() == old(self).dim(),
            forall|v: Seq<int>|
                #[trigger] final(self).satisfies(v) == (old(self).satisfies(v) && meets(
                    constraint,
                    v[var_i as int] - v[0],
                )),
    {
        self.add(var_i, 0, constraint)
    }

    /// The same as `set_lower_bound`.
    pub fn add_inf(&mut self, var_i: usize, constraint: Bound)
        requires
            old(self).wf(),
            var_i < old(self).dim(),
            constraint != Bound::Large(i32::MIN),
            constraint != Bound::Strict(i32::MIN),
        ensures
            final(self).wf(),
            final(self).dim() == old(self).dim(),
            forall|v: Seq<int>|
                #[trigger] final(self).satisfies(v) == (old(self).satisfies(v) && meets(
                    lower(constraint),
                    v[0] - v[var_i as int],
                )),
    {
        self.add(0, var_i, constraint.negated())
    }

    /// Frees clock `var_i`: its bound against each other clock becomes that of the zero
    /// clock, and nothing bounds it from above any more.
    pub fn free_clock(&mut self, var_i: usize)
        requires
            old(self).wf(),
            var_i < old(self).dim(),
        ensures
            final(self).wf(),
            final(self).dim() == old(self).dim(),
            forall|a: int, b: int|
                0 <= a < final(self).dim() && 0 <= b < final(self).dim() ==> (#[trigger] final(self).bound(a, b)) == if b == var_i && a != var_i {
                    old(self).bound(a, 0)
                } else if a == var_i && b != var_i {
                    Bound::Infinite
                } else {
                    old(self).bound(a, b)
                },
    {
        let ghost z0 = *self;
        let n = self.size;
        let mut i: usize = 0;
        while i < n
            invariant
                n == self.dim(),
                n == z0.dim(),
                self.wf(),
                var_i < n,
                i <= n,
                forall|a: int, b: int|
                    0 <= a < n && 0 <= b < n ==> #[trigger] self.bound(a, b) == if b == var_i && a
                        != var_i && a < i {
                        z0.bound(a, 0)
                    } else if a == var_i && b != var_i && b < i {
                        Bound::Infinite
                    } else {
                        z0.bound(a, b)
                    },
            decreases n - i,
        {
            if i != var_i {
                let b = self.get(i, 0);
                self.set(i, var_i, b);
                self.set(var_i, i, Bound::Infinite);
            }
            i += 1;
        }
    }

    /// The matrix with the upper bounds of the clocks removed: every valuation that some
    /// waiting leads to. An empty matrix is given back as it is.
    pub fn up(&self) -> (r: DBM)
        requires
            self.wf(),
        ensures
            r.wf(),
            r.dim() == self.dim(),
            below(self.bound(0, 0), Bound::Large(0)) ==> r.same_bounds(self),
            !below(self.bound(0, 0), Bound::Large(0)) ==> forall|a: int, b: int|
                0 <= a < r.dim() && 0 <= b < r.dim() ==> #[trigger] r.bound(a, b) == if b == 0 && a
                    >= 1 {
                    Bound::Infinite
                } else {
                    self.bound(a, b)
                },
    {
        let mut res = self.copy();
        if res.is_empty() {
            return res;
        }
        let n = res.size;
        let mut i: usize = 1;
        while i < n
            invariant
                n == res.dim(),
                n == self.dim(),
                res.wf(),
                1 <= i <= n,
                forall|a: int, b: int|
                    0 <= a < n && 0 <= b < n ==> #[trigger] res.bound(a, b) == if b == 0 && 1 <= a
                        < i {
                        Bound::Infinite
                    } else {
                        self.bound(a, b)
                    },
            decreases n - i,
        {
            res.set(i, 0, Bound::Infinite);
            i += 1;
        }
        res
    }
}

/// The bound that a lower bound gives on the negated clock: `Large(n)` and `Strict(n)` turned
/// into `Large(-n)` and `Strict(-n)`, infinity and minus infinity trading places.
pub open spec fn lower(b: Bound) -> Bound {
    match b {
        Bound::Large(n) => Bound::Large(-n as i32),
        Bound::Strict(n) => Bound::Strict(-n as i32),
        Bound::Infinite => Bound::MinusInfinite,
        Bound::MinusInfinite => Bound::Infinite,
    }
}

impl DBM {
    /// Whether the two matrices have the same size and the same bounds.
    pub(crate) fn same_as(&self, other: &DBM) -> (r: bool)
        requires
            self.wf(),
            other.wf(),
        ensures
            r == (self.dim() == other.dim() && forall|a: int, b: int|
                0 <= a < self.dim() && 0 <= b < self.dim() ==> #[trigger] self.bound(a, b) == other.bound(
                    a,
                    b,
                )),
    {
        if self.size != other.size {
            return false;
        }
        let n = self.size;
        let mut a: usize = 0;
        while a < n
            invariant
                n == self.dim(),
                n == other.dim(),
                self.wf(),
                other.wf(),
                a <= n,
                forall|x: int, y: int|
                    0 <= x < a && 0 <= y < n ==> #[trigger] self.bound(x, y) == other.bound(x, y),
            decreases n - a,
        {
            let mut b: usize = 0;
            while b < n
                invariant
                    n == self.dim(),
                    n == other.dim(),
                    self.wf(),
                    other.wf(),
                    a < n,
                    b <= n,
                    forall|x: int, y: int|
                        0 <= x < n && 0 <= y < n && (x < a || (x == a && y < b)) ==> #[trigger] self.bound(x, y)
                            == other.bound(x, y),
                decreases n - b,
            {
                if self.get(a, b) != other.get(a, b) {
                    return false;
                }
                b += 1;
            }
            a += 1;
        }
        true
    }
}

/// The bound at `(a, b)` of a matrix of `old` clocks grown by new clocks bounded by nothing
/// but themselves.
pub open spec fn extended_bound(d: DBM, a: int, b: int) -> Bound {
    if a < d.dim() && b < d.dim() {
        d.bound(a, b)
    } else if a == b {
        Bound::Large(0)
    } else {
        Bound::Infinite
    }
}

/// The bound at `(a, b)` of the matrix with clock `k` removed.
pub open spec fn removed_bound(d: DBM, k: int, a: int, b: int) -> Bound {
    d.bound(if a < k { a } else { a + 1 }, if b < k { b } else { b + 1 })
}

impl DBM {
    /// The matrix with `nvars` more clocks, bounded by nothing but themselves.
    pub fn extend(self, nvars: usize) -> (r: DBM)
        requires
            self.wf(),
            (self.dim() + nvars) * (self.dim() + nvars) <= usize::MAX,
        ensures
            r.wf(),
            r.dim() == self.dim() + nvars,
            forall|a: int, b: int|
                0 <= a < r.dim() && 0 <= b < r.dim() ==> #[trigger] r.bound(a, b) == extended_bound(self, a, b),
    {
        let before = self.size;
        assert(before + nvars <= usize::MAX) by (nonlinear_arith)
            requires
                (before + nvars) * (before + nvars) <= usize::MAX,
                before >= 1,
        ;
        let mut r = DBM::new(before + nvars - 1);
        let mut a: usize = 0;
        while a < before
            invariant
                self.wf(),
                before == self.dim(),
                r.wf(),
                r.dim() == before + nvars,
                a <= before,
                forall|x: int, y: int|
                    0 <= x < r.dim() && 0 <= y < r.dim() ==> #[trigger] r.bound(x, y) == if x < a && y
                        < before {
                        self.bound(x, y)
                    } else if x == y {
                        Bound::Large(0)
                    } else {
                        Bound::Infinite
                    },
            decreases before - a,
        {
            let mut b: usize = 0;
            while b < before
                invariant
                    self.wf(),
                    before == self.dim(),
                    r.wf(),
                    r.dim() == before + nvars,
                    a < before,
                    b <= before,
                    forall|x: int, y: int|
                        0 <= x < r.dim() && 0 <= y < r.dim() ==> #[trigger] r.bound(x, y) == if (x < a && y
                            < before) || (x == a && y < b) {
                            self.bound(x, y)
                        } else if x == y {
                            Bound::Large(0)
                        } else {
                            Bound::Infinite
                        },
                decreases before - b,
            {
                r.set(a, b, self.get(a, b));
                b += 1;
            }
            a += 1;
        }
        r
    }

    /// The matrix with `nvars` clocks at least, grown as `extend` does when it has fewer.
    pub fn extend_to(self, nvars: usize) -> (r: DBM)
        requires
            self.wf(),
            (nvars + 1) * (nvars + 1) <= usize::MAX,
        ensures
            r.wf(),
            self.dim() - 1 >= nvars ==> r.same_bounds(&self),
            self.dim() - 1 < nvars ==> r.dim() == nvars + 1 && forall|a: int, b: int|
                0 <= a < r.dim() && 0 <= b < r.dim() ==> #[trigger] r.bound(a, b) == extended_bound(self, a, b),
    {
        let vars = self.vars_count();
        if vars >= nvars {
            return self;
        }
        let new_vars = nvars - vars;
        self.extend(new_vars)
    }

    /// Grows the matrix by `nvars` clocks, bounded by nothing but themselves.
    pub fn extend_mut(&mut self, nvars: usize)
        requires
            old(self).wf(),
            (old(self).dim() + nvars) * (old(self).dim() + nvars) <= usize::MAX,
        ensures
            final(self).wf(),
            final(self).dim() == old(self).dim() + nvars,
            forall|a: int, b: int|
                0 <= a < final(self).dim() && 0 <= b < final(self).dim() ==> #[trigger] final(self).bound(a, b)
                    == extended_bound(*old(self), a, b),
    {
        let mut current = DBM { size: 1, cells: BoundMatrix::filled(1, Bound::Large(0)) };
        std::mem::swap(&mut current, self);
        *self = current.extend(nvars);
    }

    /// Grows the matrix to `nvars` clocks when it has fewer.
    pub fn extend_to_mut(&mut self, nvars: usize)
        requires
            old(self).wf(),
            (nvars + 1) * (nvars + 1) <= usize::MAX,
        ensures
            final(self).wf(),
            old(self).dim() - 1 >= nvars ==> final(self).same_bounds(&*old(self)),
            old(self).dim() - 1 < nvars ==> final(self).dim() == nvars + 1 && forall|a: int, b: int|
                0 <= a < final(self).dim() && 0 <= b < final(self).dim() ==> #[trigger] final(self).bound(
                    a,
                    b,
                ) == extended_bound(*old(self), a, b),
    {
        let vars = self.vars_count();
        if vars < nvars {
            let new_vars = nvars - vars;
            self.extend_mut(new_vars);
        }
    }

    /// Removes clock `var_i` with its row and column; the clocks after it move down by one.
    pub fn remove_var(&mut self, var_i: usize)
        requires
            old(self).wf(),
            var_i < old(self).dim(),
            old(self).dim() >= 2,
        ensures
            final(self).wf(),
            final(self).dim() == old(self).dim() - 1,
            forall|a: int, b: int|
                0 <= a < final(self).dim() && 0 <= b < final(self).dim() ==> #[trigger] final(self).bound(a, b)
                    == removed_bound(*old(self), var_i as int, a, b),
    {
        let n = self.size - 1;
        proof {
            assert(n * n <= self.size * self.size) by (nonlinear_arith)
                requires
                    n + 1 == self.size,
            ;
        }
        let mut r = DBM::new(n - 1);
        let mut a: usize = 0;
        while a < n
            invariant
                self.wf(),
                n + 1 == self.dim(),
                var_i <= n,
                r.wf(),
                r.dim() == n,
                a <= n,
                forall|x: int, y: int|
                    0 <= x < r.dim() && 0 <= y < r.dim() ==> #[trigger] r.bound(x, y) == if x < a {
                        removed_bound(*self, var_i as int, x, y)
                    } else if x == y {
                        Bound::Large(0)
                    } else {
                        Bound::Infinite
                    },
            decreases n - a,
        {
            let mut b: usize = 0;
            while b < n
                invariant
                    self.wf(),
                    n + 1 == self.dim(),
                    var_i <= n,
                    r.wf(),
                    r.dim() == n,
                    a < n,
                    b <= n,
                    forall|x: int, y: int|
                        0 <= x < r.dim() && 0 <= y < r.dim() ==> #[trigger] r.bound(x, y) == if x < a || (x
                            == a && y < b) {
                            removed_bound(*self, var_i as int, x, y)
                        } else if x == y {
                            Bound::Large(0)
                        } else {
                            Bound::Infinite
                        },
                decreases n - b,
            {
                let sa = if a < var_i {
                    a
                } else {
                    a + 1
                };
                let sb = if b < var_i {
                    b
                } else {
                    b + 1
                };
                r.set(a, b, self.get(sa, sb));
                b += 1;
            }
            a += 1;
        }
        *self = r;
    }
}

/// The tightest of the bounds `(i, 0)` for `i < k`.
pub open spec fn column_min(d: DBM, k: int) -> Bound
    decreases k,
{
    if k <= 1 {
        d.bound(0, 0)
    } else {
        bound_min(column_min(d, k - 1), d.bound(k - 1, 0))
    }
}

impl DBM {
    /// The matrix with the lower bounds of the clocks relaxed by the largest delay that every
    /// clock allows: the bound `(0, i)` becomes the tighter of `<= 0` and that bound plus the
    /// tightest bound of column `0`. An empty matrix is given back as it is.
    pub fn down(&self) -> (r: DBM)
        requires
            self.wf(),
            forall|i: int|
                1 <= i < self.dim() ==> #[trigger] add_bounds(self.bound(0, i), column_min(*self, self.dim() as int))
                    is Some,
        ensures
            r.wf(),
            r.dim() == self.dim(),
            below(self.bound(0, 0), Bound::Large(0)) ==> r.same_bounds(self),
            !below(self.bound(0, 0), Bound::Large(0)) ==> forall|a: int, b: int|
                0 <= a < r.dim() && 0 <= b < r.dim() ==> #[trigger] r.bound(a, b) == if a == 0 && b >= 1 {
                    bound_min(
                        Bound::Large(0),
                        add_bounds(self.bound(0, b), column_min(*self, self.dim() as int))->Some_0,
                    )
                } else {
                    self.bound(a, b)
                },
    {
        let mut res = self.copy();
        if res.is_empty() {
            return res;
        }
        let n = self.size;
        let mut max_delta = self.get(0, 0);
        let mut k: usize = 1;
        while k < n
            invariant
                self.wf(),
                n == self.dim(),
                1 <= k <= n,
                max_delta == column_min(*self, k as int),
            decreases n - k,
        {
            max_delta = max_delta.min(self.get(k, 0));
            k += 1;
        }
        let mut i: usize = 1;
        while i < n
            invariant
                self.wf(),
                n == self.dim(),
                max_delta == column_min(*self, n as int),
                forall|j: int|
                    1 <= j < n ==> #[trigger] add_bounds(self.bound(0, j), column_min(*self, n as int)) is Some,
                res.wf(),
                res.dim() == n,
                1 <= i <= n,
                forall|a: int, b: int|
                    0 <= a < n && 0 <= b < n ==> #[trigger] res.bound(a, b) == if a == 0 && 1 <= b < i {
                        bound_min(Bound::Large(0), add_bounds(self.bound(0, b), column_min(*self, n as int))->Some_0)
                    } else {
                        self.bound(a, b)
                    },
            decreases n - i,
        {
            let sum = self.get(0, i).plus(max_delta);
            proof {
                assert(add_bounds(self.bound(0, i as int), column_min(*self, n as int)) is Some);
            }
            let s = sum.unwrap();
            res.set(0, i, Bound::zero().min(s));
            i += 1;
        }
        res
    }
}

} // verus!
