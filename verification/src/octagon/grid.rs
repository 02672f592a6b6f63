//! The mathematical model of bound matrices and of closing them.
use vstd::prelude::*;
use crate::octagon::arith;
use crate::octagon::arith::{DBM_FLOOR, DBM_INF};

verus! {

/// A square matrix of stored bounds, kept row by row.
#[verifier::ext_equal]
pub struct Grid {
    pub n: int,
    pub cells: Seq<i128>,
}

/// A matrix, and whether it can still have a solution.
#[verifier::ext_equal]
pub struct Verdict {
    pub grid: Grid,
    pub ok: bool,
}

/// The smaller of two integers.
pub open spec fn min2(a: int, b: int) -> int {
    if b < a {
        b
    } else {
        a
    }
}

/// The value of node `i` at the point `v`: the variable, or its negation.
pub open spec fn node(v: Seq<int>, i: int) -> int {
    if i % 2 == 0 {
        v[i / 2]
    } else {
        -v[i / 2]
    }
}

impl Grid {
    // -----------------------------------------------------------------------
    // Cells
    // -----------------------------------------------------------------------

    /// The cell in row `i` and column `j`.
    pub open spec fn at(self, i: int, j: int) -> int {
        self.cells[i * self.n + j] as int
    }

    /// The matrix with the cell `(i, j)` replaced.
    pub open spec fn put(self, i: int, j: int, v: int) -> Grid {
        Grid { n: self.n, cells: self.cells.update(i * self.n + j, v as i128) }
    }

    /// Whether `(i, j)` is a cell.
    pub open spec fn has(self, i: int, j: int) -> bool {
        0 <= i < self.n && 0 <= j < self.n
    }

    /// A square matrix over pairs of nodes, without a cell above `DBM_INF`.
    pub open spec fn wf(self) -> bool {
        &&& self.n >= 0
        &&& self.n % 2 == 0
        &&& self.cells.len() == self.n * self.n
        &&& forall|t: int| 0 <= t < self.cells.len() ==> #[trigger] self.cells[t] <= DBM_INF
    }

    /// No cell holds the minus infinity marker.
    pub open spec fn no_min(self) -> bool {
        forall|i: int, j: int| self.has(i, j) ==> #[trigger] self.at(i, j) != i128::MIN
    }

    /// No cell is below the lowest bound that closing writes.
    pub open spec fn floored(self) -> bool {
        forall|i: int, j: int| self.has(i, j) ==> #[trigger] self.at(i, j) >= DBM_FLOOR
    }

    /// `self` bounds at least as tightly as `other` in every cell.
    pub open spec fn below(self, other: Grid) -> bool {
        &&& self.n == other.n
        &&& forall|i: int, j: int| self.has(i, j) ==> #[trigger] self.at(i, j) <= other.at(i, j)
    }

    /// The rational point with coordinates `v[x] / d` meets every bound.  With
    /// `d == 1` it is an integer point.
    pub open spec fn admits(self, v: Seq<int>, d: int) -> bool {
        forall|i: int, j: int|
            self.has(i, j) && #[trigger] self.at(i, j) != DBM_INF ==> 2 * (node(v, i) - node(v, j))
                <= d * self.at(i, j)
    }

    // -----------------------------------------------------------------------
    // Strong closure, as a property
    // -----------------------------------------------------------------------

    /// The bound that the self-dual cells of `i` and `j` imply for the cell
    /// `(i, j)`: half of their sum, rounded up, or no bound.
    pub open spec fn half_sum(self, i: int, j: int) -> int {
        let s = arith::oplus(self.at(i, arith::mirror(i)), self.at(arith::mirror(j), j));
        if s == DBM_INF {
            DBM_INF as int
        } else {
            (s + 1) / 2
        }
    }

    /// Each cell equals the mirrored one.
    pub open spec fn coherent(self) -> bool {
        forall|i: int, j: int| #[trigger]
            self.has(i, j) ==> self.at(i, j) == self.at(arith::mirror(j), arith::mirror(i))
    }

    /// No cell exceeds the sum along a path of two edges.
    pub open spec fn triangle(self) -> bool {
        forall|i: int, k: int, j: int|
            #![trigger self.at(i, k), self.at(k, j)]
            self.has(i, k) && self.has(k, j) ==> self.at(i, j) <= arith::oplus(
                self.at(i, k),
                self.at(k, j),
            )
    }

    /// No cell exceeds its half-sum bound.
    pub open spec fn half_bounded(self) -> bool {
        forall|i: int, j: int| self.has(i, j) ==> self.at(i, j) <= #[trigger] self.half_sum(i, j)
    }

    /// The diagonal is zero.
    pub open spec fn zero_diagonal(self) -> bool {
        forall|i: int| 0 <= i < self.n ==> #[trigger] self.at(i, i) == 0
    }

    /// Strong closure: coherence, the triangle inequality, the half-sum bound
    /// and a zero diagonal.
    pub open spec fn strongly_closed(self) -> bool {
        &&& self.zero_diagonal()
        &&& self.coherent()
        &&& self.half_bounded()
        &&& self.triangle()
    }

    /// Every finite bound of a single variable is stored as a multiple of
    /// four: the integer normal form.
    pub open spec fn rounded(self) -> bool {
        forall|i: int|
            0 <= i < self.n ==> #[trigger] self.at(i, arith::mirror(i)) == DBM_INF || self.at(
                i,
                arith::mirror(i),
            ) % 4 == 0
    }

    // -----------------------------------------------------------------------
    // Closing, as a function
    // -----------------------------------------------------------------------

    /// The tightest bound on the cell `(i, j)` along the direct edge and the
    /// four paths through `k` and its mirror.
    pub open spec fn through(self, k: int, i: int, j: int) -> int {
        let kb = arith::mirror(k);
        let ik = self.at(i, k);
        let kj = self.at(k, j);
        let ikb = self.at(i, kb);
        let kbj = self.at(kb, j);
        let a = min2(self.at(i, j), arith::oplus(ik, kj));
        let b = min2(a, arith::oplus(ikb, kbj));
        let c = min2(b, arith::oplus(arith::oplus(ik, self.at(k, kb)), kbj));
        min2(c, arith::oplus(arith::oplus(ikb, self.at(kb, k)), kj))
    }

    /// The first `t` cells, in row order, each replaced in place by its
    /// tightest bound through `k` and its mirror.
    pub open spec fn relaxed(self, k: int, t: int) -> Grid
        decreases t,
    {
        if t <= 0 {
            self
        } else {
            let p = self.relaxed(k, t - 1);
            let i = (t - 1) / self.n;
            let j = (t - 1) % self.n;
            p.put(i, j, p.through(k, i, j))
        }
    }

    /// The first `t` cells, in row order, each lowered in place to its
    /// half-sum bound.
    pub open spec fn halved(self, t: int) -> Grid
        decreases t,
    {
        if t <= 0 {
            self
        } else {
            let p = self.halved(t - 1);
            let i = (t - 1) / self.n;
            let j = (t - 1) % self.n;
            p.put(i, j, min2(p.at(i, j), p.half_sum(i, j)))
        }
    }

    /// All the cells relaxed through `k` and its mirror.
    pub open spec fn relaxed_all(self, k: int) -> Grid {
        self.relaxed(k, self.n * self.n)
    }

    /// All the cells lowered to their half-sum bounds.
    pub open spec fn halved_all(self) -> Grid {
        self.halved(self.n * self.n)
    }

    /// The matrix after the first `p` pivot pairs: for each, every cell
    /// relaxed through the pair, then every cell lowered to its half-sum.
    pub open spec fn pivoted(self, p: int) -> Grid
        decreases p,
    {
        if p <= 0 {
            self
        } else {
            self.pivoted(p - 1).relaxed_all(2 * (p - 1)).halved_all()
        }
    }

    /// One strong closure pass over all the pivot pairs.
    pub open spec fn pass(self) -> Grid {
        self.pivoted(self.n / 2)
    }

    /// The self-dual cell of each of the first `e` nodes rounded down to a
    /// multiple of four.
    pub open spec fn tightened(self, e: int) -> Grid
        decreases e,
    {
        if e <= 0 {
            self
        } else {
            let p = self.tightened(e - 1);
            let s = p.at(e - 1, arith::mirror(e - 1));
            if s != DBM_INF && s % 4 != 0 {
                p.put(e - 1, arith::mirror(e - 1), arith::spec_floor4(s))
            } else {
                p
            }
        }
    }

    /// No variable has a lower bound above its upper bound.
    pub open spec fn intervals_meet(self) -> bool {
        forall|x: int|
            0 <= x < self.n / 2 ==> #[trigger] arith::oplus(
                self.at(2 * x, 2 * x + 1),
                self.at(2 * x + 1, 2 * x),
            ) >= 0
    }

    /// One integer tightening round on a closed matrix.
    pub open spec fn tight_round(self) -> Verdict {
        let t = self.tightened(self.n);
        if t.intervals_meet() {
            Verdict { grid: t.halved_all(), ok: true }
        } else {
            Verdict { grid: t, ok: false }
        }
    }

    /// A pass, and the tightening round after it where integers are meant.
    pub open spec fn round(self, exact: bool) -> Verdict {
        if exact {
            self.pass().tight_round()
        } else {
            Verdict { grid: self.pass(), ok: true }
        }
    }

    /// Each cell lowered to the mirrored one where that is tighter.
    pub open spec fn mirrored(self) -> Grid {
        Grid {
            n: self.n,
            cells: Seq::new(
                self.cells.len(),
                |t: int|
                    min2(
                        self.cells[t] as int,
                        self.at(arith::mirror(t % self.n), arith::mirror(t / self.n)),
                    ) as i128,
            ),
        }
    }

    /// The rounds of closing: a second one where the first left the matrix
    /// incoherent.
    pub open spec fn rounds(self, exact: bool) -> Verdict {
        let first = self.round(exact);
        if !first.ok || first.grid.coherent() {
            first
        } else {
            first.grid.mirrored().round(exact)
        }
    }

    /// The first node from `i` on with a negative diagonal cell, or `n`.
    pub open spec fn first_negative(self, i: int) -> int
        decreases self.n - i,
    {
        if i >= self.n {
            self.n
        } else if self.at(i, i) < 0 {
            i
        } else {
            self.first_negative(i + 1)
        }
    }

    /// The first `e` diagonal cells set to zero.
    pub open spec fn zeroed(self, e: int) -> Grid
        decreases e,
    {
        if e <= 0 {
            self
        } else {
            self.zeroed(e - 1).put(e - 1, e - 1, 0)
        }
    }

    /// Each minus infinity marker replaced by the "no bound" marker.
    pub open spec fn unmarked(self) -> Grid {
        Grid {
            n: self.n,
            cells: Seq::new(
                self.cells.len(),
                |t: int|
                    if self.cells[t] == i128::MIN {
                        DBM_INF
                    } else {
                        self.cells[t]
                    },
            ),
        }
    }

    /// Closing a matrix: the rounds, the test of the diagonal, and the
    /// clean-up.  `ok` is false where the bounds contradict each other.
    pub open spec fn closed_form(self, exact: bool) -> Verdict {
        let r = self.rounds(exact);
        if !r.ok {
            r
        } else {
            let e = r.grid.first_negative(0);
            if e < self.n {
                Verdict { grid: r.grid.zeroed(e), ok: false }
            } else {
                Verdict { grid: r.grid.zeroed(self.n).unmarked(), ok: true }
            }
        }
    }

    // -----------------------------------------------------------------------
    // Reading and writing cells
    // -----------------------------------------------------------------------

    pub proof fn lemma_index(n: int, i: int, j: int)
        requires
            0 <= i < n,
            0 <= j < n,
        ensures
            0 <= i * n + j < n * n,
            (i * n + j) / n == i,
            (i * n + j) % n == j,
            i * n >= 0,
            (i + 1) * n == i * n + n,
    {
        assert(0 <= i * n) by (nonlinear_arith)
            requires
                0 <= i,
                0 < n,
        ;
        assert(i * n + j < n * n) by (nonlinear_arith)
            requires
                0 <= i < n,
                0 <= j < n,
        ;
        assert((i + 1) * n == i * n + n) by (nonlinear_arith);
        vstd::arithmetic::div_mod::lemma_fundamental_div_mod_converse(i * n + j, n, i, j);
    }

    pub proof fn lemma_unindex(n: int, t: int)
        requires
            0 <= t < n * n,
            0 <= n,
        ensures
            n > 0,
            0 <= t / n < n,
            0 <= t % n < n,
            (t / n) * n + t % n == t,
    {
        assert(n > 0) by (nonlinear_arith)
            requires
                0 <= t < n * n,
                0 <= n,
        ;
        vstd::arithmetic::div_mod::lemma_fundamental_div_mod(t, n);
        assert(n * (t / n) == (t / n) * n) by (nonlinear_arith);
        assert(t / n < n) by (nonlinear_arith)
            requires
                0 <= t < n * n,
                n > 0,
                n * (t / n) + t % n == t,
                0 <= t % n,
        ;
        assert(t / n >= 0) by (nonlinear_arith)
            requires
                0 <= t,
                n > 0,
        ;
    }

    /// Reading after one replacement.
    pub proof fn lemma_put(self, i: int, j: int, v: int)
        requires
            self.wf(),
            self.has(i, j),
            i128::MIN <= v <= DBM_INF,
        ensures
            self.put(i, j, v).wf(),
            self.put(i, j, v).n == self.n,
            self.put(i, j, v).at(i, j) == v,
            forall|a: int, b: int|
                self.has(a, b) && !(a == i && b == j) ==> #[trigger] self.put(i, j, v).at(a, b)
                    == self.at(a, b),
    {
        let n = self.n;
        Grid::lemma_index(n, i, j);
        assert forall|a: int, b: int| self.has(a, b) && !(a == i && b == j) implies
            #[trigger] self.put(i, j, v).at(a, b) == self.at(a, b) by {
            Grid::lemma_index(n, a, b);
            if a * n + b == i * n + j {
                assert(a == i && b == j);
            }
        }
    }

    /// Every cell lies between the two markers.
    pub proof fn lemma_cell(self, i: int, j: int)
        requires
            self.wf(),
            self.has(i, j),
        ensures
            i128::MIN <= self.at(i, j) <= DBM_INF,
    {
        Grid::lemma_index(self.n, i, j);
    }

    /// Matrices with equal cells are equal.
    pub proof fn lemma_ext(self, other: Grid)
        requires
            self.wf(),
            other.wf(),
            self.n == other.n,
            forall|i: int, j: int| self.has(i, j) ==> #[trigger] self.at(i, j) == other.at(i, j),
        ensures
            self == other,
    {
        assert forall|t: int| 0 <= t < self.cells.len() implies #[trigger] self.cells[t]
            == other.cells[t] by {
            Grid::lemma_unindex(self.n, t);
            assert(self.at(t / self.n, t % self.n) == other.at(t / self.n, t % self.n));
        }
        assert(self.cells =~= other.cells);
    }

    /// The cells of a mirrored matrix.
    pub proof fn lemma_mirrored(self)
        requires
            self.wf(),
        ensures
            self.mirrored().wf(),
            forall|a: int, b: int|
                self.has(a, b) ==> #[trigger] self.mirrored().at(a, b) == min2(
                    self.at(a, b),
                    self.at(arith::mirror(b), arith::mirror(a)),
                ),
            self.mirrored().coherent(),
            self.coherent() ==> self.mirrored() == self,
    {
        let g = self.mirrored();
        let n = self.n;
        assert forall|t: int| 0 <= t < g.cells.len() implies #[trigger] g.cells[t] <= DBM_INF by {
            Grid::lemma_unindex(n, t);
            self.lemma_cell(arith::mirror(t % n), arith::mirror(t / n));
        }
        assert forall|a: int, b: int| self.has(a, b) implies #[trigger] g.at(a, b) == min2(
            self.at(a, b),
            self.at(arith::mirror(b), arith::mirror(a)),
        ) by {
            Grid::lemma_index(n, a, b);
            self.lemma_cell(a, b);
            self.lemma_cell(arith::mirror(b), arith::mirror(a));
        }
        assert forall|a: int, b: int| #[trigger] g.has(a, b) implies g.at(a, b) == g.at(
            arith::mirror(b),
            arith::mirror(a),
        ) by {
            assert(arith::mirror(arith::mirror(a)) == a && arith::mirror(arith::mirror(b)) == b);
        }
        if self.coherent() {
            assert forall|a: int, b: int| g.has(a, b) implies #[trigger] g.at(a, b) == self.at(
                a,
                b,
            ) by {
                assert(self.has(a, b));
            }
            g.lemma_ext(self);
        }
    }

    /// The first negative diagonal cell is what its name says.
    pub proof fn lemma_first_negative(self, i: int)
        requires
            0 <= i <= self.n,
        ensures
            i <= self.first_negative(i) <= self.n,
            forall|a: int| i <= a < self.first_negative(i) ==> #[trigger] self.at(a, a) >= 0,
            self.first_negative(i) < self.n ==> self.at(
                self.first_negative(i),
                self.first_negative(i),
            ) < 0,
        decreases self.n - i,
    {
        if i < self.n && self.at(i, i) >= 0 {
            self.lemma_first_negative(i + 1);
        }
    }
}

} // verus!
