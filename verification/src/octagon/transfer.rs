//! What the lattice and transfer operations do to the solutions.
use vstd::prelude::*;
use crate::octagon::arith;
use crate::octagon::arith::{DBM_FLOOR, DBM_INF};
use crate::octagon::dbm;
use crate::octagon::dbm::Oct;
use crate::octagon::expr::OctExpr;
use crate::octagon::grid;
use crate::octagon::grid::Grid;
use crate::octagon::sound;

verus! {

impl Grid {
    // -----------------------------------------------------------------------
    // Cells of the operations
    // -----------------------------------------------------------------------

    pub proof fn lemma_min_with(self, other: Grid)
        requires
            self.wf(),
            other.wf(),
            self.n == other.n,
        ensures
            self.min_with(other).wf(),
            forall|i: int, j: int|
                self.has(i, j) ==> #[trigger] self.min_with(other).at(i, j) == grid::min2(
                    self.at(i, j),
                    other.at(i, j),
                ),
    {
        assert forall|i: int, j: int| self.has(i, j) implies #[trigger] self.min_with(other).at(
            i,
            j,
        ) == grid::min2(self.at(i, j), other.at(i, j)) by {
            Grid::lemma_index(self.n, i, j);
        }
    }

    pub proof fn lemma_max_with(self, other: Grid)
        requires
            self.wf(),
            other.wf(),
            self.n == other.n,
        ensures
            self.max_with(other).wf(),
            forall|i: int, j: int|
                self.has(i, j) ==> #[trigger] self.max_with(other).at(i, j) == (if i == j {
                    0
                } else if other.at(i, j) > self.at(i, j) {
                    other.at(i, j)
                } else {
                    self.at(i, j)
                }),
    {
        assert forall|i: int, j: int| self.has(i, j) implies #[trigger] self.max_with(other).at(
            i,
            j,
        ) == (if i == j {
            0
        } else if other.at(i, j) > self.at(i, j) {
            other.at(i, j)
        } else {
            self.at(i, j)
        }) by {
            Grid::lemma_index(self.n, i, j);
        }
    }

    pub proof fn lemma_widened(self, other: Grid)
        requires
            self.wf(),
            other.wf(),
            self.n == other.n,
        ensures
            self.widened(other).wf(),
            forall|i: int, j: int|
                self.has(i, j) ==> #[trigger] self.widened(other).at(i, j) == (if other.at(i, j)
                    <= self.at(i, j) {
                    self.at(i, j)
                } else {
                    DBM_INF as int
                }),
    {
        assert forall|i: int, j: int| self.has(i, j) implies #[trigger] self.widened(other).at(
            i,
            j,
        ) == (if other.at(i, j) <= self.at(i, j) {
            self.at(i, j)
        } else {
            DBM_INF as int
        }) by {
            Grid::lemma_index(self.n, i, j);
        }
    }

    pub proof fn lemma_dropped(self, x: int)
        requires
            self.wf(),
        ensures
            self.dropped(x).wf(),
            forall|i: int, j: int|
                self.has(i, j) ==> #[trigger] self.dropped(x).at(i, j) == (if i / 2 == x || j / 2
                    == x {
                    if i == j {
                        0
                    } else {
                        DBM_INF as int
                    }
                } else {
                    self.at(i, j)
                }),
    {
        assert forall|i: int, j: int| self.has(i, j) implies #[trigger] self.dropped(x).at(i, j)
            == (if i / 2 == x || j / 2 == x {
            if i == j {
                0
            } else {
                DBM_INF as int
            }
        } else {
            self.at(i, j)
        }) by {
            Grid::lemma_index(self.n, i, j);
        }
    }

    pub proof fn lemma_lowered(self, i: int, j: int, s: int)
        requires
            self.wf(),
            self.has(i, j),
            i128::MIN <= s <= DBM_INF,
        ensures
            self.lowered(i, j, s).wf(),
            self.lowered(i, j, s).n == self.n,
            self.lowered(i, j, s).at(i, j) == grid::min2(self.at(i, j), s),
            forall|a: int, b: int|
                self.has(a, b) && !(a == i && b == j) ==> #[trigger] self.lowered(i, j, s).at(a, b)
                    == self.at(a, b),
    {
        self.lemma_cell(i, j);
        self.lemma_put(i, j, grid::min2(self.at(i, j), s));
    }

    pub proof fn lemma_bounded(self, i: int, j: int, c: int)
        requires
            self.wf(),
            self.has(i, j),
        ensures
            self.bounded(i, j, c).wf(),
            self.bounded(i, j, c).n == self.n,
            self.bounded(i, j, c).below(self),
            self.bounded(i, j, c).at(i, j) <= arith::spec_sat_mul2_bound(c),
            self.no_min() ==> self.bounded(i, j, c).no_min(),
            forall|a: int, b: int|
                self.has(a, b) ==> #[trigger] self.bounded(i, j, c).at(a, b) == (if (a == i && b
                    == j) || (a == arith::mirror(j) && b == arith::mirror(i)) {
                    grid::min2(self.at(a, b), arith::spec_sat_mul2_bound(c))
                } else {
                    self.at(a, b)
                }),
    {
        let s = arith::spec_sat_mul2_bound(c);
        let (ib, jb) = (arith::mirror(i), arith::mirror(j));
        self.lemma_lowered(i, j, s);
        let g = self.lowered(i, j, s);
        assert(g.has(jb, ib));
        g.lemma_lowered(jb, ib, s);
        assert forall|a: int, b: int| self.has(a, b) implies #[trigger] self.bounded(i, j, c).at(
            a,
            b,
        ) == (if (a == i && b == j) || (a == jb && b == ib) {
            grid::min2(self.at(a, b), s)
        } else {
            self.at(a, b)
        }) by {
            assert(g.has(a, b));
        }
    }

    // -----------------------------------------------------------------------
    // Lattice operations
    // -----------------------------------------------------------------------

    /// The points of a meet are the common points.
    pub proof fn law_meet_is_intersection(self, other: Grid, v: Seq<int>, d: int)
        requires
            self.wf(),
            other.wf(),
            self.n == other.n,
            d >= 1,
        ensures
            self.min_with(other).admits(v, d) <==> self.admits(v, d) && other.admits(v, d),
    {
        self.lemma_min_with(other);
        let m = self.min_with(other);
        if m.admits(v, d) {
            assert forall|i: int, j: int|
                self.has(i, j) && #[trigger] self.at(i, j) != DBM_INF implies 2 * (grid::node(v, i)
                - grid::node(v, j)) <= d * self.at(i, j) by {
                self.lemma_cell(i, j);
                assert(m.has(i, j));
                lemma_scaled_mono(d, m.at(i, j), self.at(i, j));
            }
            assert forall|i: int, j: int|
                other.has(i, j) && #[trigger] other.at(i, j) != DBM_INF implies 2 * (grid::node(
                v,
                i,
            ) - grid::node(v, j)) <= d * other.at(i, j) by {
                other.lemma_cell(i, j);
                assert(m.has(i, j) && self.has(i, j));
                self.lemma_cell(i, j);
                lemma_scaled_mono(d, m.at(i, j), other.at(i, j));
            }
        }
        if self.admits(v, d) && other.admits(v, d) {
            assert forall|i: int, j: int|
                m.has(i, j) && #[trigger] m.at(i, j) != DBM_INF implies 2 * (grid::node(v, i)
                - grid::node(v, j)) <= d * m.at(i, j) by {
                assert(self.has(i, j) && other.has(i, j));
                assert(m.at(i, j) == self.at(i, j) || m.at(i, j) == other.at(i, j));
            }
        }
    }

    /// A looser matrix has at least the points.
    pub proof fn lemma_looser_admits(self, loose: Grid, v: Seq<int>, d: int)
        requires
            self.below(loose),
            loose.wf(),
            d >= 1,
            self.admits(v, d),
        ensures
            loose.admits(v, d),
    {
        assert forall|i: int, j: int|
            loose.has(i, j) && #[trigger] loose.at(i, j) != DBM_INF implies 2 * (grid::node(v, i)
            - grid::node(v, j)) <= d * loose.at(i, j) by {
            loose.lemma_cell(i, j);
            assert(self.has(i, j));
            assert(self.at(i, j) <= loose.at(i, j));
            lemma_scaled_mono(d, self.at(i, j), loose.at(i, j));
        }
    }

    /// A join has the points of both operands.
    pub proof fn law_join_keeps_points(self, other: Grid, v: Seq<int>, d: int)
        requires
            self.wf(),
            other.wf(),
            self.n == other.n,
            d >= 1,
            self.admits(v, d) || other.admits(v, d),
        ensures
            self.max_with(other).admits(v, d),
    {
        self.lemma_max_with(other);
        let m = self.max_with(other);
        assert forall|i: int, j: int|
            m.has(i, j) && #[trigger] m.at(i, j) != DBM_INF implies 2 * (grid::node(v, i)
            - grid::node(v, j)) <= d * m.at(i, j) by {
            assert(self.has(i, j) && other.has(i, j));
            self.lemma_cell(i, j);
            other.lemma_cell(i, j);
            if i == j {
                assert(d * 0 == 0) by (nonlinear_arith);
            } else if self.admits(v, d) {
                lemma_scaled_mono(d, self.at(i, j), m.at(i, j));
            } else {
                lemma_scaled_mono(d, other.at(i, j), m.at(i, j));
            }
        }
    }

    /// The join of strongly closed matrices is strongly closed.
    pub proof fn law_join_is_closed(self, other: Grid)
        requires
            self.wf(),
            other.wf(),
            self.n == other.n,
            self.strongly_closed(),
            other.strongly_closed(),
        ensures
            self.max_with(other).strongly_closed(),
            self.rounded() && other.rounded() ==> self.max_with(other).rounded(),
    {
        self.lemma_max_with(other);
        let m = self.max_with(other);
        assert forall|i: int, j: int| #[trigger] m.has(i, j) implies m.at(i, j) == m.at(
            arith::mirror(j),
            arith::mirror(i),
        ) by {
            let (ib, jb) = (arith::mirror(i), arith::mirror(j));
            assert(self.has(i, j) && other.has(i, j) && self.has(jb, ib));
        }
        assert forall|i: int, j: int| m.has(i, j) implies m.at(i, j) <= #[trigger] m.half_sum(
            i,
            j,
        ) by {
            let (ib, jb) = (arith::mirror(i), arith::mirror(j));
            assert(self.has(i, j) && self.has(i, ib) && self.has(jb, j));
            self.lemma_cell(i, ib);
            self.lemma_cell(jb, j);
            other.lemma_cell(i, ib);
            other.lemma_cell(jb, j);
            self.lemma_cell(i, j);
            other.lemma_cell(i, j);
            assert(self.at(i, j) <= self.half_sum(i, j));
            assert(other.at(i, j) <= other.half_sum(i, j));
            sound::lemma_oplus_mono(self.at(i, ib), self.at(jb, j), m.at(i, ib), m.at(jb, j));
            sound::lemma_oplus_mono(other.at(i, ib), other.at(jb, j), m.at(i, ib), m.at(jb, j));
            if i == j {
                assert(self.at(i, i) == 0);
            }
        }
        assert forall|i: int, k: int, j: int|
            #![trigger m.at(i, k), m.at(k, j)]
            m.has(i, k) && m.has(k, j) implies m.at(i, j) <= arith::oplus(
            m.at(i, k),
            m.at(k, j),
        ) by {
            assert(self.has(i, k) && self.has(k, j) && self.has(i, j));
            self.lemma_cell(i, k);
            self.lemma_cell(k, j);
            other.lemma_cell(i, k);
            other.lemma_cell(k, j);
            assert(self.at(i, j) <= arith::oplus(self.at(i, k), self.at(k, j)));
            assert(other.at(i, j) <= arith::oplus(other.at(i, k), other.at(k, j)));
            assert(i == k ==> self.at(i, k) == 0 && other.at(i, k) == 0);
            assert(k == j ==> self.at(k, j) == 0 && other.at(k, j) == 0);
            assert(i == j ==> self.at(i, j) == 0 && other.at(i, j) == 0);
            sound::lemma_oplus_mono(self.at(i, k), self.at(k, j), m.at(i, k), m.at(k, j));
            sound::lemma_oplus_mono(other.at(i, k), other.at(k, j), m.at(i, k), m.at(k, j));
        }
        if self.rounded() && other.rounded() {
            assert forall|i: int| 0 <= i < m.n implies #[trigger] m.at(i, arith::mirror(i))
                == DBM_INF || m.at(i, arith::mirror(i)) % 4 == 0 by {
                assert(self.has(i, arith::mirror(i)));
                assert(self.at(i, arith::mirror(i)) == DBM_INF || self.at(i, arith::mirror(i)) % 4
                    == 0);
                assert(other.at(i, arith::mirror(i)) == DBM_INF || other.at(i, arith::mirror(i))
                    % 4 == 0);
            }
        }
    }

    /// A widening has the points of both operands.
    pub proof fn law_widening_keeps_points(self, other: Grid, v: Seq<int>, d: int)
        requires
            self.wf(),
            other.wf(),
            self.n == other.n,
            d >= 1,
            self.admits(v, d) || other.admits(v, d),
        ensures
            self.widened(other).admits(v, d),
    {
        self.lemma_widened(other);
        let m = self.widened(other);
        assert(self.below(m)) by {
            assert forall|i: int, j: int| self.has(i, j) implies #[trigger] self.at(i, j) <= m.at(
                i,
                j,
            ) by {
                self.lemma_cell(i, j);
                assert(m.has(i, j));
            }
        }
        assert(other.below(m)) by {
            assert forall|i: int, j: int| other.has(i, j) implies #[trigger] other.at(i, j)
                <= m.at(i, j) by {
                other.lemma_cell(i, j);
                assert(self.has(i, j) && m.has(i, j));
            }
        }
        if self.admits(v, d) {
            self.lemma_looser_admits(m, v, d);
        } else {
            other.lemma_looser_admits(m, v, d);
        }
    }

    /// The number of finite cells among the first `t`.
    pub open spec fn finite_cells(self, t: int) -> int
        decreases t,
    {
        if t <= 0 {
            0
        } else {
            self.finite_cells(t - 1) + (if self.cells[t - 1] != DBM_INF {
                1int
            } else {
                0
            })
        }
    }

    /// A widening changes nothing, or has fewer finite cells than its left
    /// operand: a chain of widenings comes to an end.
    pub proof fn law_widening_ends(self, other: Grid)
        requires
            self.wf(),
            other.wf(),
            self.n == other.n,
        ensures
            self.widened(other) == self || self.widened(other).finite_cells(
                self.cells.len() as int,
            ) < self.finite_cells(self.cells.len() as int),
            self.finite_cells(self.cells.len() as int) >= 0,
    {
        self.lemma_widened_count(other, self.cells.len() as int);
        let m = self.widened(other);
        if m != self {
            if forall|t: int| 0 <= t < self.cells.len() ==> m.cells[t] == self.cells[t] {
                assert(m.cells =~= self.cells);
            }
            let t = choose|t: int| 0 <= t < self.cells.len() && m.cells[t] != self.cells[t];
            self.lemma_widened_differs(other, t, self.cells.len() as int);
        }
    }

    proof fn lemma_widened_count(self, other: Grid, t: int)
        requires
            0 <= t <= self.cells.len(),
            other.cells.len() == self.cells.len(),
        ensures
            0 <= self.widened(other).finite_cells(t) <= self.finite_cells(t),
        decreases t,
    {
        if t > 0 {
            self.lemma_widened_count(other, t - 1);
        }
    }

    proof fn lemma_widened_differs(self, other: Grid, u: int, t: int)
        requires
            0 <= u < t <= self.cells.len(),
            other.cells.len() == self.cells.len(),
            self.widened(other).cells[u] != self.cells[u],
        ensures
            self.widened(other).finite_cells(t) < self.finite_cells(t),
        decreases t,
    {
        if u == t - 1 {
            self.lemma_widened_count(other, t - 1);
        } else {
            self.lemma_widened_differs(other, u, t - 1);
        }
    }

    // -----------------------------------------------------------------------
    // Guards
    // -----------------------------------------------------------------------

    /// Adding the constraint `node i - node j <= c` keeps exactly the points
    /// that meet it, where `2 * c` can be stored, and every point otherwise.
    pub proof fn law_guard_filters(self, i: int, j: int, c: int, v: Seq<int>, d: int)
        requires
            self.wf(),
            self.has(i, j),
            d >= 1,
        ensures
            i128::MIN < 2 * c < DBM_INF ==> (self.bounded(i, j, c).admits(v, d) <==> self.admits(
                v,
                d,
            ) && grid::node(v, i) - grid::node(v, j) <= d * c),
            !(i128::MIN < 2 * c < DBM_INF) ==> (self.bounded(i, j, c).admits(v, d)
                <==> self.admits(v, d)),
    {
        let s = arith::spec_sat_mul2_bound(c);
        let g = self.bounded(i, j, c);
        let (ib, jb) = (arith::mirror(i), arith::mirror(j));
        self.lemma_bounded(i, j, c);
        sound::lemma_node_mirror(v, i);
        sound::lemma_node_mirror(v, j);
        let met = s == DBM_INF || grid::node(v, i) - grid::node(v, j) <= d * c;
        assert(s != DBM_INF ==> d * s == 2 * (d * c)) by (nonlinear_arith)
            requires
                s != DBM_INF ==> s == 2 * c,
        ;
        if g.admits(v, d) {
            g.lemma_looser_admits(self, v, d);
            if s != DBM_INF {
                assert(g.has(i, j));
                self.lemma_cell(i, j);
                assert(g.at(i, j) <= s);
                lemma_scaled_mono(d, g.at(i, j), s);
            }
        }
        if self.admits(v, d) && met {
            assert forall|a: int, b: int|
                g.has(a, b) && #[trigger] g.at(a, b) != DBM_INF implies 2 * (grid::node(v, a)
                - grid::node(v, b)) <= d * g.at(a, b) by {
                assert(self.has(a, b));
            }
        }
    }

    /// Over the integers a guard and its negation divide the points: each point
    /// meets one of the two, and no point meets both. This holds of guards
    /// whose bounds can be stored.
    pub proof fn law_negations_divide(self, x: int, y: int, c: int, v: Seq<int>)
        requires
            self.wf(),
            0 <= x < self.n / 2,
            0 <= y < self.n / 2,
            v.len() == self.n / 2,
            self.admits(v, 1),
            -(DBM_INF as int) < 4 * c,
            4 * (c + 1) < DBM_INF,
        ensures
            self.bounded(2 * x, 2 * x + 1, arith::spec_sat_mul2(c)).admits(v, 1) <==> !self.bounded(
                2 * x + 1,
                2 * x,
                arith::spec_sat_mul2(arith::spec_sat_neg(arith::spec_sat_add(c, 1))),
            ).admits(v, 1),
            self.bounded(2 * x, 2 * y, c).admits(v, 1) <==> !self.bounded(
                2 * y,
                2 * x,
                arith::spec_sat_sub(arith::spec_sat_neg(c), 1),
            ).admits(v, 1),
            self.bounded(2 * x, 2 * y + 1, c).admits(v, 1) <==> !self.bounded(
                2 * y + 1,
                2 * x,
                arith::spec_sat_neg(arith::spec_sat_add(c, 1)),
            ).admits(v, 1),
    {
        assert(self.has(2 * x, 2 * x + 1) && self.has(2 * x + 1, 2 * x));
        assert(self.has(2 * x, 2 * y) && self.has(2 * y, 2 * x));
        assert(self.has(2 * x, 2 * y + 1) && self.has(2 * y + 1, 2 * x));
        assert(grid::node(v, 2 * x) == v[x] && grid::node(v, 2 * x + 1) == -v[x]);
        assert(grid::node(v, 2 * y) == v[y] && grid::node(v, 2 * y + 1) == -v[y]);
        self.law_guard_filters(2 * x, 2 * x + 1, 2 * c, v, 1);
        self.law_guard_filters(2 * x + 1, 2 * x, -2 * (c + 1), v, 1);
        self.law_guard_filters(2 * x, 2 * y, c, v, 1);
        self.law_guard_filters(2 * y, 2 * x, -c - 1, v, 1);
        self.law_guard_filters(2 * x, 2 * y + 1, c, v, 1);
        self.law_guard_filters(2 * y + 1, 2 * x, -(c + 1), v, 1);
    }

    // -----------------------------------------------------------------------
    // Assignments
    // -----------------------------------------------------------------------

    /// Dropping the constraints on `x` keeps every point, whatever value `x`
    /// then takes.
    pub proof fn law_forgetting_frees(self, x: int, v: Seq<int>, y: int, d: int)
        requires
            self.wf(),
            0 <= x < self.n / 2,
            v.len() == self.n / 2,
            d >= 1,
            self.admits(v, d),
        ensures
            self.dropped(x).admits(v.update(x, y), d),
    {
        self.lemma_dropped(x);
        let g = self.dropped(x);
        let w = v.update(x, y);
        assert forall|i: int, j: int|
            g.has(i, j) && #[trigger] g.at(i, j) != DBM_INF implies 2 * (grid::node(w, i)
            - grid::node(w, j)) <= d * g.at(i, j) by {
            assert(self.has(i, j));
            if i == j {
                if i / 2 == x {
                    assert(d * 0 == 0) by (nonlinear_arith);
                } else {
                    assert(grid::node(w, i) == grid::node(v, i));
                }
            } else {
                assert(grid::node(w, i) == grid::node(v, i));
                assert(grid::node(w, j) == grid::node(v, j));
            }
        }
    }

    /// `x := y + c` takes every point to a point of the matrix in which the
    /// old bounds of `x` are dropped and `x - y` is bounded by `c` on both
    /// sides.
    pub proof fn law_copying_keeps_points(self, x: int, y: int, c: int, v: Seq<int>, d: int)
        requires
            self.wf(),
            0 <= x < self.n / 2,
            0 <= y < self.n / 2,
            x != y,
            i128::MIN <= c <= i128::MAX,
            v.len() == self.n / 2,
            d >= 1,
            self.admits(v, d),
        ensures
            self.dropped(x).bounded(2 * x, 2 * y, c).bounded(
                2 * y,
                2 * x,
                arith::spec_sat_neg(c),
            ).admits(v.update(x, v[y] + d * c), d),
    {
        let w = v.update(x, v[y] + d * c);
        let g = self.dropped(x);
        self.lemma_dropped(x);
        self.law_forgetting_frees(x, v, v[y] + d * c, d);
        assert(g.has(2 * x, 2 * y) && g.has(2 * y, 2 * x));
        assert(grid::node(w, 2 * x) == v[y] + d * c);
        assert(grid::node(w, 2 * y) == v[y]);
        g.law_guard_filters(2 * x, 2 * y, c, w, d);
        g.lemma_bounded(2 * x, 2 * y, c);
        let h = g.bounded(2 * x, 2 * y, c);
        let e = arith::spec_sat_neg(c);
        h.law_guard_filters(2 * y, 2 * x, e, w, d);
        if i128::MIN < 2 * e < DBM_INF {
            assert(e == -c);
            assert(d * (-c) == -(d * c)) by (nonlinear_arith);
        }
    }

    /// Giving `x` a value between `lo` and `hi` takes every point to a point of
    /// the resulting matrix.
    pub proof fn law_boxing_keeps_points(
        self,
        x: int,
        lo: Option<int>,
        hi: Option<int>,
        v: Seq<int>,
        y: int,
        d: int,
    )
        requires
            self.wf(),
            0 <= x < self.n / 2,
            v.len() == self.n / 2,
            d >= 1,
            self.admits(v, d),
            lo matches Some(l) ==> d * l <= y && dbm::quadruple_fits(-l),
            hi matches Some(h) ==> y <= d * h && dbm::quadruple_fits(h),
        ensures
            self.box_grid(x, lo, hi).admits(v.update(x, y), d),
    {
        let w = v.update(x, y);
        let g0 = self.dropped(x);
        self.lemma_dropped(x);
        self.law_forgetting_frees(x, v, y, d);
        let (p, q) = (2 * x, 2 * x + 1);
        assert(g0.has(p, q) && g0.has(q, p));
        assert(grid::node(w, p) == y && grid::node(w, q) == -y);
        let g1 = match hi {
            Some(h) => g0.bounded(p, q, arith::spec_sat_mul2(h)),
            None => g0,
        };
        if let Some(h) = hi {
            g0.law_guard_filters(p, q, 2 * h, w, d);
            g0.lemma_bounded(p, q, 2 * h);
            assert(d * (2 * h) == 2 * (d * h)) by (nonlinear_arith);
        }
        if let Some(l) = lo {
            if l == DBM_INF {
                g1.law_guard_filters(q, p, i128::MIN as int, w, d);
            } else {
                g1.law_guard_filters(q, p, -2 * l, w, d);
                assert(d * (-2 * l) == -2 * (d * l)) by (nonlinear_arith);
                assert(arith::spec_sat_mul2(arith::spec_sat_neg(l)) == -2 * l);
            }
        }
    }

    /// The matrix of `Oct::boxed`, before closing.
    pub open spec fn box_grid(self, x: int, lo: Option<int>, hi: Option<int>) -> Grid {
        let g0 = self.dropped(x);
        let g1 = match hi {
            Some(h) => g0.bounded(2 * x, 2 * x + 1, arith::spec_sat_mul2(h)),
            None => g0,
        };
        match lo {
            Some(l) => g1.bounded(
                2 * x + 1,
                2 * x,
                arith::spec_sat_mul2(arith::spec_sat_neg(l)),
            ),
            None => g1,
        }
    }

    /// Whether node `i` moves up (1), down (-1) or not (0) with `x`.
    pub open spec fn sign(x: int, i: int) -> int {
        if i == 2 * x {
            1
        } else if i == 2 * x + 1 {
            -1
        } else {
            0
        }
    }

    /// The cells of a shift that clips nothing: each finite bound moves by the
    /// difference of the two nodes' movements.
    pub proof fn lemma_shifted(self, x: int, delta: int)
        requires
            self.wf(),
            0 <= x < self.n / 2,
            i128::MIN < delta < DBM_INF,
            self.no_min(),
            !self.shift_saturates(x, delta),
            self.zero_diagonal(),
        ensures
            self.shifted(x, delta).wf(),
            forall|i: int, j: int|
                self.has(i, j) ==> #[trigger] self.shifted(x, delta).at(i, j) == (if self.at(i, j)
                    == DBM_INF {
                    DBM_INF as int
                } else {
                    self.at(i, j) + delta * (Grid::sign(x, i) - Grid::sign(x, j))
                }),
    {
        let g = self.shifted(x, delta);
        assert forall|i: int, j: int| self.has(i, j) implies #[trigger] g.at(i, j) == (if self.at(
            i,
            j,
        ) == DBM_INF {
            DBM_INF as int
        } else {
            self.at(i, j) + delta * (Grid::sign(x, i) - Grid::sign(x, j))
        }) && g.at(i, j) <= DBM_INF by {
            Grid::lemma_index(self.n, i, j);
            self.lemma_cell(i, j);
            assert(!self.shift_clips(x, delta, i, j));
            let s = Grid::sign(x, i) - Grid::sign(x, j);
            assert(s == 0 ==> delta * s == 0) by (nonlinear_arith);
            assert(s == 1 ==> delta * s == delta) by (nonlinear_arith);
            assert(s == 2 ==> delta * s == 2 * delta) by (nonlinear_arith);
            assert(s == -1 ==> delta * s == -delta) by (nonlinear_arith);
            assert(s == -2 ==> delta * s == -2 * delta) by (nonlinear_arith);
            if i == j {
                assert(self.at(i, i) == 0);
            }
        }
        assert forall|t: int| 0 <= t < g.cells.len() implies #[trigger] g.cells[t] <= DBM_INF by {
            Grid::lemma_unindex(self.n, t);
            assert(g.at(t / g.n, t % g.n) == g.cells[t]);
            assert(self.has(t / g.n, t % g.n));
        }
    }

    /// An exact shift by `2 * c` takes the points to the points with `c` added
    /// to `x`, one for one.
    pub proof fn law_shift_moves_points(self, x: int, c: int, v: Seq<int>, d: int)
        requires
            self.wf(),
            0 <= x < self.n / 2,
            i128::MIN < 2 * c < DBM_INF,
            self.no_min(),
            !self.shift_saturates(x, 2 * c),
            self.zero_diagonal(),
            v.len() == self.n / 2,
            d >= 1,
        ensures
            self.admits(v, d) <==> self.shifted(x, 2 * c).admits(v.update(x, v[x] + d * c), d),
    {
        self.lemma_shifted(x, 2 * c);
        let g = self.shifted(x, 2 * c);
        let w = v.update(x, v[x] + d * c);
        assert forall|i: int, j: int| self.has(i, j) && self.at(i, j) != DBM_INF implies d * (
        #[trigger] g.at(i, j)) == d * self.at(i, j) + 2 * (grid::node(w, i) - grid::node(v, i)) - 2
            * (grid::node(w, j) - grid::node(v, j)) by {
            let (si, sj) = (Grid::sign(x, i), Grid::sign(x, j));
            assert(grid::node(w, i) - grid::node(v, i) == (d * c) * si) by {
                assert((d * c) * 1 == d * c && (d * c) * (-1) == -(d * c) && (d * c) * 0 == 0)
                    by (nonlinear_arith);
            }
            assert(grid::node(w, j) - grid::node(v, j) == (d * c) * sj) by {
                assert((d * c) * 1 == d * c && (d * c) * (-1) == -(d * c) && (d * c) * 0 == 0)
                    by (nonlinear_arith);
            }
            let a = self.at(i, j);
            assert(d * (a + (2 * c) * (si - sj)) == d * a + 2 * ((d * c) * si) - 2 * ((d * c) * sj))
                by (nonlinear_arith);
        }
        if self.admits(v, d) {
            assert forall|i: int, j: int|
                g.has(i, j) && #[trigger] g.at(i, j) != DBM_INF implies 2 * (grid::node(w, i)
                - grid::node(w, j)) <= d * g.at(i, j) by {
                assert(self.has(i, j));
                assert(self.at(i, j) != DBM_INF);
            }
        }
        if g.admits(w, d) {
            assert forall|i: int, j: int|
                self.has(i, j) && #[trigger] self.at(i, j) != DBM_INF implies 2 * (grid::node(v, i)
                - grid::node(v, j)) <= d * self.at(i, j) by {
                assert(g.has(i, j));
                self.lemma_cell(i, j);
                assert(!self.shift_clips(x, 2 * c, i, j));
                self.lemma_shift_finite(x, 2 * c, i, j);
                assert(g.at(i, j) != DBM_INF);
            }
        }
    }

    /// A finite cell stays finite under an exact shift.
    proof fn lemma_shift_finite(self, x: int, delta: int, i: int, j: int)
        requires
            self.wf(),
            self.has(i, j),
            0 <= x < self.n / 2,
            i128::MIN < delta < DBM_INF,
            self.at(i, j) != DBM_INF,
            self.zero_diagonal(),
            !self.shift_clips(x, delta, i, j),
        ensures
            self.shifted(x, delta).at(i, j) != DBM_INF,
    {
        Grid::lemma_index(self.n, i, j);
        self.lemma_cell(i, j);
    }

    /// Shifting back gives the matrix back, where both shifts are exact.
    pub proof fn law_shift_is_undone(self, x: int, delta: int)
        requires
            self.wf(),
            0 <= x < self.n / 2,
            -DBM_INF < delta < DBM_INF,
            self.no_min(),
            !self.shift_saturates(x, delta),
            self.zero_diagonal(),
            !self.shifted(x, delta).has_corner(),
        ensures
            !self.shifted(x, delta).shift_saturates(x, -delta),
            self.shifted(x, delta).shifted(x, -delta) == self,
    {
        let g = self.shifted(x, delta);
        self.lemma_shifted(x, delta);
        assert(g.no_min()) by {
            assert forall|i: int, j: int| g.has(i, j) implies #[trigger] g.at(i, j) > i128::MIN by {
                assert(self.has(i, j));
                self.lemma_cell(i, j);
                assert(!self.shift_clips(x, delta, i, j));
                Grid::lemma_index(self.n, i, j);
            }
        }
        assert forall|i: int| 0 <= i < g.n implies #[trigger] g.at(i, i) == 0 by {
            assert(self.at(i, i) == 0);
            self.lemma_shifted_at(x, delta, i, i);
        }
        assert forall|i: int, j: int| g.has(i, j) implies !#[trigger] g.shift_clips(
            x,
            -delta,
            i,
            j,
        ) by {
            self.lemma_shifted_at(x, delta, i, j);
            self.lemma_cell(i, j);
            Grid::lemma_index(self.n, i, j);
        }
        g.lemma_shifted(x, -delta);
        let h = g.shifted(x, -delta);
        assert forall|t: int| 0 <= t < self.cells.len() implies #[trigger] h.cells[t]
            == self.cells[t] by {
            Grid::lemma_unindex(self.n, t);
            let (i, j) = (t / self.n, t % self.n);
            assert(self.has(i, j) && g.has(i, j));
            self.lemma_shifted_at(x, delta, i, j);
            g.lemma_shifted_at(x, -delta, i, j);
            let (si, sj) = (Grid::sign(x, i), Grid::sign(x, j));
            assert((-delta) * si == -(delta * si) && (-delta) * sj == -(delta * sj))
                by (nonlinear_arith);
            assert(h.at(i, j) == self.at(i, j));
        }
        assert(h.cells =~= self.cells);
    }

    /// The sum of two bounds can be stored, if both are finite.
    pub open spec fn sum_stored(a: int, b: int) -> bool {
        a != DBM_INF && b != DBM_INF ==> DBM_FLOOR <= a + b < DBM_INF
    }

    /// Every sum that strong closure speaks of can be stored: those along paths
    /// of two edges, and those of two bounds of single variables.
    pub open spec fn sums_stored(self) -> bool {
        &&& forall|i: int, k: int, j: int|
            #![trigger self.at(i, k), self.at(k, j)]
            self.has(i, k) && self.has(k, j) ==> Grid::sum_stored(self.at(i, k), self.at(k, j))
        &&& forall|i: int, j: int| #[trigger]
            self.has(i, j) ==> Grid::sum_stored(
                self.at(i, arith::mirror(i)),
                self.at(arith::mirror(j), j),
            )
    }

    /// The cell `(i, j)` of an exact shift.
    proof fn lemma_shifted_at(self, x: int, delta: int, i: int, j: int)
        requires
            self.wf(),
            0 <= x < self.n / 2,
            i128::MIN < delta < DBM_INF,
            self.no_min(),
            !self.shift_saturates(x, delta),
            self.zero_diagonal(),
            self.has(i, j),
        ensures
            self.shifted(x, delta).has(i, j),
            self.shifted(x, delta).at(i, j) <= DBM_INF,
            self.at(i, j) <= DBM_INF,
            self.at(i, j) == DBM_INF <==> self.shifted(x, delta).at(i, j) == DBM_INF,
            self.at(i, j) != DBM_INF ==> self.shifted(x, delta).at(i, j) == self.at(i, j) + delta
                * Grid::sign(x, i) - delta * Grid::sign(x, j),
    {
        self.lemma_shifted(x, delta);
        self.lemma_cell(i, j);
        self.shifted(x, delta).lemma_cell(i, j);
        if self.at(i, j) != DBM_INF {
            assert(!self.shift_clips(x, delta, i, j));
            self.lemma_shift_finite(x, delta, i, j);
        }
        let (si, sj) = (Grid::sign(x, i), Grid::sign(x, j));
        assert(delta * (si - sj) == delta * si - delta * sj) by (nonlinear_arith);
    }

    proof fn lemma_shift_triangle(self, x: int, delta: int, i: int, k: int, j: int)
        requires
            self.wf(),
            0 <= x < self.n / 2,
            i128::MIN < delta < DBM_INF,
            self.no_min(),
            !self.shift_saturates(x, delta),
            self.strongly_closed(),
            self.sums_stored(),
            self.has(i, k),
            self.has(k, j),
        ensures
            self.shifted(x, delta).at(i, j) <= arith::oplus(
                self.shifted(x, delta).at(i, k),
                self.shifted(x, delta).at(k, j),
            ),
    {
        self.lemma_shifted_at(x, delta, i, k);
        self.lemma_shifted_at(x, delta, k, j);
        self.lemma_shifted_at(x, delta, i, j);
        assert(self.at(i, j) <= arith::oplus(self.at(i, k), self.at(k, j)));
        assert(Grid::sum_stored(self.at(i, k), self.at(k, j)));
    }

    proof fn lemma_shift_half(self, x: int, delta: int, i: int, j: int)
        requires
            self.wf(),
            0 <= x < self.n / 2,
            i128::MIN < delta < DBM_INF,
            self.no_min(),
            !self.shift_saturates(x, delta),
            self.strongly_closed(),
            self.sums_stored(),
            self.has(i, j),
        ensures
            self.shifted(x, delta).at(i, j) <= self.shifted(x, delta).half_sum(i, j),
            self.shifted(x, delta).at(i, j) == self.shifted(x, delta).at(
                arith::mirror(j),
                arith::mirror(i),
            ),
    {
        let (ib, jb) = (arith::mirror(i), arith::mirror(j));
        assert(self.has(jb, ib) && self.has(i, ib) && self.has(jb, j));
        self.lemma_shifted_at(x, delta, i, j);
        self.lemma_shifted_at(x, delta, jb, ib);
        self.lemma_shifted_at(x, delta, i, ib);
        self.lemma_shifted_at(x, delta, jb, j);
        let (si, sj) = (Grid::sign(x, i), Grid::sign(x, j));
        assert(Grid::sign(x, ib) == -si && Grid::sign(x, jb) == -sj);
        assert(delta * (-si) == -(delta * si)) by (nonlinear_arith);
        assert(delta * (-sj) == -(delta * sj)) by (nonlinear_arith);
        assert(self.at(i, j) == self.at(jb, ib));
        assert(self.at(i, j) <= self.half_sum(i, j));
        assert(Grid::sum_stored(self.at(i, ib), self.at(jb, j)));
    }

    /// An exact shift of a strongly closed matrix whose sums can be stored is
    /// strongly closed, and keeps the integer normal form.
    pub proof fn law_shift_is_closed(self, x: int, c: int)
        requires
            self.wf(),
            0 <= x < self.n / 2,
            i128::MIN < 2 * c < DBM_INF,
            self.no_min(),
            !self.shift_saturates(x, 2 * c),
            self.strongly_closed(),
            self.sums_stored(),
        ensures
            self.shifted(x, 2 * c).strongly_closed(),
            self.rounded() ==> self.shifted(x, 2 * c).rounded(),
    {
        let delta = 2 * c;
        self.lemma_shifted(x, delta);
        let g = self.shifted(x, delta);
        assert forall|i: int| 0 <= i < g.n implies #[trigger] g.at(i, i) == 0 by {
            assert(self.at(i, i) == 0);
            self.lemma_shifted_at(x, delta, i, i);
        }
        assert forall|i: int, j: int| #[trigger] g.has(i, j) implies g.at(i, j) == g.at(
            arith::mirror(j),
            arith::mirror(i),
        ) by {
            self.lemma_shift_half(x, delta, i, j);
        }
        assert forall|i: int, k: int, j: int|
            #![trigger g.at(i, k), g.at(k, j)]
            g.has(i, k) && g.has(k, j) implies g.at(i, j) <= arith::oplus(
            g.at(i, k),
            g.at(k, j),
        ) by {
            self.lemma_shift_triangle(x, delta, i, k, j);
        }
        assert forall|i: int, j: int| g.has(i, j) implies g.at(i, j) <= #[trigger] g.half_sum(
            i,
            j,
        ) by {
            self.lemma_shift_half(x, delta, i, j);
        }
        if self.rounded() {
            assert forall|i: int| 0 <= i < g.n implies #[trigger] g.at(i, arith::mirror(i))
                == DBM_INF || g.at(i, arith::mirror(i)) % 4 == 0 by {
                let ib = arith::mirror(i);
                self.lemma_shifted_at(x, delta, i, ib);
                assert(self.at(i, arith::mirror(i)) == DBM_INF || self.at(i, arith::mirror(i)) % 4
                    == 0);
                let si = Grid::sign(x, i);
                assert(Grid::sign(x, ib) == -si);
                assert(delta * si - delta * (-si) == 4 * (c * si)) by (nonlinear_arith)
                    requires
                        delta == 2 * c,
                ;
            }
        }
    }
}

/// Scaling by a positive factor keeps the order.
pub proof fn lemma_scaled_mono(d: int, a: int, b: int)
    requires
        d >= 1,
        a <= b,
    ensures
        d * a <= d * b,
{
    assert(d * a <= d * b) by (nonlinear_arith)
        requires
            d >= 1,
            a <= b,
    ;
}

impl Oct {
    /// Closing a refinement keeps the points that the refinement has.
    pub proof fn law_refining_keeps_points(self, g: Grid, v: Seq<int>, d: int)
        requires
            g.wf(),
            !self.bottom,
            d >= 1,
            g.admits(v, d),
        ensures
            !self.refined(g).bottom,
            self.refined(g).grid.admits(v, d),
    {
        g.law_closing_keeps_points(false, v, d);
    }

    /// A bound that is read holds at every integer point.
    pub proof fn law_read_bound_holds(self, i: int, j: int, v: Seq<int>)
        requires
            self.grid.admits(v, 1),
        ensures
            self.bound(i, j) matches Some(c) ==> grid::node(v, i) - grid::node(v, j) <= c,
    {
        if let Some(c) = self.bound(i, j) {
            assert(self.grid.at(i, j) != DBM_INF);
            assert(2 * (grid::node(v, i) - grid::node(v, j)) <= 1 * self.grid.at(i, j));
        }
    }

    /// The interval that is read for a variable holds at every integer point.
    pub proof fn law_read_interval_holds(self, x: int, v: Seq<int>)
        requires
            self.grid.wf(),
            self.grid.admits(v, 1),
        ensures
            self.upper(x) matches Some(u) ==> v[x] <= u,
            self.lower(x) matches Some(l) ==> l <= v[x],
    {
        let (p, q) = (2 * x, 2 * x + 1);
        assert(grid::node(v, p) == v[x] && grid::node(v, q) == -v[x]);
        self.law_read_bound_holds(p, q, v);
        self.law_read_bound_holds(q, p, v);
        if self.grid.has(p, q) {
            self.grid.lemma_cell(p, q);
            self.grid.lemma_cell(q, p);
        }
    }
}

impl OctExpr {
    /// The value of the expression at an integer point.
    pub open spec fn value(self, v: Seq<int>) -> int
        decreases self,
    {
        match self {
            OctExpr::Const(c) => c as int,
            OctExpr::Var(i) => v[i as int],
            OctExpr::Add(l, r) => l.value(v) + r.value(v),
            OctExpr::Sub(l, r) => l.value(v) - r.value(v),
            OctExpr::Neg(e) => -e.value(v),
            OctExpr::Scale(k, e) => k * e.value(v),
        }
    }

    /// Interval evaluation is sound: the value at every integer point lies in
    /// the interval, where it has that end.
    pub proof fn law_interval_holds(self, o: Oct, v: Seq<int>)
        requires
            o.grid.wf(),
            o.grid.admits(v, 1),
        ensures
            self.interval(o).0 == i128::MIN || self.interval(o).0 <= self.value(v),
            self.interval(o).1 == DBM_INF || self.value(v) <= self.interval(o).1,
            i128::MIN <= self.interval(o).0 <= i128::MAX,
            i128::MIN <= self.interval(o).1 <= i128::MAX,
        decreases self,
    {
        match self {
            OctExpr::Const(_) => {},
            OctExpr::Var(i) => {
                o.law_read_interval_holds(i as int, v);
                let (p, q) = (2 * (i as int), 2 * (i as int) + 1);
                if o.grid.has(p, q) {
                    o.grid.lemma_cell(p, q);
                    o.grid.lemma_cell(q, p);
                }
            },
            OctExpr::Add(l, r) => {
                l.law_interval_holds(o, v);
                r.law_interval_holds(o, v);
            },
            OctExpr::Sub(l, r) => {
                l.law_interval_holds(o, v);
                r.law_interval_holds(o, v);
            },
            OctExpr::Neg(e) => {
                e.law_interval_holds(o, v);
            },
            OctExpr::Scale(k, e) => {
                e.law_interval_holds(o, v);
                let (a, b) = e.interval(o);
                let x = e.value(v);
                if k == 0 {
                    assert(0 * x == 0) by (nonlinear_arith);
                } else if k > 0 {
                    if a != i128::MIN {
                        assert(k * a <= k * x) by (nonlinear_arith)
                            requires
                                k > 0,
                                a <= x,
                        ;
                    }
                    if b != DBM_INF {
                        assert(k * x <= k * b) by (nonlinear_arith)
                            requires
                                k > 0,
                                x <= b,
                        ;
                    }
                } else {
                    if a != i128::MIN {
                        assert(k * x <= k * a) by (nonlinear_arith)
                            requires
                                k < 0,
                                a <= x,
                        ;
                    }
                    if b != DBM_INF {
                        assert(k * b <= k * x) by (nonlinear_arith)
                            requires
                                k < 0,
                                x <= b,
                        ;
                    }
                }
            },
        }
    }
}

} // verus!
