//! What closing keeps: the solutions, and every closed matrix underneath.
use vstd::prelude::*;
use crate::octagon::arith;
use crate::octagon::arith::{DBM_FLOOR, DBM_INF};
use crate::octagon::grid;
use crate::octagon::grid::{Grid, Verdict};

verus! {

/// The clamped sum grows with its arguments.
pub proof fn lemma_oplus_mono(a: int, b: int, c: int, e: int)
    requires
        a <= c <= DBM_INF,
        b <= e <= DBM_INF,
    ensures
        arith::oplus(a, b) <= arith::oplus(c, e),
        DBM_FLOOR <= arith::oplus(a, b) <= DBM_INF,
{
}

/// Two finite bounds on consecutive differences bound their sum.
pub proof fn lemma_oplus_bounds(x: int, y: int, a: int, b: int, d: int)
    requires
        d >= 1,
        a <= DBM_INF,
        b <= DBM_INF,
        a != DBM_INF ==> 2 * x <= d * a,
        b != DBM_INF ==> 2 * y <= d * b,
    ensures
        arith::oplus(a, b) != DBM_INF ==> 2 * (x + y) <= d * arith::oplus(a, b),
{
    let s = arith::oplus(a, b);
    if s != DBM_INF {
        assert(d * (a + b) == d * a + d * b) by (nonlinear_arith);
        assert(d * (a + b) <= d * s) by (nonlinear_arith)
            requires
                a + b <= s,
                d >= 1,
        ;
    }
}

/// A node and its mirror have opposite values.
pub proof fn lemma_node_mirror(v: Seq<int>, i: int)
    ensures
        grid::node(v, arith::mirror(i)) == -grid::node(v, i),
{
}

impl Grid {
    // -----------------------------------------------------------------------
    // One cell
    // -----------------------------------------------------------------------

    proof fn lemma_through_range(self, k: int, i: int, j: int)
        requires
            self.wf(),
            0 <= k < self.n,
            k % 2 == 0,
            self.has(i, j),
        ensures
            i128::MIN <= self.through(k, i, j) <= self.at(i, j),
            self.at(i, j) != i128::MIN ==> self.through(k, i, j) != i128::MIN,
            self.at(i, j) >= DBM_FLOOR ==> self.through(k, i, j) >= DBM_FLOOR,
            self.at(i, j) <= DBM_INF,
    {
        self.lemma_cell(i, j);
    }

    proof fn lemma_through_admits(self, k: int, i: int, j: int, v: Seq<int>, d: int)
        requires
            self.wf(),
            0 <= k < self.n,
            k % 2 == 0,
            self.has(i, j),
            self.admits(v, d),
            d >= 1,
        ensures
            self.through(k, i, j) != DBM_INF ==> 2 * (grid::node(v, i) - grid::node(v, j)) <= d
                * self.through(k, i, j),
    {
        let kb = arith::mirror(k);
        let (xi, xj, xk, xkb) = (
            grid::node(v, i),
            grid::node(v, j),
            grid::node(v, k),
            grid::node(v, kb),
        );
        let ik = self.at(i, k);
        let kj = self.at(k, j);
        let ikb = self.at(i, kb);
        let kbj = self.at(kb, j);
        self.lemma_cell(i, k);
        self.lemma_cell(k, j);
        self.lemma_cell(i, kb);
        self.lemma_cell(kb, j);
        self.lemma_cell(k, kb);
        self.lemma_cell(kb, k);
        self.lemma_cell(i, j);
        lemma_oplus_bounds(xi - xk, xk - xj, ik, kj, d);
        lemma_oplus_bounds(xi - xkb, xkb - xj, ikb, kbj, d);
        lemma_oplus_bounds(xi - xk, xk - xkb, ik, self.at(k, kb), d);
        lemma_oplus_bounds(xi - xkb, xkb - xj, arith::oplus(ik, self.at(k, kb)), kbj, d);
        lemma_oplus_bounds(xi - xkb, xkb - xk, ikb, self.at(kb, k), d);
        lemma_oplus_bounds(xi - xk, xk - xj, arith::oplus(ikb, self.at(kb, k)), kj, d);
    }

    proof fn lemma_through_above(self, low: Grid, k: int, i: int, j: int)
        requires
            self.wf(),
            low.wf(),
            low.below(self),
            low.triangle(),
            0 <= k < self.n,
            k % 2 == 0,
            self.has(i, j),
        ensures
            low.at(i, j) <= self.through(k, i, j),
    {
        let kb = arith::mirror(k);
        self.lemma_cell(i, k);
        self.lemma_cell(k, j);
        self.lemma_cell(i, kb);
        self.lemma_cell(kb, j);
        self.lemma_cell(k, kb);
        self.lemma_cell(kb, k);
        lemma_oplus_mono(low.at(i, k), low.at(k, j), self.at(i, k), self.at(k, j));
        lemma_oplus_mono(low.at(i, kb), low.at(kb, j), self.at(i, kb), self.at(kb, j));
        lemma_oplus_mono(low.at(i, k), low.at(k, kb), self.at(i, k), self.at(k, kb));
        lemma_oplus_mono(low.at(i, kb), low.at(kb, k), self.at(i, kb), self.at(kb, k));
        lemma_oplus_mono(
            low.at(i, kb),
            low.at(kb, j),
            arith::oplus(self.at(i, k), self.at(k, kb)),
            self.at(kb, j),
        );
        lemma_oplus_mono(
            low.at(i, k),
            low.at(k, j),
            arith::oplus(self.at(i, kb), self.at(kb, k)),
            self.at(k, j),
        );
        assert(low.has(i, k) && low.has(k, j) && low.has(i, kb) && low.has(kb, j));
        assert(low.at(i, kb) <= arith::oplus(low.at(i, k), low.at(k, kb)));
        assert(low.at(i, k) <= arith::oplus(low.at(i, kb), low.at(kb, k)));
        assert(low.at(i, j) <= arith::oplus(low.at(i, k), low.at(k, j)));
        assert(low.at(i, j) <= arith::oplus(low.at(i, kb), low.at(kb, j)));
    }

    proof fn lemma_half_admits(self, i: int, j: int, v: Seq<int>, d: int)
        requires
            self.wf(),
            self.has(i, j),
            self.admits(v, d),
            d >= 1,
        ensures
            self.half_sum(i, j) != DBM_INF ==> 2 * (grid::node(v, i) - grid::node(v, j)) <= d
                * self.half_sum(i, j),
            i128::MIN < self.half_sum(i, j) <= DBM_INF,
    {
        let (xi, xj) = (grid::node(v, i), grid::node(v, j));
        let (a, b) = (self.at(i, arith::mirror(i)), self.at(arith::mirror(j), j));
        self.lemma_cell(i, arith::mirror(i));
        self.lemma_cell(arith::mirror(j), j);
        lemma_node_mirror(v, i);
        lemma_node_mirror(v, j);
        lemma_oplus_bounds(2 * xi, -2 * xj, a, b, d);
        let s = arith::oplus(a, b);
        if s != DBM_INF {
            let h = (s + 1) / 2;
            assert(d * s <= d * (2 * h)) by (nonlinear_arith)
                requires
                    s <= 2 * h,
                    d >= 1,
            ;
            assert(d * (2 * h) == 2 * (d * h)) by (nonlinear_arith);
        }
    }

    proof fn lemma_half_above(self, low: Grid, i: int, j: int)
        requires
            self.wf(),
            low.wf(),
            low.below(self),
            low.half_bounded(),
            self.has(i, j),
        ensures
            low.at(i, j) <= self.half_sum(i, j),
            i128::MIN < self.half_sum(i, j) <= DBM_INF,
    {
        let (ib, jb) = (arith::mirror(i), arith::mirror(j));
        self.lemma_cell(i, ib);
        self.lemma_cell(jb, j);
        lemma_oplus_mono(low.at(i, ib), low.at(jb, j), self.at(i, ib), self.at(jb, j));
        assert(low.at(i, j) <= low.half_sum(i, j));
        low.lemma_cell(i, j);
    }

    // -----------------------------------------------------------------------
    // The steps of a pass
    // -----------------------------------------------------------------------

    /// Relaxing only lowers cells, and never onto the marker.
    pub proof fn lemma_relaxed(self, k: int, t: int)
        requires
            self.wf(),
            0 <= k < self.n,
            k % 2 == 0,
            0 <= t <= self.n * self.n,
        ensures
            self.relaxed(k, t).wf(),
            self.relaxed(k, t).below(self),
            self.no_min() ==> self.relaxed(k, t).no_min(),
            self.floored() ==> self.relaxed(k, t).floored(),
        decreases t,
    {
        if t > 0 {
            self.lemma_relaxed(k, t - 1);
            let p = self.relaxed(k, t - 1);
            Grid::lemma_unindex(self.n, t - 1);
            let (i, j) = ((t - 1) / self.n, (t - 1) % self.n);
            p.lemma_through_range(k, i, j);
            p.lemma_put(i, j, p.through(k, i, j));
        }
    }

    proof fn lemma_relaxed_admits(self, k: int, t: int, v: Seq<int>, d: int)
        requires
            self.wf(),
            0 <= k < self.n,
            k % 2 == 0,
            0 <= t <= self.n * self.n,
            self.admits(v, d),
            d >= 1,
        ensures
            self.relaxed(k, t).admits(v, d),
        decreases t,
    {
        if t > 0 {
            self.lemma_relaxed(k, t - 1);
            self.lemma_relaxed_admits(k, t - 1, v, d);
            let p = self.relaxed(k, t - 1);
            Grid::lemma_unindex(self.n, t - 1);
            let (i, j) = ((t - 1) / self.n, (t - 1) % self.n);
            p.lemma_through_range(k, i, j);
            p.lemma_through_admits(k, i, j, v, d);
            p.lemma_put(i, j, p.through(k, i, j));
        }
    }

    proof fn lemma_relaxed_above(self, low: Grid, k: int, t: int)
        requires
            self.wf(),
            low.wf(),
            low.below(self),
            low.triangle(),
            0 <= k < self.n,
            k % 2 == 0,
            0 <= t <= self.n * self.n,
        ensures
            low.below(self.relaxed(k, t)),
        decreases t,
    {
        if t > 0 {
            self.lemma_relaxed(k, t - 1);
            self.lemma_relaxed_above(low, k, t - 1);
            let p = self.relaxed(k, t - 1);
            Grid::lemma_unindex(self.n, t - 1);
            let (i, j) = ((t - 1) / self.n, (t - 1) % self.n);
            p.lemma_through_range(k, i, j);
            p.lemma_through_above(low, k, i, j);
            p.lemma_put(i, j, p.through(k, i, j));
        }
    }

    proof fn lemma_half_range(self, i: int, j: int)
        requires
            self.wf(),
            self.has(i, j),
        ensures
            DBM_FLOOR <= self.half_sum(i, j) <= DBM_INF,
            i128::MIN <= self.at(i, j) <= DBM_INF,
    {
        self.lemma_cell(i, arith::mirror(i));
        self.lemma_cell(arith::mirror(j), j);
        self.lemma_cell(i, j);
    }

    /// Taking half-sums only lowers cells, and never onto the marker.
    pub proof fn lemma_halved(self, t: int)
        requires
            self.wf(),
            0 <= t <= self.n * self.n,
        ensures
            self.halved(t).wf(),
            self.halved(t).below(self),
            self.no_min() ==> self.halved(t).no_min(),
            self.floored() ==> self.halved(t).floored(),
        decreases t,
    {
        if t > 0 {
            self.lemma_halved(t - 1);
            let p = self.halved(t - 1);
            Grid::lemma_unindex(self.n, t - 1);
            let (i, j) = ((t - 1) / self.n, (t - 1) % self.n);
            p.lemma_half_range(i, j);
            p.lemma_put(i, j, grid::min2(p.at(i, j), p.half_sum(i, j)));
        }
    }

    proof fn lemma_halved_admits(self, t: int, v: Seq<int>, d: int)
        requires
            self.wf(),
            0 <= t <= self.n * self.n,
            self.admits(v, d),
            d >= 1,
        ensures
            self.halved(t).admits(v, d),
        decreases t,
    {
        if t > 0 {
            self.lemma_halved(t - 1);
            self.lemma_halved_admits(t - 1, v, d);
            let p = self.halved(t - 1);
            Grid::lemma_unindex(self.n, t - 1);
            let (i, j) = ((t - 1) / self.n, (t - 1) % self.n);
            p.lemma_half_range(i, j);
            p.lemma_half_admits(i, j, v, d);
            p.lemma_put(i, j, grid::min2(p.at(i, j), p.half_sum(i, j)));
        }
    }

    proof fn lemma_halved_above(self, low: Grid, t: int)
        requires
            self.wf(),
            low.wf(),
            low.below(self),
            low.half_bounded(),
            0 <= t <= self.n * self.n,
        ensures
            low.below(self.halved(t)),
        decreases t,
    {
        if t > 0 {
            self.lemma_halved(t - 1);
            self.lemma_halved_above(low, t - 1);
            let p = self.halved(t - 1);
            Grid::lemma_unindex(self.n, t - 1);
            let (i, j) = ((t - 1) / self.n, (t - 1) % self.n);
            p.lemma_half_range(i, j);
            p.lemma_half_above(low, i, j);
            p.lemma_put(i, j, grid::min2(p.at(i, j), p.half_sum(i, j)));
        }
    }

    pub proof fn lemma_square(n: int)
        requires
            n >= 0,
        ensures
            n * n >= 0,
    {
        assert(n * n >= 0) by (nonlinear_arith)
            requires
                n >= 0,
        ;
    }

    /// A pass only lowers cells, and never onto the marker.
    pub proof fn lemma_pivoted(self, p: int)
        requires
            self.wf(),
            0 <= p <= self.n / 2,
        ensures
            self.pivoted(p).wf(),
            self.pivoted(p).below(self),
            self.no_min() ==> self.pivoted(p).no_min(),
            self.floored() ==> self.pivoted(p).floored(),
        decreases p,
    {
        if p > 0 {
            self.lemma_pivoted(p - 1);
            let g = self.pivoted(p - 1);
            Grid::lemma_square(self.n);
            g.lemma_relaxed(2 * (p - 1), self.n * self.n);
            let h = g.relaxed_all(2 * (p - 1));
            h.lemma_halved(self.n * self.n);
        }
    }

    pub proof fn lemma_pivoted_admits(self, p: int, v: Seq<int>, d: int)
        requires
            self.wf(),
            0 <= p <= self.n / 2,
            self.admits(v, d),
            d >= 1,
        ensures
            self.pivoted(p).admits(v, d),
        decreases p,
    {
        if p > 0 {
            self.lemma_pivoted(p - 1);
            self.lemma_pivoted_admits(p - 1, v, d);
            let g = self.pivoted(p - 1);
            Grid::lemma_square(self.n);
            g.lemma_relaxed(2 * (p - 1), self.n * self.n);
            g.lemma_relaxed_admits(2 * (p - 1), self.n * self.n, v, d);
            let h = g.relaxed_all(2 * (p - 1));
            h.lemma_halved_admits(self.n * self.n, v, d);
        }
    }

    proof fn lemma_pivoted_above(self, low: Grid, p: int)
        requires
            self.wf(),
            low.wf(),
            low.below(self),
            low.triangle(),
            low.half_bounded(),
            0 <= p <= self.n / 2,
        ensures
            low.below(self.pivoted(p)),
        decreases p,
    {
        if p > 0 {
            self.lemma_pivoted(p - 1);
            self.lemma_pivoted_above(low, p - 1);
            let g = self.pivoted(p - 1);
            Grid::lemma_square(self.n);
            g.lemma_relaxed(2 * (p - 1), self.n * self.n);
            g.lemma_relaxed_above(low, 2 * (p - 1), self.n * self.n);
            let h = g.relaxed_all(2 * (p - 1));
            h.lemma_halved_above(low, self.n * self.n);
        }
    }

    // -----------------------------------------------------------------------
    // The integer round
    // -----------------------------------------------------------------------

    /// The cells of a tightened matrix.
    pub proof fn lemma_tightened(self, e: int)
        requires
            self.wf(),
            0 <= e <= self.n,
        ensures
            self.tightened(e).wf(),
            self.tightened(e).n == self.n,
            self.floored() ==> self.tightened(e).below(self),
            self.floored() ==> self.tightened(e).floored(),
            forall|i: int, j: int|
                self.has(i, j) && !(i < e && j == arith::mirror(i)) ==> #[trigger] self.tightened(
                    e,
                ).at(i, j) == self.at(i, j),
            forall|i: int|
                0 <= i < e ==> #[trigger] self.tightened(e).at(i, arith::mirror(i)) == (if self.at(
                    i,
                    arith::mirror(i),
                ) != DBM_INF && self.at(i, arith::mirror(i)) % 4 != 0 {
                    arith::spec_floor4(self.at(i, arith::mirror(i)))
                } else {
                    self.at(i, arith::mirror(i))
                }),
        decreases e,
    {
        if e > 0 {
            self.lemma_tightened(e - 1);
            let p = self.tightened(e - 1);
            let eb = arith::mirror(e - 1);
            p.lemma_cell(e - 1, eb);
            let s = p.at(e - 1, eb);
            if s != DBM_INF && s % 4 != 0 {
                p.lemma_put(e - 1, eb, arith::spec_floor4(s));
                lemma_floor4(s);
            }
        }
    }

    proof fn lemma_tightened_admits(self, v: Seq<int>)
        requires
            self.wf(),
            self.admits(v, 1),
        ensures
            self.tightened(self.n).admits(v, 1),
    {
        let t = self.tightened(self.n);
        self.lemma_tightened(self.n);
        assert forall|i: int, j: int|
            t.has(i, j) && #[trigger] t.at(i, j) != DBM_INF implies 2 * (grid::node(v, i)
            - grid::node(v, j)) <= 1 * t.at(i, j) by {
            self.lemma_cell(i, j);
            lemma_node_mirror(v, i);
            assert(self.at(i, j) != DBM_INF);
            if j == arith::mirror(i) {
                lemma_floor4(self.at(i, j));
            }
        }
    }

    proof fn lemma_tightened_above(self, low: Grid)
        requires
            self.wf(),
            low.wf(),
            low.below(self),
            low.rounded(),
        ensures
            low.below(self.tightened(self.n)),
    {
        let t = self.tightened(self.n);
        self.lemma_tightened(self.n);
        assert forall|i: int, j: int| low.has(i, j) implies #[trigger] low.at(i, j) <= t.at(
            i,
            j,
        ) by {
            self.lemma_cell(i, j);
            if j == arith::mirror(i) {
                lemma_floor4(self.at(i, j));
                assert(low.at(i, arith::mirror(i)) == DBM_INF || low.at(i, arith::mirror(i)) % 4
                    == 0);
            }
        }
    }

    /// A round only lowers cells, and never onto the marker.
    pub proof fn lemma_round(self, exact: bool)
        requires
            self.wf(),
        ensures
            self.round(exact).grid.wf(),
            self.round(exact).grid.n == self.n,
            !exact || self.floored() ==> self.round(exact).grid.below(self),
            !exact && self.no_min() ==> self.round(exact).grid.no_min(),
            self.floored() ==> self.round(exact).grid.floored(),
    {
        let p = self.pass();
        self.lemma_pivoted(self.n / 2);
        if exact {
            p.lemma_tightened(p.n);
            let t = p.tightened(p.n);
            Grid::lemma_square(self.n);
            t.lemma_halved(self.n * self.n);
        }
    }

    proof fn lemma_round_admits(self, exact: bool, v: Seq<int>, d: int)
        requires
            self.wf(),
            self.admits(v, d),
            d >= 1,
            exact ==> d == 1,
        ensures
            self.round(exact).ok,
            self.round(exact).grid.admits(v, d),
    {
        let p = self.pass();
        self.lemma_pivoted(self.n / 2);
        self.lemma_pivoted_admits(self.n / 2, v, d);
        if exact {
            p.lemma_tightened_admits(v);
            p.lemma_tightened(p.n);
            let t = p.tightened(p.n);
            assert forall|x: int| 0 <= x < t.n / 2 implies #[trigger] arith::oplus(
                t.at(2 * x, 2 * x + 1),
                t.at(2 * x + 1, 2 * x),
            ) >= 0 by {
                lemma_node_mirror(v, 2 * x);
                t.lemma_cell(2 * x, 2 * x + 1);
                t.lemma_cell(2 * x + 1, 2 * x);
                lemma_oplus_bounds(
                    grid::node(v, 2 * x) - grid::node(v, 2 * x + 1),
                    grid::node(v, 2 * x + 1) - grid::node(v, 2 * x),
                    t.at(2 * x, 2 * x + 1),
                    t.at(2 * x + 1, 2 * x),
                    1,
                );
            }
            Grid::lemma_square(self.n);
            t.lemma_halved_admits(self.n * self.n, v, d);
        }
    }

    proof fn lemma_round_above(self, low: Grid, exact: bool)
        requires
            self.wf(),
            low.wf(),
            low.below(self),
            low.strongly_closed(),
            exact ==> low.rounded(),
        ensures
            self.round(exact).ok,
            low.below(self.round(exact).grid),
    {
        let p = self.pass();
        self.lemma_pivoted(self.n / 2);
        self.lemma_pivoted_above(low, self.n / 2);
        if exact {
            p.lemma_tightened_above(low);
            p.lemma_tightened(p.n);
            let t = p.tightened(p.n);
            assert forall|x: int| 0 <= x < t.n / 2 implies #[trigger] arith::oplus(
                t.at(2 * x, 2 * x + 1),
                t.at(2 * x + 1, 2 * x),
            ) >= 0 by {
                t.lemma_cell(2 * x, 2 * x + 1);
                t.lemma_cell(2 * x + 1, 2 * x);
                lemma_oplus_mono(
                    low.at(2 * x, 2 * x + 1),
                    low.at(2 * x + 1, 2 * x),
                    t.at(2 * x, 2 * x + 1),
                    t.at(2 * x + 1, 2 * x),
                );
                assert(low.has(2 * x, 2 * x + 1) && low.has(2 * x + 1, 2 * x));
                assert(low.at(2 * x, 2 * x) <= arith::oplus(
                    low.at(2 * x, 2 * x + 1),
                    low.at(2 * x + 1, 2 * x),
                ));
            }
            Grid::lemma_square(self.n);
            t.lemma_halved_above(low, self.n * self.n);
        }
    }

    // -----------------------------------------------------------------------
    // The whole of closing
    // -----------------------------------------------------------------------

    /// The rounds only lower cells, and never onto the marker.
    pub proof fn lemma_rounds(self, exact: bool)
        requires
            self.wf(),
        ensures
            self.rounds(exact).grid.wf(),
            self.rounds(exact).grid.n == self.n,
            !exact || self.floored() ==> self.rounds(exact).grid.below(self),
            !exact && self.no_min() ==> self.rounds(exact).grid.no_min(),
            self.floored() ==> self.rounds(exact).grid.floored(),
    {
        self.lemma_round(exact);
        let g = self.round(exact).grid;
        g.lemma_mirrored();
        g.mirrored().lemma_round(exact);
        assert forall|i: int, j: int| g.has(i, j) implies g.has(
            arith::mirror(j),
            arith::mirror(i),
        ) by {}
        assert(g.no_min() ==> g.mirrored().no_min());
        assert(g.floored() ==> g.mirrored().floored());
    }

    proof fn lemma_mirrored_admits(self, v: Seq<int>, d: int)
        requires
            self.wf(),
            self.admits(v, d),
        ensures
            self.mirrored().admits(v, d),
    {
        let g = self.mirrored();
        self.lemma_mirrored();
        assert forall|i: int, j: int|
            g.has(i, j) && #[trigger] g.at(i, j) != DBM_INF implies 2 * (grid::node(v, i)
            - grid::node(v, j)) <= d * g.at(i, j) by {
            let (ib, jb) = (arith::mirror(i), arith::mirror(j));
            lemma_node_mirror(v, i);
            lemma_node_mirror(v, j);
            self.lemma_cell(i, j);
            self.lemma_cell(jb, ib);
            assert(self.has(jb, ib));
            assert(self.at(jb, ib) != DBM_INF ==> 2 * (grid::node(v, jb) - grid::node(v, ib))
                <= d * self.at(jb, ib));
        }
    }

    /// The cells of a matrix with part of its diagonal set to zero.
    pub proof fn lemma_zeroed(self, e: int)
        requires
            self.wf(),
            0 <= e <= self.n,
        ensures
            self.zeroed(e).wf(),
            self.zeroed(e).n == self.n,
            forall|i: int, j: int|
                self.has(i, j) ==> #[trigger] self.zeroed(e).at(i, j) == (if i == j && i < e {
                    0
                } else {
                    self.at(i, j)
                }),
        decreases e,
    {
        if e > 0 {
            self.lemma_zeroed(e - 1);
            self.zeroed(e - 1).lemma_put(e - 1, e - 1, 0);
        }
    }

    /// The cells of a matrix without markers.
    pub proof fn lemma_unmarked(self)
        requires
            self.wf(),
        ensures
            self.unmarked().wf(),
            forall|i: int, j: int|
                self.has(i, j) ==> #[trigger] self.unmarked().at(i, j) == (if self.at(i, j)
                    == i128::MIN {
                    DBM_INF as int
                } else {
                    self.at(i, j)
                }),
    {
        assert forall|i: int, j: int| self.has(i, j) implies #[trigger] self.unmarked().at(i, j)
            == (if self.at(i, j) == i128::MIN {
            DBM_INF as int
        } else {
            self.at(i, j)
        }) by {
            Grid::lemma_index(self.n, i, j);
        }
    }

    /// Closing keeps the matrix well-formed; where the constraints do not
    /// contradict each other the diagonal of the result is zero and no marker
    /// is left.
    pub proof fn lemma_closed_form(self, exact: bool)
        requires
            self.wf(),
        ensures
            self.closed_form(exact).grid.wf(),
            self.closed_form(exact).grid.n == self.n,
            self.closed_form(exact).ok ==> {
                &&& self.closed_form(exact).grid.zero_diagonal()
                &&& self.closed_form(exact).grid.no_min()
                &&& self.rounds(exact).ok
                &&& self.rounds(exact).grid.first_negative(0) == self.n
            },
    {
        self.lemma_rounds(exact);
        let r = self.rounds(exact).grid;
        r.lemma_first_negative(0);
        r.lemma_zeroed(r.first_negative(0));
        r.lemma_zeroed(r.n);
        r.zeroed(r.n).lemma_unmarked();
        let c = self.closed_form(exact);
        if c.ok {
            assert forall|i: int| 0 <= i < c.grid.n implies #[trigger] c.grid.at(i, i) == 0 by {
                assert(r.zeroed(r.n).has(i, i));
                assert(r.zeroed(r.n).at(i, i) == 0);
            }
            assert forall|i: int, j: int| c.grid.has(i, j) implies #[trigger] c.grid.at(i, j)
                != i128::MIN by {
                assert(r.zeroed(r.n).has(i, j));
            }
        }
    }

    /// Closing keeps every solution: a rational point that meets the
    /// constraints still meets them after strong closure, and an integer point
    /// after integer closure; in particular a contradiction is never reported
    /// where there is a solution.
    pub proof fn law_closing_keeps_points(self, exact: bool, v: Seq<int>, d: int)
        requires
            self.wf(),
            d >= 1,
            exact ==> d == 1,
            self.admits(v, d),
        ensures
            self.closed_form(exact).ok,
            self.closed_form(exact).grid.admits(v, d),
    {
        self.lemma_round(exact);
        self.lemma_round_admits(exact, v, d);
        let g = self.round(exact).grid;
        g.lemma_mirrored();
        g.lemma_mirrored_admits(v, d);
        g.mirrored().lemma_round(exact);
        g.mirrored().lemma_round_admits(exact, v, d);
        let r = self.rounds(exact).grid;
        self.lemma_rounds(exact);
        assert(r.admits(v, d));
        r.lemma_first_negative(0);
        if r.first_negative(0) < r.n {
            let i = r.first_negative(0);
            assert(r.has(i, i) && r.at(i, i) != DBM_INF);
            assert(d * r.at(i, i) < 0) by (nonlinear_arith)
                requires
                    d >= 1,
                    r.at(i, i) < 0,
            ;
        }
        r.lemma_zeroed(r.n);
        let z = r.zeroed(r.n);
        z.lemma_unmarked();
        assert forall|i: int, j: int|
            z.unmarked().has(i, j) && #[trigger] z.unmarked().at(i, j) != DBM_INF implies 2 * (
        grid::node(v, i) - grid::node(v, j)) <= d * z.unmarked().at(i, j) by {
            assert(z.has(i, j) && r.has(i, j));
            if i == j {
                assert(d * 0 == 0) by (nonlinear_arith);
            } else {
                assert(r.at(i, j) == z.at(i, j));
                assert(r.at(i, j) != DBM_INF);
            }
        }
    }

    /// Where no cell holds the marker (in integer mode: where no cell is below
    /// the lowest bound that closing writes), closing tightens every cell or
    /// leaves it alone.
    pub proof fn law_closing_tightens(self, exact: bool)
        requires
            self.wf(),
            self.no_min(),
            exact ==> self.floored(),
            self.closed_form(exact).ok,
        ensures
            self.closed_form(exact).grid.below(self),
    {
        self.lemma_rounds(exact);
        self.lemma_closed_form(exact);
        let r = self.rounds(exact).grid;
        r.lemma_first_negative(0);
        r.lemma_zeroed(r.n);
        let z = r.zeroed(r.n);
        z.lemma_unmarked();
        let c = self.closed_form(exact).grid;
        assert forall|i: int, j: int| c.has(i, j) implies #[trigger] c.at(i, j) <= self.at(
            i,
            j,
        ) by {
            assert(z.has(i, j) && r.has(i, j) && self.has(i, j));
            assert(r.at(i, j) != i128::MIN);
            assert(r.at(i, j) <= self.at(i, j));
            if i == j {
                assert(r.at(i, i) >= 0);
            }
        }
    }

    /// Closing adds no solution.
    pub proof fn law_closing_adds_no_points(self, exact: bool, v: Seq<int>, d: int)
        requires
            self.wf(),
            self.no_min(),
            exact ==> self.floored(),
            d >= 1,
            self.closed_form(exact).ok,
            self.closed_form(exact).grid.admits(v, d),
        ensures
            self.admits(v, d),
    {
        self.lemma_closed_form(exact);
        self.law_closing_tightens(exact);
        let c = self.closed_form(exact).grid;
        assert forall|i: int, j: int|
            self.has(i, j) && #[trigger] self.at(i, j) != DBM_INF implies 2 * (grid::node(v, i)
            - grid::node(v, j)) <= d * self.at(i, j) by {
            assert(c.has(i, j));
            self.lemma_cell(i, j);
            assert(c.at(i, j) <= self.at(i, j));
            assert(d * c.at(i, j) <= d * self.at(i, j)) by (nonlinear_arith)
                requires
                    d >= 1,
                    c.at(i, j) <= self.at(i, j),
            ;
        }
    }

    /// The closure lies above every strongly closed matrix below the input (in
    /// integer mode: every such matrix in the integer normal form), and a
    /// contradiction is not reported where there is one.
    pub proof fn law_closing_is_greatest(self, low: Grid, exact: bool)
        requires
            self.wf(),
            low.wf(),
            low.below(self),
            low.strongly_closed(),
            exact ==> low.rounded(),
        ensures
            self.closed_form(exact).ok,
            low.below(self.closed_form(exact).grid),
    {
        self.lemma_round(exact);
        self.lemma_round_above(low, exact);
        let g = self.round(exact).grid;
        g.lemma_mirrored();
        assert(low.below(g.mirrored())) by {
            assert forall|i: int, j: int| low.has(i, j) implies #[trigger] low.at(i, j)
                <= g.mirrored().at(i, j) by {
                let (ib, jb) = (arith::mirror(i), arith::mirror(j));
                assert(g.has(i, j) && g.has(jb, ib) && low.has(jb, ib));
                assert(low.at(i, j) == low.at(jb, ib));
                assert(low.at(jb, ib) <= g.at(jb, ib));
            }
        }
        g.mirrored().lemma_round(exact);
        g.mirrored().lemma_round_above(low, exact);
        let r = self.rounds(exact).grid;
        self.lemma_rounds(exact);
        r.lemma_first_negative(0);
        if r.first_negative(0) < r.n {
            let i = r.first_negative(0);
            assert(low.has(i, i));
            assert(low.at(i, i) == 0);
            assert(low.at(i, i) <= r.at(i, i));
        }
        r.lemma_zeroed(r.n);
        let z = r.zeroed(r.n);
        z.lemma_unmarked();
        assert forall|i: int, j: int| low.has(i, j) implies #[trigger] low.at(i, j)
            <= z.unmarked().at(i, j) by {
            assert(z.has(i, j) && r.has(i, j));
            low.lemma_cell(i, j);
            assert(low.at(i, j) <= r.at(i, j));
            if i == j {
                assert(low.at(i, i) == 0);
            }
        }
    }

    /// Closing a strongly closed matrix (in integer mode: one in the integer
    /// normal form) changes nothing.
    pub proof fn law_closing_fixes_closed(self, exact: bool)
        requires
            self.wf(),
            self.no_min(),
            self.strongly_closed(),
            exact ==> self.rounded() && self.floored(),
        ensures
            self.closed_form(exact) == (Verdict { grid: self, ok: true }),
    {
        self.law_closing_is_greatest(self, exact);
        self.law_closing_tightens(exact);
        self.lemma_closed_form(exact);
        let c = self.closed_form(exact).grid;
        assert forall|i: int, j: int| self.has(i, j) implies #[trigger] self.at(i, j) == c.at(
            i,
            j,
        ) by {
            assert(c.has(i, j));
            assert(c.at(i, j) <= self.at(i, j));
        }
        self.lemma_ext(c);
    }

    /// Whatever the input, the result of integer closing is in the integer
    /// normal form.
    pub proof fn law_integer_closing_rounds(self)
        requires
            self.wf(),
            self.closed_form(true).ok,
        ensures
            self.closed_form(true).grid.rounded(),
    {
        self.lemma_closed_form(true);
        self.lemma_round(true);
        self.lemma_round_rounds();
        let g = self.round(true).grid;
        g.lemma_mirrored();
        g.mirrored().lemma_round(true);
        g.mirrored().lemma_round_rounds();
        let r = self.rounds(true).grid;
        self.lemma_rounds(true);
        assert(r.rounded());
        r.lemma_zeroed(r.n);
        let z = r.zeroed(r.n);
        z.lemma_unmarked();
        let c = self.closed_form(true).grid;
        assert forall|i: int| 0 <= i < c.n implies #[trigger] c.at(i, arith::mirror(i)) == DBM_INF
            || c.at(i, arith::mirror(i)) % 4 == 0 by {
            assert(z.has(i, arith::mirror(i)) && r.has(i, arith::mirror(i)));
            assert(z.at(i, arith::mirror(i)) == r.at(i, arith::mirror(i)));
        }
    }

    proof fn lemma_round_rounds(self)
        requires
            self.wf(),
        ensures
            self.round(true).ok ==> self.round(true).grid.rounded(),
    {
        let p = self.pass();
        self.lemma_pivoted(self.n / 2);
        p.lemma_tightened(p.n);
        let t = p.tightened(p.n);
        assert(t.rounded()) by {
            assert forall|i: int| 0 <= i < t.n implies #[trigger] t.at(i, arith::mirror(i))
                == DBM_INF || t.at(i, arith::mirror(i)) % 4 == 0 by {
                p.lemma_cell(i, arith::mirror(i));
                lemma_floor4(p.at(i, arith::mirror(i)));
            }
        }
        Grid::lemma_square(self.n);
        t.lemma_halved_self_dual(self.n * self.n);
        t.lemma_halved(self.n * self.n);
        let h = t.halved_all();
        assert forall|i: int| 0 <= i < h.n implies #[trigger] h.at(i, arith::mirror(i)) == DBM_INF
            || h.at(i, arith::mirror(i)) % 4 == 0 by {
            assert(t.at(i, arith::mirror(i)) == DBM_INF || t.at(i, arith::mirror(i)) % 4 == 0);
        }
    }

    /// Taking half-sums moves a self-dual cell only where that cell is so low
    /// or so high that doubling it clips, and then onto a multiple of four.
    proof fn lemma_halved_self_dual(self, t: int)
        requires
            self.wf(),
            self.rounded(),
            0 <= t <= self.n * self.n,
        ensures
            self.halved(t).rounded(),
        decreases t,
    {
        if t > 0 {
            self.lemma_halved_self_dual(t - 1);
            self.lemma_halved(t - 1);
            let p = self.halved(t - 1);
            Grid::lemma_unindex(self.n, t - 1);
            let (i, j) = ((t - 1) / self.n, (t - 1) % self.n);
            p.lemma_half_range(i, j);
            let w = grid::min2(p.at(i, j), p.half_sum(i, j));
            p.lemma_put(i, j, w);
            let h = self.halved(t);
            assert forall|a: int| 0 <= a < h.n implies #[trigger] h.at(a, arith::mirror(a))
                == DBM_INF || h.at(a, arith::mirror(a)) % 4 == 0 by {
                assert(p.has(a, arith::mirror(a)));
                assert(p.at(a, arith::mirror(a)) == DBM_INF || p.at(a, arith::mirror(a)) % 4 == 0);
                if a == i && arith::mirror(a) == j {
                    assert(arith::mirror(j) == i);
                    p.lemma_cell(i, j);
                    assert(w == p.at(i, j));
                }
            }
        }
    }
}

/// Rounding down to a multiple of four.
pub proof fn lemma_floor4(s: int)
    requires
        i128::MIN <= s <= DBM_INF,
    ensures
        s >= DBM_FLOOR ==> arith::spec_floor4(s) <= s,
        s == DBM_INF ==> s % 4 != 0,
        arith::spec_floor4(s) % 4 == 0,
        DBM_FLOOR <= arith::spec_floor4(s) <= DBM_INF,
        s - s % 4 <= arith::spec_floor4(s),
{
}

} // verus!
