//! How much the transfer operations keep.
use vstd::prelude::*;
use crate::octagon::arith;
use crate::octagon::arith::DBM_INF;
use crate::octagon::dbm;
use crate::octagon::dbm::Oct;
use crate::octagon::expr::OctExpr;
use crate::octagon::grid;
use crate::octagon::grid::Grid;

verus! {

impl Grid {
    /// A widening keeps every bound that the right operand meets, and no other: where the right
    /// operand meets them all, nothing changes.
    pub proof fn law_widening_keeps_met_bounds(self, other: Grid, i: int, j: int)
        requires
            self.wf(),
            other.wf(),
            self.n == other.n,
            self.has(i, j),
        ensures
            other.at(i, j) <= self.at(i, j) ==> self.widened(other).at(i, j) == self.at(i, j),
            other.at(i, j) > self.at(i, j) ==> self.widened(other).at(i, j) == DBM_INF,
            other.below(self) ==> self.widened(other) == self,
    {
        self.lemma_widened(other);
        if other.below(self) {
            let m = self.widened(other);
            assert forall|a: int, b: int| m.has(a, b) implies #[trigger] m.at(a, b) == self.at(
                a,
                b,
            ) by {
                assert(self.has(a, b) && other.has(a, b));
                assert(other.at(a, b) <= self.at(a, b));
            }
            m.lemma_ext(self);
        }
    }

    /// Dropping the constraints on a variable keeps all bounds on the others, and leaves none on
    /// the variable.
    pub proof fn law_forgetting_keeps_others(self, x: int, i: int, j: int)
        requires
            self.wf(),
            self.has(i, j),
            i != j,
        ensures
            i / 2 != x && j / 2 != x ==> self.dropped(x).at(i, j) == self.at(i, j),
            i / 2 == x || j / 2 == x ==> self.dropped(x).at(i, j) == DBM_INF,
    {
        self.lemma_dropped(x);
    }

    /// The points after `x := y + c` are exactly those in which `x` is `y + c` and that meet what
    /// was known of the other variables, where `2 * c` can be stored.
    pub proof fn law_copying_is_exact(self, x: int, y: int, c: int, w: Seq<int>, d: int)
        requires
            self.wf(),
            0 <= x < self.n / 2,
            0 <= y < self.n / 2,
            x != y,
            -DBM_INF < 2 * c < DBM_INF,
            w.len() == self.n / 2,
            d >= 1,
        ensures
            self.dropped(x).bounded(2 * x, 2 * y, c).bounded(
                2 * y,
                2 * x,
                arith::spec_sat_neg(c),
            ).admits(w, d) <==> self.dropped(x).admits(w, d) && w[x] == w[y] + d * c,
    {
        let g = self.dropped(x);
        self.lemma_dropped(x);
        assert(g.has(2 * x, 2 * y) && g.has(2 * y, 2 * x));
        assert(grid::node(w, 2 * x) == w[x]);
        assert(grid::node(w, 2 * y) == w[y]);
        g.law_guard_filters(2 * x, 2 * y, c, w, d);
        g.lemma_bounded(2 * x, 2 * y, c);
        let h = g.bounded(2 * x, 2 * y, c);
        assert(arith::spec_sat_neg(c) == -c);
        h.law_guard_filters(2 * y, 2 * x, -c, w, d);
        assert(d * (-c) == -(d * c)) by (nonlinear_arith);
    }

    /// The points after `x` has been given values between `lo` and `hi` are exactly those in which
    /// `x` is between them and that meet what was known of the other variables.
    pub proof fn law_boxing_is_exact(
        self,
        x: int,
        lo: Option<int>,
        hi: Option<int>,
        w: Seq<int>,
        d: int,
    )
        requires
            self.wf(),
            0 <= x < self.n / 2,
            w.len() == self.n / 2,
            d >= 1,
            lo matches Some(l) ==> -DBM_INF < 4 * l < DBM_INF,
            hi matches Some(h) ==> -DBM_INF < 4 * h < DBM_INF,
        ensures
            self.box_grid(x, lo, hi).admits(w, d) <==> {
                &&& self.dropped(x).admits(w, d)
                &&& lo matches Some(l) ==> d * l <= w[x]
                &&& hi matches Some(h) ==> w[x] <= d * h
            },
    {
        let g0 = self.dropped(x);
        self.lemma_dropped(x);
        let (p, q) = (2 * x, 2 * x + 1);
        assert(g0.has(p, q) && g0.has(q, p));
        assert(grid::node(w, p) == w[x] && grid::node(w, q) == -w[x]);
        let g1 = match hi {
            Some(h) => g0.bounded(p, q, arith::spec_sat_mul2(h)),
            None => g0,
        };
        if let Some(h) = hi {
            g0.law_guard_filters(p, q, 2 * h, w, d);
            g0.lemma_bounded(p, q, 2 * h);
            assert(d * (2 * h) == 2 * (d * h)) by (nonlinear_arith);
        }
        if let Some(l) = lo {
            g1.law_guard_filters(q, p, -2 * l, w, d);
            assert(d * (-2 * l) == -2 * (d * l)) by (nonlinear_arith);
            assert(arith::spec_sat_mul2(arith::spec_sat_neg(l)) == -2 * l);
        }
    }
}

impl Oct {
    /// A bound that is read is the greatest integer that the stored bound allows; none is read
    /// only where none is stored.
    pub proof fn law_read_bounds_are_tight(self, i: int, j: int)
        requires
            !self.bottom,
            self.grid.wf(),
            self.grid.has(i, j),
        ensures
            self.bound(i, j) is None <==> self.grid.at(i, j) == DBM_INF,
            self.bound(i, j) matches Some(c) ==> 2 * c <= self.grid.at(i, j) < 2 * (c + 1),
    {
    }

    /// The interval that is read for a variable has the greatest integer that the stored bound
    /// allows as its upper end, and the least as its lower end; an end is missing only where no
    /// bound is stored, or the lower end cannot be represented.
    pub proof fn law_read_intervals_are_tight(self, x: int)
        requires
            !self.bottom,
            self.grid.wf(),
            0 <= x < self.grid.n / 2,
        ensures
            ({
                let high = self.grid.at(2 * x, 2 * x + 1);
                let low = self.grid.at(2 * x + 1, 2 * x);
                &&& self.upper(x) is None <==> high == DBM_INF
                &&& self.upper(x) matches Some(u) ==> 4 * u <= high < 4 * (u + 1)
                &&& low == DBM_INF ==> self.lower(x) is None
                &&& low != DBM_INF && low > -DBM_INF ==> self.lower(x) is Some
                &&& self.lower(x) matches Some(l) ==> 4 * (l - 1) < -low <= 4 * l
            }),
    {
        self.grid.lemma_cell(2 * x, 2 * x + 1);
        self.grid.lemma_cell(2 * x + 1, 2 * x);
    }

    /// Nothing but the points in which `x` is `y + c` is left after `x := y + c`.
    pub proof fn law_copies_are_equal(self, x: int, y: int, c: int, w: Seq<int>, d: int)
        requires
            self.grid.wf(),
            self.grid.no_min(),
            !self.bottom,
            0 <= x < self.grid.n / 2,
            0 <= y < self.grid.n / 2,
            x != y,
            -DBM_INF < 2 * c < DBM_INF,
            w.len() == self.grid.n / 2,
            d >= 1,
            !self.copied(x, y, c).bottom,
            self.copied(x, y, c).grid.admits(w, d),
        ensures
            w[x] == w[y] + d * c,
    {
        let g = self.grid.dropped(x);
        self.grid.lemma_dropped(x);
        assert(g.no_min()) by {
            assert forall|i: int, j: int| g.has(i, j) implies #[trigger] g.at(i, j)
                != i128::MIN by {
                assert(self.grid.has(i, j));
                assert(self.grid.at(i, j) != i128::MIN);
            }
        }
        g.lemma_bounded(2 * x, 2 * y, c);
        let h = g.bounded(2 * x, 2 * y, c);
        h.lemma_bounded(2 * y, 2 * x, arith::spec_sat_neg(c));
        let k = h.bounded(2 * y, 2 * x, arith::spec_sat_neg(c));
        k.law_closing_adds_no_points(false, w, d);
        self.grid.law_copying_is_exact(x, y, c, w, d);
    }
}

/// Both ends are there.
pub open spec fn has_ends(r: (int, int)) -> bool {
    i128::MIN < r.0 && r.1 < DBM_INF
}

/// The number is strictly between the two that stand for no bound.
pub open spec fn is_between(c: int) -> bool {
    i128::MIN < c < DBM_INF
}

impl OctExpr {
    /// Interval evaluation loses nothing on sums, differences, negations and multiples whose
    /// operands have both ends: the ends are those of the interval of all results, as long as
    /// they can be represented.
    pub proof fn law_intervals_are_exact(self, o: Oct)
        ensures
            match self {
                OctExpr::Const(c) => self.interval(o) == (c as int, c as int),
                OctExpr::Var(i) => {
                    &&& o.lower(i as int) matches Some(l) ==> self.interval(o).0 == l
                    &&& o.upper(i as int) matches Some(u) ==> self.interval(o).1 == u
                },
                OctExpr::Add(l, r) => {
                    let (a, b) = (l.interval(o), r.interval(o));
                    has_ends(a) && has_ends(b) && is_between(a.0 + b.0) && is_between(a.1 + b.1)
                        ==> self.interval(o) == (a.0 + b.0, a.1 + b.1)
                },
                OctExpr::Sub(l, r) => {
                    let (a, b) = (l.interval(o), r.interval(o));
                    has_ends(a) && has_ends(b) && is_between(a.0 - b.1) && is_between(a.1 - b.0)
                        ==> self.interval(o) == (a.0 - b.1, a.1 - b.0)
                },
                OctExpr::Neg(e) => {
                    let a = e.interval(o);
                    has_ends(a) && is_between(-a.0) && is_between(-a.1) ==> self.interval(o) == (
                        -a.1,
                        -a.0,
                    )
                },
                OctExpr::Scale(k, e) => {
                    let a = e.interval(o);
                    has_ends(a) && is_between(k * a.0) && is_between(k * a.1) ==> self.interval(o)
                        == if k >= 0 {
                        (k * a.0, k * a.1)
                    } else {
                        (k * a.1, k * a.0)
                    }
                },
            },
    {
        if let OctExpr::Scale(k, e) = self {
            let a = e.interval(o);
            if k == 0 {
                assert(0 * a.0 == 0 && 0 * a.1 == 0) by (nonlinear_arith);
            }
        }
    }
}

} // verus!
