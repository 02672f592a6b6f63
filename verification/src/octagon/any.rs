//! Closing small bounds, whether or not they mirror each other.
use vstd::prelude::*;
use crate::octagon::arith;
use crate::octagon::arith::DBM_INF;
use crate::octagon::exact;
use crate::octagon::exact::ROOM;
use crate::octagon::grid;
use crate::octagon::grid::Grid;
use crate::octagon::linear;

verus! {

/// What bounds of at most `r` can grow to in `p` pivot pairs.
pub open spec fn grown(r: int, p: int) -> int
    decreases p,
{
    if p <= 0 {
        r
    } else {
        3 * grown(r, p - 1)
    }
}

proof fn lemma_grown(r: int, p: int, q: int)
    requires
        0 <= r,
        p <= q,
    ensures
        0 <= r <= grown(r, p) <= grown(r, q),
    decreases q,
{
    if 0 < q {
        if p < q {
            lemma_grown(r, p, q - 1);
        } else {
            lemma_grown(r, p - 1, q - 1);
        }
    }
}

impl Grid {
    /// One pivot pair at most trebles a bound.
    proof fn lemma_pair_grows(self, k: int, r: int)
        requires
            self.wf(),
            self.small(r),
            0 <= r <= ROOM,
            0 <= k < self.n,
            k % 2 == 0,
            self.pair_consistent(k),
        ensures
            self.relaxed_all(k).halved_all().small(3 * r),
    {
        self.lemma_smaller(r);
        self.lemma_star(k);
        self.lemma_relaxed_is_star(k);
        let s = self.star(k);
        assert forall|i: int, j: int| s.has(i, j) implies exact::fits(
            #[trigger] s.at(i, j),
            3 * r,
        ) by {
            let l = k + 1;
            assert(self.has(i, j) && self.has(i, k) && self.has(k, j) && self.has(i, l));
            assert(self.has(l, j) && self.has(k, l) && self.has(l, k));
            assert(exact::fits(self.at(i, j), r) && exact::fits(self.at(i, k), r));
            assert(exact::fits(self.at(k, j), r) && exact::fits(self.at(i, l), r));
            assert(exact::fits(self.at(l, j), r) && exact::fits(self.at(k, l), r));
            assert(exact::fits(self.at(l, k), r));
            self.lemma_small_pair(k, i, j);
            self.lemma_through_best(k, i, j);
            exact::lemma_best(
                self.at(i, j),
                self.at(i, k),
                self.at(k, j),
                self.at(i, l),
                self.at(l, j),
                self.at(k, l),
                self.at(l, k),
            );
        }
        let h = s.halved_all();
        Grid::lemma_square(self.n);
        s.lemma_halved_cells(self.n * self.n);
        assert forall|i: int, j: int| h.has(i, j) implies exact::fits(
            #[trigger] h.at(i, j),
            3 * r,
        ) by {
            let (ib, jb) = (arith::mirror(i), arith::mirror(j));
            Grid::lemma_index(self.n, i, j);
            assert(s.has(i, j) && s.has(i, ib) && s.has(jb, j));
            assert(exact::fits(s.at(i, j), 3 * r));
            assert(exact::fits(s.at(i, ib), 3 * r));
            assert(exact::fits(s.at(jb, j), 3 * r));
            assert(h.at(i, j) == grid::min2(s.at(i, j), s.half_sum(i, j)));
        }
    }

    /// A pass without a contradiction at most trebles the bounds at each pivot pair.
    proof fn lemma_pass_grows(self, r: int, p: int)
        requires
            self.wf(),
            self.small(r),
            0 <= r,
            grown(r, self.n / 2) <= ROOM,
            self.pass().nonnegative_diagonal(),
            0 <= p <= self.n / 2,
        ensures
            self.pivoted(p).small(grown(r, p)),
            self.pivoted(p).small(ROOM as int),
        decreases p,
    {
        lemma_grown(r, p, self.n / 2);
        if p > 0 {
            lemma_grown(r, p - 1, self.n / 2);
            self.lemma_pass_grows(r, p - 1);
            self.lemma_pivoted(p - 1);
            self.lemma_pass_consistent(p - 1);
            self.pivoted(p - 1).lemma_pair_grows(2 * (p - 1), grown(r, p - 1));
        }
        self.pivoted(p).lemma_smaller(grown(r, p));
    }

    /// The mirrored matrix is as small.
    proof fn lemma_mirrored_small(self, r: int)
        requires
            self.wf(),
            self.small(r),
        ensures
            self.mirrored().small(r),
    {
        let m = self.mirrored();
        self.lemma_mirrored();
        assert forall|i: int, j: int| m.has(i, j) implies exact::fits(#[trigger] m.at(i, j), r) by {
            let (ib, jb) = (arith::mirror(i), arith::mirror(j));
            assert(self.has(i, j) && self.has(jb, ib));
            assert(exact::fits(self.at(i, j), r) && exact::fits(self.at(jb, ib), r));
            self.lemma_cell(i, j);
            self.lemma_cell(jb, ib);
        }
    }

    /// Where a first round turns bounds that do not mirror each other into bounds that
    /// do, without a contradiction, it clips nothing.
    proof fn lemma_first_closes_exactly(self, r: int, exact: bool)
        requires
            self.wf(),
            exact ==> self.even(),
            self.small(r),
            0 <= r,
            grown(r, self.n / 2) <= ROOM,
            self.closed_form(exact).ok,
            !self.coherent(),
            self.round(exact).grid.coherent(),
            exact ==> self.round(exact).grid.even() || self.pass().coherent(),
        ensures
            self.closes_exactly(exact),
    {
        lemma_grown(r, 0, self.n / 2);
        self.lemma_small_is_floored(r);
        self.lemma_closed_form(exact);
        if !self.pass().nonnegative_diagonal() {
            self.lemma_negative_is_reported(exact);
        }
        assert forall|p: int| 0 <= p <= self.n / 2 implies (#[trigger] self.pivoted(p)).small(
            ROOM as int,
        ) by {
            self.lemma_pass_grows(r, p);
        }
        assert(self.roomy());
        if exact && !self.round(exact).grid.even() {
            self.law_even_bounds_close_exactly();
        }
    }

    /// Bounds that mirror each other clip nothing where there is no contradiction.
    proof fn lemma_mirror_closes_exactly(self, r: int, exact: bool)
        requires
            self.wf(),
            exact ==> self.even(),
            self.small(r),
            0 <= r,
            9 * linear::reach(self.n, r) <= ROOM,
            self.closed_form(exact).ok,
            self.coherent(),
        ensures
            self.closes_exactly(exact),
    {
        let n = self.n;
        assert(0 <= linear::reach(n, r)) by (nonlinear_arith)
            requires
                0 <= n,
                0 <= r,
                linear::reach(n, r) == (n + 1) * (r + 1),
        ;
        self.law_closing_small_decides(r, exact);
        if exact {
            self.lemma_integers_are_rational();
        }
        self.law_solvable_is_roomy(r);
        assert(exact ==> self.odd_above_half());
    }

    /// The mirrored matrix is as even.
    proof fn lemma_mirrored_even(self)
        requires
            self.wf(),
            self.even(),
        ensures
            self.mirrored().even(),
    {
        let m = self.mirrored();
        self.lemma_mirrored();
        assert forall|i: int, j: int| m.has(i, j) implies #[trigger] m.at(i, j) == DBM_INF || m.at(
            i,
            j,
        ) % 2 == 0 by {
            let (ib, jb) = (arith::mirror(i), arith::mirror(j));
            assert(self.has(i, j) && self.has(jb, ib));
            assert(self.at(i, j) == DBM_INF || self.at(i, j) % 2 == 0);
            assert(self.at(jb, ib) == DBM_INF || self.at(jb, ib) % 2 == 0);
        }
    }

    /// A round only lowers what the pass ends in.
    proof fn lemma_round_below_pass(self, exact: bool)
        requires
            self.wf(),
            self.floored(),
            self.round(exact).ok,
            self.round(exact).grid.nonnegative_diagonal(),
        ensures
            self.pass().nonnegative_diagonal(),
    {
        let n = self.n;
        let f = self.pass();
        self.lemma_pivoted(n / 2);
        if exact {
            f.lemma_tightened(n);
            let t = f.tightened(n);
            Grid::lemma_square(n);
            t.lemma_halved(n * n);
            let g = self.round(exact).grid;
            assert forall|i: int| 0 <= i < n implies #[trigger] f.at(i, i) >= 0 by {
                assert(g.has(i, i) && t.has(i, i) && f.has(i, i));
                assert(g.at(i, i) >= 0);
                assert(g.at(i, i) <= t.at(i, i) && t.at(i, i) <= f.at(i, i));
            }
        }
    }

    /// After a second round without a contradiction, nothing was clipped on the
    /// mirrored bounds.
    proof fn lemma_second_closes_exactly(self, r: int, exact: bool)
        requires
            self.wf(),
            exact ==> self.even(),
            self.small(r),
            0 <= r,
            9 * linear::reach(self.n, r) <= ROOM,
            self.closed_form(exact).ok,
            !self.round(exact).grid.coherent(),
        ensures
            self.round(exact).ok,
            self.mirrored().closes_exactly(exact),
    {
        let n = self.n;
        let b = self.mirrored();
        let first = self.round(exact).grid;
        let m = first.mirrored();
        assert(r <= linear::reach(n, r)) by (nonlinear_arith)
            requires
                0 <= n,
                0 <= r,
                linear::reach(n, r) == (n + 1) * (r + 1),
        ;
        self.lemma_small_is_floored(r);
        self.lemma_mirrored();
        self.lemma_mirrored_small(r);
        if exact {
            self.lemma_mirrored_even();
        }
        b.lemma_small_is_floored(r);
        self.lemma_round(exact);
        first.lemma_mirrored();
        first.lemma_below_mirrored(self);
        self.lemma_rounds(exact);
        self.lemma_closed_form(exact);
        m.lemma_round(exact);
        b.lemma_round(exact);
        m.lemma_round_mono(b, exact);
        let (s, q) = (m.round(exact).grid, b.round(exact).grid);
        s.lemma_first_negative(0);
        assert(q.nonnegative_diagonal()) by {
            assert forall|i: int| 0 <= i < q.n implies #[trigger] q.at(i, i) >= 0 by {
                assert(s.has(i, i) && s.at(i, i) <= q.at(i, i));
                assert(s.at(i, i) >= 0);
            }
        }
        b.lemma_round_below_pass(exact);
        if !b.solvable(4) {
            b.law_contradictions_show(r);
        }
        b.law_solvable_is_roomy(r);
        assert(exact ==> b.odd_above_half());
    }

    /// Closing reports a contradiction among small bounds exactly where they have no
    /// solution, whether or not they mirror each other: strong closing over the
    /// rationals, integer closing over the integers. Where it reports none, the
    /// result is strongly closed, and over the integers in the integer normal form.
    ///
    /// Bounds that mirror each other after the first round but not before it have to
    /// be smaller; over the integers, they are left out if they mirror each other
    /// only from the rounding on and are not all even then.
    pub proof fn law_closing_any_decides(self, r: int, exact: bool)
        requires
            self.wf(),
            exact ==> self.even(),
            self.small(r),
            0 <= r,
            9 * linear::reach(self.n, r) <= ROOM,
            !self.coherent() && self.round(exact).ok && self.round(exact).grid.coherent() ==> {
                &&& grown(r, self.n / 2) <= ROOM
                &&& exact ==> self.pass().coherent() || self.round(exact).grid.even()
            },
        ensures
            self.closed_form(exact).ok <==> self.solvable(
                if exact {
                    1
                } else {
                    4
                },
            ),
            self.closed_form(exact).ok ==> {
                &&& self.closed_form(exact).grid.strongly_closed()
                &&& exact ==> self.closed_form(exact).grid.rounded() && self.closed_form(
                    exact,
                ).grid.even()
            },
    {
        let n = self.n;
        let d: int = if exact {
            1
        } else {
            4
        };
        assert(r <= linear::reach(n, r)) by (nonlinear_arith)
            requires
                0 <= n,
                0 <= r,
                linear::reach(n, r) == (n + 1) * (r + 1),
        ;
        self.lemma_small_is_floored(r);
        if self.closed_form(exact).ok {
            let c = self.closed_form(exact).grid;
            self.lemma_closed_form(exact);
            if self.coherent() {
                self.lemma_mirror_closes_exactly(r, exact);
                self.law_closing_closes(exact);
            } else if self.round(exact).grid.coherent() {
                self.lemma_first_closes_exactly(r, exact);
                self.law_closing_closes(exact);
            } else {
                self.lemma_second_closes_exactly(r, exact);
                self.law_second_round_mirrors(exact);
                self.lemma_mirrored();
                self.mirrored().law_closing_closes(exact);
            }
            let v = c.law_closed_has_points(d);
            self.law_closing_adds_no_points(exact, v, d);
            assert(self.admits(v, d));
        }
        if self.solvable(d) {
            let v = choose|v: Seq<int>| #[trigger] self.admits(v, d);
            self.law_closing_keeps_points(exact, v, d);
        }
    }
}

} // verus!
