//! The second round: what it gives is what the mirrored bounds give.
use vstd::prelude::*;
use crate::octagon::arith;
use crate::octagon::arith::DBM_INF;
use crate::octagon::grid;
use crate::octagon::grid::Grid;
use crate::octagon::sound;

verus! {

impl Grid {
    /// Tighter bounds stay so when those of single variables are rounded.
    proof fn lemma_tightened_mono(self, other: Grid)
        requires
            self.wf(),
            other.wf(),
            self.below(other),
        ensures
            self.tightened(self.n).below(other.tightened(other.n)),
    {
        let (s, t) = (self.tightened(self.n), other.tightened(other.n));
        self.lemma_tightened(self.n);
        other.lemma_tightened(other.n);
        assert forall|i: int, j: int| s.has(i, j) implies #[trigger] s.at(i, j) <= t.at(i, j) by {
            assert(self.has(i, j) && other.has(i, j));
            assert(self.at(i, j) <= other.at(i, j));
            self.lemma_cell(i, j);
            other.lemma_cell(i, j);
            if j == arith::mirror(i) {
                sound::lemma_floor4(self.at(i, j));
                sound::lemma_floor4(other.at(i, j));
                assert(s.at(i, arith::mirror(i)) == (if self.at(i, j) != DBM_INF && self.at(i, j) % 4
                    != 0 {
                    arith::spec_floor4(self.at(i, j))
                } else {
                    self.at(i, j)
                }));
                assert(t.at(i, arith::mirror(i)) == (if other.at(i, j) != DBM_INF && other.at(i, j)
                    % 4 != 0 {
                    arith::spec_floor4(other.at(i, j))
                } else {
                    other.at(i, j)
                }));
            }
        }
    }

    /// So they do over a round, and where it fails on the looser ones, it fails on
    /// the tighter ones.
    pub proof fn lemma_round_mono(self, other: Grid, exact: bool)
        requires
            self.wf(),
            other.wf(),
            self.below(other),
            self.round(exact).ok,
        ensures
            other.round(exact).ok,
            self.round(exact).grid.below(other.round(exact).grid),
    {
        let n = self.n;
        let (p, q) = (self.pass(), other.pass());
        self.lemma_pivoted(n / 2);
        other.lemma_pivoted(n / 2);
        self.lemma_pivoted_mono(other, n / 2);
        if exact {
            let (s, t) = (p.tightened(n), q.tightened(n));
            p.lemma_tightened(n);
            q.lemma_tightened(n);
            p.lemma_tightened_mono(q);
            assert(t.intervals_meet()) by {
                assert forall|x: int| 0 <= x < n / 2 implies #[trigger] arith::oplus(
                    t.at(2 * x, 2 * x + 1),
                    t.at(2 * x + 1, 2 * x),
                ) >= 0 by {
                    assert(s.has(2 * x, 2 * x + 1) && s.has(2 * x + 1, 2 * x));
                    assert(t.has(2 * x, 2 * x + 1) && t.has(2 * x + 1, 2 * x));
                    assert(s.at(2 * x, 2 * x + 1) <= t.at(2 * x, 2 * x + 1));
                    assert(s.at(2 * x + 1, 2 * x) <= t.at(2 * x + 1, 2 * x));
                    t.lemma_cell(2 * x, 2 * x + 1);
                    t.lemma_cell(2 * x + 1, 2 * x);
                    assert(arith::oplus(s.at(2 * x, 2 * x + 1), s.at(2 * x + 1, 2 * x)) >= 0);
                }
            }
            Grid::lemma_square(n);
            s.lemma_halved_mono(t, n * n);
        }
    }

    /// Mirroring keeps the order.
    pub proof fn lemma_below_mirrored(self, other: Grid)
        requires
            self.wf(),
            other.wf(),
            self.below(other),
        ensures
            self.mirrored().below(other.mirrored()),
    {
        let (s, t) = (self.mirrored(), other.mirrored());
        self.lemma_mirrored();
        other.lemma_mirrored();
        assert forall|i: int, j: int| s.has(i, j) implies #[trigger] s.at(i, j) <= t.at(i, j) by {
            let (ib, jb) = (arith::mirror(i), arith::mirror(j));
            assert(self.has(i, j) && self.has(jb, ib) && other.has(i, j) && other.has(jb, ib));
            assert(self.at(i, j) <= other.at(i, j));
            assert(self.at(jb, ib) <= other.at(jb, ib));
        }
    }

    /// Where the first round leaves bounds that do not mirror each other, closing
    /// gives what it gives on the mirrored bounds, as long as nothing is clipped
    /// there.
    pub proof fn law_second_round_mirrors(self, exact: bool)
        requires
            self.wf(),
            self.floored(),
            self.round(exact).ok,
            !self.round(exact).grid.coherent(),
            self.mirrored().closes_exactly(exact),
        ensures
            self.closed_form(exact).ok <==> self.mirrored().closed_form(exact).ok,
            self.closed_form(exact).ok ==> self.closed_form(exact).grid
                == self.mirrored().closed_form(exact).grid,
    {
        let b = self.mirrored();
        let first = self.round(exact).grid;
        let m = first.mirrored();
        self.lemma_mirrored();
        self.lemma_round(exact);
        first.lemma_mirrored();
        first.lemma_below_mirrored(self);
        b.lemma_round(exact);
        m.lemma_round(exact);
        self.lemma_rounds(exact);
        b.lemma_rounds(exact);
        self.lemma_closed_form(exact);
        b.lemma_closed_form(exact);
        if self.closed_form(exact).ok {
            let r = m.round(exact).grid;
            m.lemma_round_mono(b, exact);
            let q = b.round(exact).grid;
            r.lemma_first_negative(0);
            assert(q.nonnegative_diagonal()) by {
                assert forall|i: int| 0 <= i < q.n implies #[trigger] q.at(i, i) >= 0 by {
                    assert(r.has(i, i) && r.at(i, i) <= q.at(i, i));
                    assert(r.at(i, i) >= 0);
                }
            }
            b.lemma_round_closed(exact);
            assert(b.rounds(exact).grid == q);
            q.lemma_first_negative(0);
            assert(b.closed_form(exact).ok);
        }
        if b.closed_form(exact).ok {
            let s = b.closed_form(exact).grid;
            b.law_closing_closes(exact);
            b.lemma_mirrored_floored(self);
            b.law_closing_tightens(exact);
            assert forall|i: int, j: int| s.has(i, j) implies #[trigger] s.at(i, j) <= self.at(
                i,
                j,
            ) by {
                assert(b.has(i, j) && self.has(i, j));
                assert(s.at(i, j) <= b.at(i, j));
            }
            self.law_closing_is_greatest(s, exact);
            self.lemma_second_below(exact);
            let c = self.closed_form(exact).grid;
            assert forall|i: int, j: int| c.has(i, j) implies #[trigger] c.at(i, j) == s.at(
                i,
                j,
            ) by {
                assert(s.has(i, j));
                assert(s.at(i, j) <= c.at(i, j));
            }
            c.lemma_ext(s);
        }
    }

    proof fn lemma_mirrored_floored(self, other: Grid)
        requires
            other.wf(),
            other.floored(),
            self == other.mirrored(),
        ensures
            self.floored(),
            self.no_min(),
    {
        other.lemma_mirrored();
        assert forall|i: int, j: int| self.has(i, j) implies #[trigger] self.at(i, j)
            >= arith::DBM_FLOOR by {
            let (ib, jb) = (arith::mirror(i), arith::mirror(j));
            assert(other.has(i, j) && other.has(jb, ib));
            assert(other.at(i, j) >= arith::DBM_FLOOR && other.at(jb, ib) >= arith::DBM_FLOOR);
        }
        assert forall|i: int, j: int| self.has(i, j) implies #[trigger] self.at(i, j)
            != i128::MIN by {
            assert(self.at(i, j) >= arith::DBM_FLOOR);
        }
    }

    /// The second round ends below what the mirrored bounds end in.
    proof fn lemma_second_below(self, exact: bool)
        requires
            self.wf(),
            self.floored(),
            self.round(exact).ok,
            !self.round(exact).grid.coherent(),
            self.mirrored().closes_exactly(exact),
            self.mirrored().closed_form(exact).ok,
            self.closed_form(exact).ok,
        ensures
            self.closed_form(exact).grid.below(self.mirrored().closed_form(exact).grid),
    {
        let b = self.mirrored();
        let first = self.round(exact).grid;
        let m = first.mirrored();
        self.lemma_mirrored();
        self.lemma_round(exact);
        first.lemma_mirrored();
        first.lemma_below_mirrored(self);
        m.lemma_round(exact);
        b.lemma_round(exact);
        self.lemma_rounds(exact);
        self.lemma_closed_form(exact);
        b.lemma_closed_form(exact);
        let r = m.round(exact).grid;
        let q = b.round(exact).grid;
        m.lemma_round_mono(b, exact);
        r.lemma_first_negative(0);
        assert(q.nonnegative_diagonal()) by {
            assert forall|i: int| 0 <= i < q.n implies #[trigger] q.at(i, i) >= 0 by {
                assert(r.has(i, i) && r.at(i, i) <= q.at(i, i));
                assert(r.at(i, i) >= 0);
            }
        }
        b.lemma_round_closed(exact);
        r.lemma_zeroed(r.n);
        q.lemma_zeroed(q.n);
        let (y, z) = (r.zeroed(r.n), q.zeroed(q.n));
        y.lemma_unmarked();
        z.lemma_unmarked();
        let (c, s) = (y.unmarked(), z.unmarked());
        assert(r.floored());
        assert forall|i: int, j: int| c.has(i, j) implies #[trigger] c.at(i, j) <= s.at(i, j) by {
            assert(r.has(i, j) && q.has(i, j) && y.has(i, j) && z.has(i, j));
            assert(r.at(i, j) <= q.at(i, j));
            assert(r.at(i, j) >= arith::DBM_FLOOR);
        }
    }
}

} // verus!
