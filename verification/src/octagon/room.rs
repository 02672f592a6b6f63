//! Matrices with small integer bounds, as they are built.
use vstd::prelude::*;
use crate::octagon::arith;
use crate::octagon::arith::DBM_INF;
use crate::octagon::exact;
use crate::octagon::exact::ROOM;
use crate::octagon::grid;
use crate::octagon::grid::Grid;

verus! {

impl Grid {
    /// The matrix without a constraint is one of small integer bounds.
    pub proof fn law_free_is_small(n: int)
        requires
            0 <= n,
            n % 2 == 0,
        ensures
            Grid::free(n).wf(),
            Grid::free(n).coherent(),
            Grid::free(n).even(),
            Grid::free(n).small(0),
    {
        let g = Grid::free(n);
        Grid::lemma_square(n);
        assert forall|i: int, j: int| g.has(i, j) implies #[trigger] g.at(i, j) == (if i == j {
            0
        } else {
            DBM_INF as int
        }) by {
            Grid::lemma_index(n, i, j);
        }
        assert forall|i: int, j: int| #[trigger] g.has(i, j) implies g.at(i, j) == g.at(
            arith::mirror(j),
            arith::mirror(i),
        ) by {
            assert(g.has(arith::mirror(j), arith::mirror(i)));
        }
    }

    /// A constraint with a small constant keeps the bounds small integers.
    pub proof fn law_small_constants_are_kept(self, r: int, i: int, j: int, c: int)
        requires
            self.wf(),
            self.even(),
            self.small(r),
            r <= ROOM,
            self.has(i, j),
            -r <= 2 * c <= r,
        ensures
            self.bounded(i, j, c).wf(),
            self.bounded(i, j, c).n == self.n,
            self.coherent() ==> self.bounded(i, j, c).coherent(),
            self.bounded(i, j, c).even(),
            self.bounded(i, j, c).small(r),
    {
        let g = self.bounded(i, j, c);
        self.lemma_bounded(i, j, c);
        assert(arith::spec_sat_mul2_bound(c) == 2 * c);
        assert forall|a: int, b: int| self.coherent() && #[trigger] g.has(a, b) implies g.at(a, b)
            == g.at(arith::mirror(b), arith::mirror(a)) by {
            let (ab, bb) = (arith::mirror(a), arith::mirror(b));
            assert(arith::mirror(ab) == a && arith::mirror(bb) == b);
            assert(self.has(a, b) && self.has(bb, ab));
        }
        assert forall|a: int, b: int| g.has(a, b) implies (#[trigger] g.at(a, b) == DBM_INF || g.at(
            a,
            b,
        ) % 2 == 0) && exact::fits(g.at(a, b), r) by {
            assert(self.has(a, b));
            assert(exact::fits(self.at(a, b), r));
        }
    }

    /// So does one without its mirror.
    pub proof fn law_small_single_constants_are_kept(self, r: int, i: int, j: int, c: int)
        requires
            self.wf(),
            self.even(),
            self.small(r),
            r <= ROOM,
            self.has(i, j),
            -r <= 2 * c <= r,
        ensures
            ({
                let g = self.lowered(i, j, arith::spec_sat_mul2_bound(c));
                &&& g.wf()
                &&& g.n == self.n
                &&& g.even()
                &&& g.small(r)
            }),
    {
        let s = arith::spec_sat_mul2_bound(c);
        let g = self.lowered(i, j, s);
        assert(s == 2 * c);
        self.lemma_cell(i, j);
        self.lemma_put(i, j, grid::min2(self.at(i, j), s));
        assert forall|a: int, b: int| g.has(a, b) implies (#[trigger] g.at(a, b) == DBM_INF || g.at(
            a,
            b,
        ) % 2 == 0) && exact::fits(g.at(a, b), r) by {
            assert(self.has(a, b));
            assert(exact::fits(self.at(a, b), r));
        }
    }
}

} // verus!
