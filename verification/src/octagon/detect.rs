//! Contradictions are found: where bounds that mirror each other have no
//! solution, a pass leaves a negative diagonal cell, however far it adds bounds up.
use vstd::prelude::*;
use crate::octagon::arith;
use crate::octagon::arith::DBM_INF;
use crate::octagon::exact;
use crate::octagon::exact::ROOM;
use crate::octagon::grid;
use crate::octagon::grid::Grid;
use crate::octagon::linear;
use crate::octagon::points;
use crate::octagon::sound;

verus! {

impl Grid {
    // -----------------------------------------------------------------------
    // Lower matrices stay lower
    // -----------------------------------------------------------------------

    proof fn lemma_relaxed_mono(self, other: Grid, k: int, t: int)
        requires
            self.wf(),
            other.wf(),
            self.below(other),
            0 <= k < self.n,
            k % 2 == 0,
            0 <= t <= self.n * self.n,
        ensures
            self.relaxed(k, t).below(other.relaxed(k, t)),
        decreases t,
    {
        if t > 0 {
            self.lemma_relaxed_mono(other, k, t - 1);
            self.lemma_relaxed(k, t - 1);
            other.lemma_relaxed(k, t - 1);
            self.lemma_relaxed(k, t);
            other.lemma_relaxed(k, t);
            let (p, q) = (self.relaxed(k, t - 1), other.relaxed(k, t - 1));
            Grid::lemma_unindex(self.n, t - 1);
            let (i, j) = ((t - 1) / self.n, (t - 1) % self.n);
            p.lemma_through_mono(q, k, i, j);
            p.lemma_through_fits(k, i, j);
            q.lemma_through_fits(k, i, j);
            p.lemma_put(i, j, p.through(k, i, j));
            q.lemma_put(i, j, q.through(k, i, j));
        }
    }

    proof fn lemma_through_fits(self, k: int, i: int, j: int)
        requires
            self.wf(),
            0 <= k < self.n,
            k % 2 == 0,
            self.has(i, j),
        ensures
            i128::MIN <= self.through(k, i, j) <= DBM_INF,
    {
        let l = arith::mirror(k);
        self.lemma_cell(i, j);
        self.lemma_cell(i, k);
        self.lemma_cell(k, j);
        self.lemma_cell(i, l);
        self.lemma_cell(l, j);
        self.lemma_cell(k, l);
        self.lemma_cell(l, k);
    }

    pub proof fn lemma_halved_mono(self, other: Grid, t: int)
        requires
            self.wf(),
            other.wf(),
            self.below(other),
            0 <= t <= self.n * self.n,
        ensures
            self.halved(t).below(other.halved(t)),
        decreases t,
    {
        if t > 0 {
            self.lemma_halved_mono(other, t - 1);
            self.lemma_halved(t - 1);
            other.lemma_halved(t - 1);
            let (p, q) = (self.halved(t - 1), other.halved(t - 1));
            Grid::lemma_unindex(self.n, t - 1);
            let (i, j) = ((t - 1) / self.n, (t - 1) % self.n);
            let (ib, jb) = (arith::mirror(i), arith::mirror(j));
            assert(p.has(i, ib) && p.has(jb, j) && p.has(i, j));
            p.lemma_cell(i, j);
            p.lemma_cell(i, ib);
            p.lemma_cell(jb, j);
            q.lemma_cell(i, j);
            q.lemma_cell(i, ib);
            q.lemma_cell(jb, j);
            sound::lemma_oplus_mono(p.at(i, ib), p.at(jb, j), q.at(i, ib), q.at(jb, j));
            p.lemma_put(i, j, grid::min2(p.at(i, j), p.half_sum(i, j)));
            q.lemma_put(i, j, grid::min2(q.at(i, j), q.half_sum(i, j)));
        }
    }

    /// A pass over lower bounds gives lower bounds.
    pub proof fn lemma_pivoted_mono(self, other: Grid, p: int)
        requires
            self.wf(),
            other.wf(),
            self.below(other),
            0 <= p <= self.n / 2,
        ensures
            self.pivoted(p).below(other.pivoted(p)),
        decreases p,
    {
        if p > 0 {
            self.lemma_pivoted_mono(other, p - 1);
            self.lemma_pivoted(p - 1);
            other.lemma_pivoted(p - 1);
            let (g, h) = (self.pivoted(p - 1), other.pivoted(p - 1));
            let k = 2 * (p - 1);
            Grid::lemma_square(self.n);
            g.lemma_relaxed(k, self.n * self.n);
            h.lemma_relaxed(k, self.n * self.n);
            g.lemma_relaxed_mono(h, k, self.n * self.n);
            g.relaxed_all(k).lemma_halved_mono(h.relaxed_all(k), self.n * self.n);
        }
    }

    // -----------------------------------------------------------------------
    // Parts of a matrix
    // -----------------------------------------------------------------------

    /// The matrix with some of its bounds, and its diagonal.
    spec fn kept(self, keep: spec_fn(int, int) -> bool) -> Grid {
        Grid {
            n: self.n,
            cells: Seq::new(
                self.cells.len(),
                |t: int|
                    if keep(t / self.n, t % self.n) || t / self.n == t % self.n {
                        self.cells[t]
                    } else {
                        DBM_INF
                    },
            ),
        }
    }

    proof fn lemma_kept(self, keep: spec_fn(int, int) -> bool, r: int)
        requires
            self.wf(),
            self.coherent(),
            self.small(r),
            forall|i: int, j: int|
                self.has(i, j) ==> #[trigger] keep(i, j) == keep(arith::mirror(j), arith::mirror(i)),
        ensures
            self.kept(keep).wf(),
            self.kept(keep).n == self.n,
            self.kept(keep).coherent(),
            self.kept(keep).small(r),
            self.below(self.kept(keep)),
            forall|i: int, j: int|
                self.has(i, j) ==> #[trigger] self.kept(keep).at(i, j) == (if keep(i, j) || i == j {
                    self.at(i, j)
                } else {
                    DBM_INF as int
                }),
    {
        let g = self.kept(keep);
        assert forall|i: int, j: int| self.has(i, j) implies #[trigger] g.at(i, j) == (if keep(i, j)
            || i == j {
            self.at(i, j)
        } else {
            DBM_INF as int
        }) && exact::fits(g.at(i, j), r) && self.at(i, j) <= g.at(i, j) by {
            Grid::lemma_index(self.n, i, j);
            assert(exact::fits(self.at(i, j), r));
            self.lemma_cell(i, j);
        }
        assert forall|i: int, j: int| #[trigger] g.has(i, j) implies g.at(i, j) == g.at(
            arith::mirror(j),
            arith::mirror(i),
        ) by {
            assert(self.has(i, j) && self.has(arith::mirror(j), arith::mirror(i)));
            assert(keep(i, j) == keep(arith::mirror(j), arith::mirror(i)));
        }
    }
}

/// Both nodes are among the first.
spec fn first(m: int) -> spec_fn(int, int) -> bool {
    |i: int, j: int| i < m && j < m
}

/// Both nodes are among the first, or the bound is one on how far the next
/// variable is below: it ends in its node, or begins in the mirror.
spec fn below_next(k: int) -> spec_fn(int, int) -> bool {
    |i: int, j: int| (i < k || i == k + 1) && (j < k || j == k)
}

/// Both nodes are among the first, or the bound is one on how far the next
/// variable is above.
spec fn above_next(k: int) -> spec_fn(int, int) -> bool {
    |i: int, j: int| (i < k || i == k) && (j < k || j == k + 1)
}

impl Grid {
    /// A solution of the bounds on the first variables, with the next one far out.
    proof fn lemma_far_out(self, k: int, r: int, up: bool)
        requires
            self.wf(),
            self.coherent(),
            self.small(r),
            0 <= r,
            0 <= k < self.n,
            k % 2 == 0,
            self.nonnegative_diagonal(),
            self.kept(first(k)).solvable(4),
        ensures
            self.kept(if up {
                below_next(k)
            } else {
                above_next(k)
            }).solvable(4),
    {
        let keep = if up {
            below_next(k)
        } else {
            above_next(k)
        };
        self.lemma_kept(first(k), r);
        self.lemma_kept(keep, r);
        let (a, b) = (self.kept(first(k)), self.kept(keep));
        let m = (self.n / 2) as nat;
        let v = choose|v: Seq<int>| #[trigger] a.admits(v, 4);
        let t = Seq::new(m, |x: int| v[x]);
        a.lemma_same_point(v, t);
        let w = a.law_solutions_lie_close(t, r);
        let far = (self.n / 2) * (2 * r + 1) + 2 * r;
        assert(far >= 2 * r) by (nonlinear_arith)
            requires
                far == (self.n / 2) * (2 * r + 1) + 2 * r,
                0 <= self.n / 2,
                0 <= r,
        ;
        let z = w.update(
            k / 2,
            if up {
                far
            } else {
                -far
            },
        );
        assert forall|i: int, j: int|
            b.has(i, j) && #[trigger] b.at(i, j) != DBM_INF implies 2 * (grid::node(z, i)
            - grid::node(z, j)) <= 4 * b.at(i, j) by {
            assert(self.has(i, j));
            assert(exact::fits(b.at(i, j), r));
            if i == j {
                assert(self.at(i, i) >= 0);
            } else if i < k && j < k {
                assert(a.has(i, j));
                assert(a.at(i, j) == b.at(i, j));
                assert(2 * (grid::node(w, i) - grid::node(w, j)) <= 4 * a.at(i, j));
            } else {
                assert(points::magnitude(w[i / 2]) <= (self.n / 2) * (2 * r + 1));
                assert(points::magnitude(w[j / 2]) <= (self.n / 2) * (2 * r + 1));
            }
        }
        assert(b.admits(z, 4));
    }

    /// Two matrices agree on some cells.
    spec fn agrees(self, other: Grid, keep: spec_fn(int, int) -> bool) -> bool {
        &&& self.n == other.n
        &&& forall|i: int, j: int|
            self.has(i, j) && #[trigger] keep(i, j) ==> self.at(i, j) == other.at(i, j)
    }

    /// What a pair of the first variables gives for cells that depend on each
    /// other only.
    proof fn lemma_agree_step(self, other: Grid, keep: spec_fn(int, int) -> bool, k: int, q: int)
        requires
            self.wf(),
            other.wf(),
            self.small(ROOM as int),
            other.small(ROOM as int),
            self.agrees(other, keep),
            k % 2 == 0,
            q % 2 == 0,
            0 <= q < k < self.n,
            keep == below_next(k) || keep == above_next(k),
        ensures
            self.star(q).agrees(other.star(q), keep),
            self.star(q).halved_all().agrees(other.star(q).halved_all(), keep),
    {
        let (s, t) = (self.star(q), other.star(q));
        let l = q + 1;
        self.lemma_star(q);
        other.lemma_star(q);
        assert forall|i: int, j: int| s.has(i, j) && #[trigger] keep(i, j) implies s.at(i, j) == t.at(
            i,
            j,
        ) by {
            assert(self.has(i, j) && other.has(i, j));
            assert(s.at(i, j) == self.through(q, i, j) && t.at(i, j) == other.through(q, i, j));
            assert(keep(i, q) && keep(q, j) && keep(i, l) && keep(l, j) && keep(q, l) && keep(
                l,
                q,
            ));
            assert(self.has(i, q) && self.has(q, j) && self.has(i, l) && self.has(l, j));
            assert(self.has(q, l) && self.has(l, q));
        }
        let (g, h) = (s.halved_all(), t.halved_all());
        Grid::lemma_square(self.n);
        s.lemma_halved_cells(self.n * self.n);
        t.lemma_halved_cells(self.n * self.n);
        assert forall|i: int, j: int| g.has(i, j) && #[trigger] keep(i, j) implies g.at(i, j)
            == h.at(i, j) by {
            let (ib, jb) = (arith::mirror(i), arith::mirror(j));
            Grid::lemma_index(self.n, i, j);
            assert(s.has(i, j) && t.has(i, j) && s.has(i, ib) && s.has(jb, j));
            assert(keep(i, ib) && keep(jb, j));
            assert(s.at(i, j) == t.at(i, j));
            assert(s.at(i, ib) == t.at(i, ib));
            assert(s.at(jb, j) == t.at(jb, j));
        }
    }
}

impl Grid {
    /// A part with a solution, stage by stage.
    proof fn lemma_solvable_step(self, p: int, r: int)
        requires
            self.wf(),
            self.coherent(),
            self.small(r),
            0 <= r,
            linear::reach(self.n, r) <= ROOM,
            self.solvable(4),
            0 <= p < self.n / 2,
        ensures
            self.pivoted(p).wf(),
            self.pivoted(p).n == self.n,
            self.pivoted(p).small(linear::reach(self.n, r)),
            self.pivoted(p).small(ROOM as int),
            self.pivoted(p).pair_consistent(2 * p),
            self.pivoted(p + 1) == self.pivoted(p).star(2 * p).halved_all(),
            self.pivoted(p + 1).small(linear::reach(self.n, r)),
    {
        self.law_solvable_is_roomy(r);
        self.lemma_pivoted(p);
        let v = choose|v: Seq<int>| #[trigger] self.admits(v, 4);
        self.lemma_pivoted_admits(p, v, 4);
        let g = self.pivoted(p);
        assert(g.small(ROOM as int));
        g.lemma_point_consistent(v, 2 * p);
        g.lemma_relaxed_is_star(2 * p);
        assert(self.pivoted(p + 1).small(linear::reach(self.n, r)));
    }

    /// Nothing is known of the variables from `m` on.
    spec fn is_free_from(self, m: int) -> bool {
        forall|i: int, j: int|
            self.has(i, j) && i != j && (i >= m || j >= m) ==> #[trigger] self.at(i, j) == DBM_INF
    }

    /// What holds after `p` pivot pairs of the bounds on the variables up to that
    /// of node `k`, where those before it have a solution.
    #[verifier::opaque]
    spec fn is_part_stage(self, k: int, p: int, r: int) -> bool {
        let x = self.kept(first(k + 2)).pivoted(p);
        &&& x.wf() && x.n == self.n && x.coherent()
        &&& x.small(3 * linear::reach(self.n, r))
        &&& x.agrees(self.kept(below_next(k)).pivoted(p), below_next(k))
        &&& x.agrees(self.kept(above_next(k)).pivoted(p), above_next(k))
        &&& x.is_free_from(k + 2)
        &&& forall|c: int| 0 <= c < 2 * p ==> #[trigger] x.closed_at(c)
    }

    /// Relaxing and half-sums leave free variables free.
    proof fn lemma_free_step(self, m: int, q: int)
        requires
            self.wf(),
            self.small(ROOM as int),
            self.is_free_from(m),
            m % 2 == 0,
            q % 2 == 0,
            0 <= q,
            q + 1 < m,
            q < self.n,
        ensures
            self.star(q).halved_all().is_free_from(m),
            forall|i: int|
                m <= i < self.n ==> #[trigger] self.star(q).halved_all().at(i, i) == self.at(i, i),
    {
        let s = self.star(q);
        let h = s.halved_all();
        let l = q + 1;
        self.lemma_star(q);
        Grid::lemma_square(self.n);
        s.lemma_halved_cells(self.n * self.n);
        assert forall|i: int, j: int|
            self.has(i, j) && (i >= m || j >= m) implies #[trigger] s.at(i, j) == self.at(i, j) by {
            self.lemma_small_pair(q, i, j);
            self.lemma_through_best(q, i, j);
            assert(self.has(i, q) && self.has(q, j) && self.has(i, l) && self.has(l, j));
            exact::lemma_best(
                self.at(i, j),
                self.at(i, q),
                self.at(q, j),
                self.at(i, l),
                self.at(l, j),
                self.at(q, l),
                self.at(l, q),
            );
        }
        assert forall|i: int, j: int|
            self.has(i, j) && (i >= m || j >= m) implies #[trigger] h.at(i, j) == self.at(i, j) by {
            Grid::lemma_index(self.n, i, j);
            let (ib, jb) = (arith::mirror(i), arith::mirror(j));
            assert(self.has(i, ib) && self.has(jb, j) && s.has(i, j));
            assert(i >= m ==> ib >= m);
            assert(j >= m ==> jb >= m);
            assert(i >= m ==> s.at(i, ib) == self.at(i, ib) && self.at(i, ib) == DBM_INF);
            assert(j >= m ==> s.at(jb, j) == self.at(jb, j) && self.at(jb, j) == DBM_INF);
            assert(s.at(i, j) == self.at(i, j));
            self.lemma_cell(i, j);
        }
    }

    /// A cell after one of the first pairs stays in reach.
    #[verifier::spinoff_prover]
    proof fn lemma_part_cell(self, k: int, q: int, top: int, i: int, j: int)
        requires
            self.wf(),
            self.small(3 * top),
            0 <= top,
            9 * top <= ROOM,
            self.is_free_from(k + 2),
            k % 2 == 0,
            q % 2 == 0,
            0 <= q < k < self.n,
            self.has(i, j),
            forall|a: int, b: int|
                self.has(a, b) && #[trigger] below_next(k)(a, b) ==> exact::fits(
                    self.at(a, b),
                    top,
                ) && exact::fits(self.star(q).halved_all().at(a, b), top),
            forall|a: int, b: int|
                self.has(a, b) && #[trigger] above_next(k)(a, b) ==> exact::fits(
                    self.at(a, b),
                    top,
                ) && exact::fits(self.star(q).halved_all().at(a, b), top),
        ensures
            exact::fits(self.star(q).halved_all().at(i, j), 3 * top),
    {
        let s = self.star(q);
        let h = s.halved_all();
        self.lemma_smaller(3 * top);
        if below_next(k)(i, j) || above_next(k)(i, j) {
        } else if i >= k + 2 || j >= k + 2 {
            self.lemma_star(q);
            Grid::lemma_square(self.n);
            s.lemma_halved_cells(self.n * self.n);
            self.lemma_free_step(k + 2, q);
            assert(exact::fits(self.at(i, j), 3 * top));
            assert(h.has(i, j));
        } else {
            assert(i == j && (i == k || i == k + 1));
            let (l, ib) = (q + 1, arith::mirror(i));
            assert(self.has(i, q) && self.has(q, i) && self.has(i, l) && self.has(l, i));
            assert(self.has(q, l) && self.has(l, q) && self.has(i, ib) && self.has(ib, i));
            assert(below_next(k)(q, l) && below_next(k)(l, q));
            if i == k {
                assert(below_next(k)(q, i) && below_next(k)(l, i) && below_next(k)(ib, i));
                assert(above_next(k)(i, q) && above_next(k)(i, l) && above_next(k)(i, ib));
            } else {
                assert(below_next(k)(i, q) && below_next(k)(i, l) && below_next(k)(i, ib));
                assert(above_next(k)(q, i) && above_next(k)(l, i) && above_next(k)(ib, i));
            }
            self.lemma_part_diagonal(q, top, i);
        }
    }

    /// A diagonal cell after one of the first pairs.
    #[verifier::spinoff_prover]
    proof fn lemma_part_diagonal(self, q: int, top: int, i: int)
        requires
            self.wf(),
            self.small(ROOM as int),
            0 <= top,
            9 * top <= ROOM,
            q % 2 == 0,
            0 <= q < self.n,
            0 <= i < self.n,
            exact::fits(self.at(i, i), 3 * top),
            exact::fits(self.at(i, q), top),
            exact::fits(self.at(q, i), top),
            exact::fits(self.at(i, q + 1), top),
            exact::fits(self.at(q + 1, i), top),
            exact::fits(self.at(q, q + 1), top),
            exact::fits(self.at(q + 1, q), top),
            exact::fits(self.star(q).halved_all().at(i, arith::mirror(i)), top),
            exact::fits(self.star(q).halved_all().at(arith::mirror(i), i), top),
        ensures
            exact::fits(self.star(q).halved_all().at(i, i), 3 * top),
    {
        let s = self.star(q);
        let h = s.halved_all();
        let (l, ib) = (q + 1, arith::mirror(i));
        self.lemma_star(q);
        Grid::lemma_square(self.n);
        s.lemma_halved_cells(self.n * self.n);
        Grid::lemma_index(self.n, i, i);
        self.lemma_small_pair(q, i, i);
        self.lemma_through_best(q, i, i);
        assert(self.has(i, i) && s.has(i, ib) && s.has(ib, i));
        exact::lemma_best(
            self.at(i, i),
            self.at(i, q),
            self.at(q, i),
            self.at(i, l),
            self.at(l, i),
            self.at(q, l),
            self.at(l, q),
        );
        assert(arith::mirror(ib) == i);
        assert(h.at(i, arith::mirror(i)) == s.at(i, arith::mirror(i)));
        assert(h.at(ib, arith::mirror(ib)) == s.at(ib, arith::mirror(ib)));
        assert(h.at(i, i) == grid::min2(s.at(i, i), s.half_sum(i, i)));
    }

    /// One more pair of the first variables.
    #[verifier::spinoff_prover]
    proof fn lemma_part_step(self, k: int, p: int, r: int)
        requires
            self.wf(),
            self.coherent(),
            self.small(r),
            0 <= r,
            9 * linear::reach(self.n, r) <= ROOM,
            0 <= linear::reach(self.n, r),
            k % 2 == 0,
            0 <= 2 * p < k < self.n,
            self.kept(below_next(k)).solvable(4),
            self.kept(above_next(k)).solvable(4),
            self.is_part_stage(k, p, r),
            self.kept(first(k + 2)).pivoted(p + 1).nonnegative_diagonal(),
        ensures
            self.is_part_stage(k, p + 1, r),
    {
        reveal(Grid::is_part_stage);
        let top = linear::reach(self.n, r);
        let (lo, hi) = (below_next(k), above_next(k));
        let (b, u, v) = (self.kept(first(k + 2)), self.kept(lo), self.kept(hi));
        let q = 2 * p;
        self.lemma_kept(first(k + 2), r);
        self.lemma_kept(lo, r);
        self.lemma_kept(hi, r);
        u.lemma_solvable_step(p, r);
        v.lemma_solvable_step(p, r);
        let (x, y, z) = (b.pivoted(p), u.pivoted(p), v.pivoted(p));
        x.lemma_smaller(3 * top);
        assert(x.pair_consistent(q)) by {
            assert(x.has(q, q) && x.has(q + 1, q + 1) && x.has(q, q + 1) && x.has(q + 1, q));
            assert(lo(q, q) && lo(q + 1, q + 1) && lo(q, q + 1) && lo(q + 1, q));
        }
        x.lemma_relaxed_is_star(q);
        x.lemma_agree_step(y, lo, k, q);
        x.lemma_agree_step(z, hi, k, q);
        let s = x.star(q);
        let h = s.halved_all();
        assert(h == b.pivoted(p + 1));
        x.lemma_star(q);
        x.lemma_star_coherent(q);
        s.lemma_halved_shape();
        Grid::lemma_square(self.n);
        s.lemma_halved_cells(self.n * self.n);
        x.lemma_free_step(k + 2, q);
        assert forall|i: int, j: int| x.has(i, j) && #[trigger] lo(i, j) implies exact::fits(
            x.at(i, j),
            top,
        ) && exact::fits(h.at(i, j), top) by {
            assert(y.has(i, j) && u.pivoted(p + 1).has(i, j));
            assert(h.has(i, j));
            assert(exact::fits(y.at(i, j), top));
            assert(exact::fits(u.pivoted(p + 1).at(i, j), top));
        }
        assert forall|i: int, j: int| x.has(i, j) && #[trigger] hi(i, j) implies exact::fits(
            x.at(i, j),
            top,
        ) && exact::fits(h.at(i, j), top) by {
            assert(z.has(i, j) && v.pivoted(p + 1).has(i, j));
            assert(h.has(i, j));
            assert(exact::fits(z.at(i, j), top));
            assert(exact::fits(v.pivoted(p + 1).at(i, j), top));
        }
        assert(h.small(3 * top)) by {
            assert forall|i: int, j: int| h.has(i, j) implies exact::fits(
                #[trigger] h.at(i, j),
                3 * top,
            ) by {
                x.lemma_part_cell(k, q, top, i, j);
            }
        }
        x.lemma_closed_step(q);
        assert forall|c: int| 0 <= c < 2 * (p + 1) implies #[trigger] h.closed_at(c) by {
            assert(0 <= c < q + 2);
        }
    }

    /// One more pair closes the matrix at two more nodes.
    #[verifier::spinoff_prover]
    proof fn lemma_closed_step(self, q: int)
        requires
            self.wf(),
            self.coherent(),
            self.small(ROOM as int),
            q % 2 == 0,
            0 <= q < self.n,
            self.pair_consistent(q),
            forall|c: int| 0 <= c < q ==> #[trigger] self.closed_at(c),
            self.star(q).halved_all().nonnegative_diagonal(),
        ensures
            forall|c: int| 0 <= c < q + 2 ==> #[trigger] self.star(q).halved_all().closed_at(c),
    {
        let s = self.star(q);
        let h = s.halved_all();
        self.lemma_star(q);
        self.lemma_star_pair(q);
        self.lemma_star_coherent(q);
        Grid::lemma_square(self.n);
        s.lemma_halved(self.n * self.n);
        assert(s.nonnegative_diagonal()) by {
            assert forall|i: int| 0 <= i < s.n implies #[trigger] s.at(i, i) >= 0 by {
                assert(h.has(i, i) && s.has(i, i));
                assert(h.at(i, i) >= 0);
                assert(h.at(i, i) <= s.at(i, i));
            }
        }
        assert forall|c: int| 0 <= c < q + 2 implies #[trigger] s.closed_at(c) by {
            if c < q {
                assert(self.closed_at(c));
                self.lemma_star_keeps(q, c);
            }
        }
        assert forall|c: int| 0 <= c < q + 2 implies #[trigger] h.closed_at(c) by {
            assert(0 <= arith::mirror(c) < q + 2);
            assert(s.closed_at(c) && s.closed_at(arith::mirror(c)));
            s.lemma_halved_keeps(c);
        }
    }
}

impl Grid {
    /// Up to the last variable of a part.
    proof fn lemma_part_stages(self, k: int, p: int, r: int)
        requires
            self.wf(),
            self.coherent(),
            self.small(r),
            0 <= r,
            9 * linear::reach(self.n, r) <= ROOM,
            r <= linear::reach(self.n, r),
            k % 2 == 0,
            0 <= 2 * p <= k < self.n,
            self.kept(below_next(k)).solvable(4),
            self.kept(above_next(k)).solvable(4),
            self.kept(first(k + 2)).pivoted(k / 2 + 1).nonnegative_diagonal(),
        ensures
            self.is_part_stage(k, p, r),
        decreases p,
    {
        let top = linear::reach(self.n, r);
        let b = self.kept(first(k + 2));
        self.lemma_kept(first(k + 2), r);
        if p > 0 {
            self.lemma_part_stages(k, p - 1, r);
            b.lemma_pivoted(p);
            b.lemma_pivoted(k / 2 + 1);
            b.lemma_pivoted_later(p, k / 2 + 1);
            let (x, y) = (b.pivoted(p), b.pivoted(k / 2 + 1));
            assert forall|i: int| 0 <= i < x.n implies #[trigger] x.at(i, i) >= 0 by {
                assert(y.has(i, i) && x.has(i, i));
                assert(y.at(i, i) >= 0);
                assert(y.at(i, i) <= x.at(i, i));
            }
            self.lemma_part_step(k, p - 1, r);
        } else {
            self.lemma_kept(below_next(k), r);
            self.lemma_kept(above_next(k), r);
            reveal(Grid::is_part_stage);
            assert forall|i: int, j: int| b.has(i, j) implies exact::fits(
                #[trigger] b.at(i, j),
                3 * top,
            ) by {
                assert(exact::fits(b.at(i, j), r));
            }
            assert forall|i: int, j: int| b.has(i, j) && #[trigger] below_next(k)(i, j) implies b.at(
                i,
                j,
            ) == self.kept(below_next(k)).at(i, j) by {
                assert(self.has(i, j));
            }
            assert forall|i: int, j: int| b.has(i, j) && #[trigger] above_next(k)(i, j) implies b.at(
                i,
                j,
            ) == self.kept(above_next(k)).at(i, j) by {
                assert(self.has(i, j));
            }
        }
    }

    /// Nine magnitudes, each of a ninth.
    proof fn lemma_nine(self, k: int, top: int, i: int, j: int)
        requires
            self.wf(),
            self.small(3 * top),
            0 <= top,
            9 * top <= ROOM,
            k % 2 == 0,
            0 <= k < self.n,
            self.has(i, j),
        ensures
            exact::fits(self.star(k).at(i, j), 9 * top),
    {
        let l = k + 1;
        self.lemma_smaller(3 * top);
        self.lemma_star(k);
        self.lemma_small_pair(k, i, j);
        self.lemma_through_best(k, i, j);
        assert(self.has(i, k) && self.has(k, j) && self.has(i, l) && self.has(l, j));
        assert(self.has(k, l) && self.has(l, k));
        assert(exact::fits(self.at(i, j), 3 * top));
        assert(exact::fits(self.at(i, k), 3 * top) && exact::fits(self.at(k, j), 3 * top));
        assert(exact::fits(self.at(i, l), 3 * top) && exact::fits(self.at(l, j), 3 * top));
        assert(exact::fits(self.at(k, l), 3 * top) && exact::fits(self.at(l, k), 3 * top));
        exact::lemma_best(
            self.at(i, j),
            self.at(i, k),
            self.at(k, j),
            self.at(i, l),
            self.at(l, j),
            self.at(k, l),
            self.at(l, k),
        );
    }

    /// A matrix closed at the first nodes and free from there on has a solution.
    proof fn lemma_free_solvable(self, m: int)
        requires
            self.wf(),
            self.coherent(),
            self.half_bounded(),
            self.small(ROOM as int),
            self.nonnegative_diagonal(),
            self.is_free_from(m),
            forall|c: int| 0 <= c < m && c < self.n ==> #[trigger] self.closed_at(c),
        ensures
            self.solvable(4),
    {
        assert forall|c: int| 0 <= c < self.n implies #[trigger] self.closed_at(c) by {
            if c >= m {
                assert forall|i: int, j: int|
                    #![trigger self.at(i, c), self.at(c, j)]
                    self.has(i, c) && self.has(c, j) implies self.at(i, j) <= arith::oplus(
                    self.at(i, c),
                    self.at(c, j),
                ) by {
                    assert(self.has(i, j));
                    self.lemma_cell(i, j);
                    assert(exact::fits(self.at(c, c), ROOM as int));
                    assert(self.at(c, c) >= 0);
                }
            }
        }
        assert forall|i: int, j: int| self.has(i, j) implies exact::fits(
            #[trigger] self.at(i, j),
            2 * ROOM,
        ) by {
            assert(exact::fits(self.at(i, j), ROOM as int));
        }
        self.lemma_zeroed_closed();
        self.lemma_zeroed(self.n);
        let z = self.zeroed(self.n);
        let v = z.law_closed_has_points(4);
        assert forall|i: int, j: int|
            self.has(i, j) && #[trigger] self.at(i, j) != DBM_INF implies 2 * (grid::node(v, i)
            - grid::node(v, j)) <= 4 * self.at(i, j) by {
            assert(z.has(i, j));
            if i == j {
                assert(self.at(i, i) >= 0);
            } else {
                assert(z.at(i, j) == self.at(i, j));
                assert(2 * (grid::node(v, i) - grid::node(v, j)) <= 4 * z.at(i, j));
            }
        }
        assert(self.admits(v, 4));
    }

    /// No diagonal cell negative after a pair: no negative cycle through it.
    #[verifier::spinoff_prover]
    proof fn lemma_kept_consistent(self, k: int)
        requires
            self.wf(),
            self.small(ROOM as int),
            k % 2 == 0,
            0 <= k < self.n,
            self.relaxed_all(k).halved_all().nonnegative_diagonal(),
        ensures
            self.pair_consistent(k),
    {
        let n = self.n;
        let l = k + 1;
        Grid::lemma_square(n);
        self.lemma_relaxed(k, n * n);
        self.lemma_relaxed_upper(k, n * n);
        let e = self.relaxed_all(k);
        e.lemma_halved(n * n);
        let y = e.halved_all();
        assert(self.has(k, k) && self.has(l, l) && self.has(k, l) && self.has(l, k));
        assert(y.has(k, k) && y.has(l, l) && e.has(k, k) && e.has(l, l));
        assert(y.at(k, k) >= 0 && y.at(l, l) >= 0);
        assert(y.at(k, k) <= e.at(k, k) && y.at(l, l) <= e.at(l, l));
        assert(e.at(k, k) <= self.at(k, k) && e.at(l, l) <= self.at(l, l));
        Grid::lemma_index(n, k, k);
        assert(e.at(k, k) <= self.through(k, k, k));
        assert(exact::fits(self.at(k, l), ROOM as int) && exact::fits(self.at(l, k), ROOM as int));
    }

    /// The last pair of a part.
    #[verifier::spinoff_prover]
    proof fn lemma_last_pair(self, k: int, top: int)
        requires
            self.wf(),
            self.coherent(),
            self.small(3 * top),
            0 <= top,
            9 * top <= ROOM,
            k % 2 == 0,
            0 <= k < self.n,
            self.is_free_from(k + 2),
            forall|c: int| 0 <= c < k ==> #[trigger] self.closed_at(c),
            self.relaxed_all(k).halved_all().nonnegative_diagonal(),
        ensures
            self.relaxed_all(k).halved_all().solvable(4),
    {
        let n = self.n;
        self.lemma_smaller(3 * top);
        self.lemma_kept_consistent(k);
        self.lemma_relaxed_is_star(k);
        let s = self.star(k);
        let y = s.halved_all();
        self.lemma_closed_step(k);
        self.lemma_star(k);
        self.lemma_star_coherent(k);
        s.lemma_halved_shape();
        Grid::lemma_square(n);
        s.lemma_halved_cells(n * n);
        self.lemma_free_step(k + 2, k);
        assert forall|i: int, j: int| y.has(i, j) implies exact::fits(
            #[trigger] y.at(i, j),
            ROOM as int,
        ) by {
            let (ib, jb) = (arith::mirror(i), arith::mirror(j));
            Grid::lemma_index(n, i, j);
            assert(self.has(i, j) && self.has(i, ib) && self.has(jb, j));
            self.lemma_nine(k, top, i, j);
            self.lemma_nine(k, top, i, ib);
            self.lemma_nine(k, top, jb, j);
        }
        y.lemma_free_solvable(k + 2);
    }

    /// Where the bounds on the variables before one have a solution, and the pass
    /// finds nothing up to it, those up to it have one too.
    proof fn lemma_last_variable(self, k: int, r: int)
        requires
            self.wf(),
            self.coherent(),
            self.small(r),
            0 <= r,
            9 * linear::reach(self.n, r) <= ROOM,
            r <= linear::reach(self.n, r),
            k % 2 == 0,
            0 <= k < self.n,
            self.nonnegative_diagonal(),
            self.kept(first(k)).solvable(4),
            self.kept(first(k + 2)).pivoted(k / 2 + 1).nonnegative_diagonal(),
        ensures
            self.kept(first(k + 2)).solvable(4),
    {
        let top = linear::reach(self.n, r);
        let b = self.kept(first(k + 2));
        let n = self.n;
        self.lemma_kept(first(k + 2), r);
        self.lemma_far_out(k, r, true);
        self.lemma_far_out(k, r, false);
        self.lemma_part_stages(k, k / 2, r);
        let (x, y) = (b.pivoted(k / 2), b.pivoted(k / 2 + 1));
        assert(x.wf() && x.n == n && x.coherent() && x.small(3 * top) && x.is_free_from(k + 2) && (
        forall|c: int| 0 <= c < k ==> #[trigger] x.closed_at(c))) by {
            reveal(Grid::is_part_stage);
        }
        b.lemma_pivoted(k / 2 + 1);
        assert(y == x.relaxed_all(k).halved_all());
        x.lemma_last_pair(k, top);
        let v = choose|v: Seq<int>| #[trigger] y.admits(v, 4);
        assert forall|i: int, j: int|
            b.has(i, j) && #[trigger] b.at(i, j) != DBM_INF implies 2 * (grid::node(v, i)
            - grid::node(v, j)) <= 4 * b.at(i, j) by {
            assert(y.has(i, j));
            assert(y.at(i, j) <= b.at(i, j));
            b.lemma_cell(i, j);
            assert(2 * (grid::node(v, i) - grid::node(v, j)) <= 4 * y.at(i, j));
        }
        assert(b.admits(v, 4));
    }

    /// The first variable at which there is no solution any more shows in the
    /// diagonal.
    proof fn lemma_first_variable(self, m: int, r: int)
        requires
            self.wf(),
            self.coherent(),
            self.small(r),
            0 <= r,
            9 * linear::reach(self.n, r) <= ROOM,
            r <= linear::reach(self.n, r),
            self.nonnegative_diagonal(),
            0 <= m <= self.n / 2,
            !self.kept(first(2 * m)).solvable(4),
        ensures
            !self.pass().nonnegative_diagonal(),
        decreases m,
    {
        let n = self.n;
        if m == 0 {
            self.lemma_kept(first(0), r);
            let b = self.kept(first(0));
            let v = Seq::new((n / 2) as nat, |x: int| 0int);
            assert forall|i: int, j: int|
                b.has(i, j) && #[trigger] b.at(i, j) != DBM_INF implies 2 * (grid::node(v, i)
                - grid::node(v, j)) <= 4 * b.at(i, j) by {
                assert(self.has(i, j));
                assert(self.at(i, i) >= 0);
            }
            assert(b.admits(v, 4));
        } else {
            let k = 2 * (m - 1);
            if !self.kept(first(k)).solvable(4) {
                self.lemma_first_variable(m - 1, r);
            } else {
                let b = self.kept(first(k + 2));
                self.lemma_kept(first(k + 2), r);
                assert(k + 2 == 2 * m && k / 2 + 1 == m);
                if b.pivoted(m).nonnegative_diagonal() {
                    self.lemma_last_variable(k, r);
                }
                let i = choose|i: int| 0 <= i < b.pivoted(m).n && #[trigger] b.pivoted(m).at(i, i) < 0;
                self.lemma_pivoted_mono(b, m);
                self.lemma_pivoted(m);
                b.lemma_pivoted(m);
                self.lemma_pivoted(n / 2);
                self.lemma_pivoted_later(m, n / 2);
                assert(self.pivoted(m).has(i, i) && self.pass().has(i, i));
                assert(self.pass().at(i, i) <= self.pivoted(m).at(i, i));
                assert(self.pivoted(m).at(i, i) <= b.pivoted(m).at(i, i));
            }
        }
    }

    /// Where bounds that mirror each other have no solution, a pass leaves a
    /// negative diagonal cell.
    pub proof fn law_contradictions_show(self, r: int)
        requires
            self.wf(),
            self.coherent(),
            self.small(r),
            0 <= r,
            9 * linear::reach(self.n, r) <= ROOM,
            !self.solvable(4),
        ensures
            !self.pass().nonnegative_diagonal(),
    {
        let n = self.n;
        assert(r <= linear::reach(n, r)) by (nonlinear_arith)
            requires
                0 <= n,
                0 <= r,
                linear::reach(n, r) == (n + 1) * (r + 1),
        ;
        self.lemma_pivoted(n / 2);
        if self.nonnegative_diagonal() {
            self.lemma_kept(first(n), r);
            self.kept(first(n)).lemma_ext(self);
            assert(2 * (n / 2) == n);
            self.lemma_first_variable(n / 2, r);
        } else {
            let i = choose|i: int| 0 <= i < n && #[trigger] self.at(i, i) < 0;
            assert(self.pass().has(i, i) && self.has(i, i));
            assert(self.pass().at(i, i) <= self.at(i, i));
        }
    }
}

impl Grid {
    /// A diagonal cell that is negative after the first pass stays so, and is
    /// reported.
    pub proof fn lemma_negative_is_reported(self, exact: bool)
        requires
            self.wf(),
            self.floored(),
            !self.pass().nonnegative_diagonal(),
        ensures
            !self.closed_form(exact).ok,
    {
        let n = self.n;
        let p = self.pass();
        self.lemma_pivoted(n / 2);
        let i = choose|i: int| 0 <= i < n && #[trigger] p.at(i, i) < 0;
        let first = self.round(exact);
        self.lemma_round(exact);
        if exact && first.ok {
            p.lemma_tightened(n);
            Grid::lemma_square(n);
            p.tightened(n).lemma_halved(n * n);
            assert(p.has(i, i) && p.tightened(n).has(i, i) && first.grid.has(i, i));
        }
        if first.ok {
            assert(first.grid.at(i, i) < 0);
            let m = first.grid.mirrored();
            first.grid.lemma_mirrored();
            assert(m.floored()) by {
                assert forall|a: int, b: int| m.has(a, b) implies #[trigger] m.at(a, b)
                    >= arith::DBM_FLOOR by {
                    assert(first.grid.has(a, b));
                    assert(first.grid.has(arith::mirror(b), arith::mirror(a)));
                    assert(first.grid.at(a, b) >= arith::DBM_FLOOR);
                    assert(first.grid.at(arith::mirror(b), arith::mirror(a)) >= arith::DBM_FLOOR);
                }
            }
            m.lemma_round(exact);
            assert(first.grid.has(i, i) && m.has(i, i) && m.round(exact).grid.has(i, i));
            assert(m.at(i, i) <= first.grid.at(i, i));
            assert(m.round(exact).grid.at(i, i) <= m.at(i, i));
        }
        let r = self.rounds(exact);
        self.lemma_rounds(exact);
        if r.ok {
            assert(r.grid.at(i, i) < 0);
            r.grid.lemma_first_negative(0);
        }
    }

    /// Small bounds lie above the floor.
    pub proof fn lemma_small_is_floored(self, r: int)
        requires
            self.small(r),
            r <= ROOM,
        ensures
            self.floored(),
            self.no_min(),
    {
        assert forall|i: int, j: int| self.has(i, j) implies #[trigger] self.at(i, j)
            >= arith::DBM_FLOOR by {
            assert(exact::fits(self.at(i, j), r));
        }
        assert forall|i: int, j: int| self.has(i, j) implies #[trigger] self.at(i, j)
            != i128::MIN by {
            assert(exact::fits(self.at(i, j), r));
        }
    }

    /// An integer solution is a rational one.
    pub proof fn lemma_integers_are_rational(self)
        requires
            self.solvable(1),
            self.n % 2 == 0,
        ensures
            self.solvable(4),
    {
        let v = choose|v: Seq<int>| #[trigger] self.admits(v, 1);
        let w = Seq::new((self.n / 2) as nat, |x: int| 4 * v[x]);
        assert forall|i: int, j: int|
            self.has(i, j) && #[trigger] self.at(i, j) != DBM_INF implies 2 * (grid::node(w, i)
            - grid::node(w, j)) <= 4 * self.at(i, j) by {
            assert(2 * (grid::node(v, i) - grid::node(v, j)) <= 1 * self.at(i, j));
            assert(w[i / 2] == 4 * v[i / 2] && w[j / 2] == 4 * v[j / 2]);
        }
        assert(self.admits(w, 4));
    }

    /// Closing small integer bounds that mirror each other reports a contradiction
    /// exactly where they have no solution: strong closing over the rationals,
    /// integer closing over the integers. Small means that nine times the bounds,
    /// times the number of nodes, leave the representable range some room.
    pub proof fn law_closing_small_decides(self, r: int, exact: bool)
        requires
            self.wf(),
            self.coherent(),
            exact ==> self.even(),
            self.small(r),
            0 <= r,
            9 * linear::reach(self.n, r) <= ROOM,
        ensures
            self.closed_form(exact).ok <==> self.solvable(
                if exact {
                    1
                } else {
                    4
                },
            ),
    {
        assert(r <= linear::reach(self.n, r)) by (nonlinear_arith)
            requires
                0 <= self.n,
                0 <= r,
                linear::reach(self.n, r) == (self.n + 1) * (r + 1),
        ;
        self.lemma_small_is_floored(r);
        if self.solvable(4) {
            self.law_solvable_is_roomy(r);
            self.law_closing_decides(exact);
        } else {
            self.law_contradictions_show(r);
            self.lemma_negative_is_reported(exact);
            if self.solvable(1) {
                self.lemma_integers_are_rational();
            }
        }
    }

    /// Where closing such bounds finds no contradiction, the result is tight: it is
    /// strongly closed, and every bound is met by a point.
    pub proof fn law_closing_small_closes(self, r: int, exact: bool)
        requires
            self.wf(),
            self.coherent(),
            self.even(),
            self.small(r),
            0 <= r,
            9 * linear::reach(self.n, r) <= ROOM,
            self.closed_form(exact).ok,
        ensures
            self.closes_exactly(exact),
            self.closed_form(exact).grid.strongly_closed(),
            self.closed_form(exact).grid.is_tight(
                if exact {
                    1
                } else {
                    4
                },
            ),
    {
        self.law_closing_small_decides(r, exact);
        if exact {
            self.lemma_integers_are_rational();
        }
        assert(linear::reach(self.n, r) >= 0) by (nonlinear_arith)
            requires
                0 <= self.n,
                0 <= r,
                linear::reach(self.n, r) == (self.n + 1) * (r + 1),
        ;
        self.law_solvable_is_roomy(r);
        self.law_closing_closes(exact);
        self.law_closing_is_tight(exact);
    }
}

} // verus!
