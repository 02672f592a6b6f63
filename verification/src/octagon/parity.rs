//! Odd cells in a pass over even bounds.
use vstd::prelude::*;
use crate::octagon::arith;
use crate::octagon::arith::DBM_INF;
use crate::octagon::exact;
use crate::octagon::exact::ROOM;
use crate::octagon::grid;
use crate::octagon::grid::Grid;

verus! {

/// `x` is even, or at least half of what the bounds of `f` on the two variables add
/// up to.
pub open spec fn even_or_half(f: Grid, i: int, j: int, x: int) -> bool {
    let (a, b) = (f.at(i, arith::mirror(i)), f.at(arith::mirror(j), j));
    x % 2 == 0 || (a != DBM_INF && b != DBM_INF && a + b <= 2 * x)
}

#[verifier::opaque]
pub open spec fn all_even_or_half(f: Grid, g: Grid) -> bool {
    forall|i: int, j: int|
        g.has(i, j) && #[trigger] g.at(i, j) != DBM_INF ==> even_or_half(f, i, j, g.at(i, j))
}

proof fn lemma_even_or_half(f: Grid, g: Grid, i: int, j: int)
    requires
        all_even_or_half(f, g),
        g.has(i, j),
        g.at(i, j) != DBM_INF,
    ensures
        even_or_half(f, i, j, g.at(i, j)),
{
    reveal(all_even_or_half);
}

impl Grid {
    /// A closed matrix that mirrors itself.
    #[verifier::opaque]
    pub open spec fn closed_mirror(self) -> bool {
        &&& self.wf()
        &&& self.small(ROOM as int)
        &&& self.coherent()
        &&& forall|c: int| 0 <= c < self.n ==> #[trigger] self.closed_at(c)
    }

    /// Bounds on single variables along an edge.
    proof fn lemma_edge(self, c: int, j: int)
        requires
            self.closed_mirror(),
            self.has(c, j),
            self.at(c, j) != DBM_INF,
        ensures
            ({
                let (cb, jb) = (arith::mirror(c), arith::mirror(j));
                &&& self.at(cb, c) != DBM_INF ==> self.at(jb, j) != DBM_INF && self.at(jb, j)
                    <= self.at(cb, c) + 2 * self.at(c, j)
                &&& self.at(j, jb) != DBM_INF ==> self.at(c, cb) != DBM_INF && self.at(c, cb)
                    <= self.at(j, jb) + 2 * self.at(c, j)
            }),
    {
        reveal(Grid::closed_mirror);
        let (cb, jb) = (arith::mirror(c), arith::mirror(j));
        assert(self.has(jb, cb) && self.has(cb, c) && self.has(jb, c) && self.has(jb, j));
        assert(self.has(j, jb) && self.has(c, jb) && self.has(c, cb));
        assert(self.at(c, j) == self.at(jb, cb));
        assert(exact::fits(self.at(c, j), ROOM as int));
        assert(exact::fits(self.at(cb, c), ROOM as int));
        assert(exact::fits(self.at(j, jb), ROOM as int));
        assert(exact::fits(self.at(jb, c), ROOM as int));
        assert(exact::fits(self.at(c, jb), ROOM as int));
        self.lemma_cell(jb, j);
        self.lemma_cell(c, cb);
        assert(self.closed_at(c) && self.closed_at(cb) && self.closed_at(j) && self.closed_at(jb));
        assert(self.at(jb, c) <= arith::oplus(self.at(jb, cb), self.at(cb, c)));
        assert(self.at(jb, j) <= arith::oplus(self.at(jb, c), self.at(c, j)));
        assert(self.at(c, jb) <= arith::oplus(self.at(c, j), self.at(j, jb)));
        assert(self.at(c, cb) <= arith::oplus(self.at(c, jb), self.at(jb, cb)));
    }
}

/// Two edges.
proof fn lemma_two_edges(f: Grid, i: int, c: int, j: int, x: int, y: int)
    requires
        f.closed_mirror(),
        f.has(i, c),
        f.has(c, j),
        f.n % 2 == 0,
        f.at(i, c) <= x < DBM_INF,
        f.at(c, j) <= y < DBM_INF,
        even_or_half(f, i, c, x),
        even_or_half(f, c, j, y),
    ensures
        even_or_half(f, i, j, x + y),
{
    f.lemma_edge(i, c);
    f.lemma_edge(c, j);
    assert(arith::mirror(arith::mirror(c)) == c);
}

impl Grid {
    proof fn lemma_halved_even_or_half(self, f: Grid)
        requires
            self.wf(),
            self.small(3 * ROOM),
            f.n == self.n,
            f.below(self),
            f.wf(),
            all_even_or_half(f, self),
        ensures
            all_even_or_half(f, self.halved_all()),
    {
        reveal(all_even_or_half);
        let h = self.halved_all();
        Grid::lemma_square(self.n);
        self.lemma_halved_cells(self.n * self.n);
        assert forall|i: int, j: int|
            h.has(i, j) && #[trigger] h.at(i, j) != DBM_INF implies even_or_half(
            f,
            i,
            j,
            h.at(i, j),
        ) by {
            let (ib, jb) = (arith::mirror(i), arith::mirror(j));
            Grid::lemma_index(self.n, i, j);
            assert(self.has(i, j) && self.has(i, ib) && self.has(jb, j));
            assert(f.has(i, ib) && f.has(jb, j));
            assert(h.at(i, j) == grid::min2(self.at(i, j), self.half_sum(i, j)));
            if h.at(i, j) == self.at(i, j) {
                lemma_even_or_half(f, self, i, j);
            } else {
                assert(exact::fits(self.at(i, ib), 3 * ROOM));
                assert(exact::fits(self.at(jb, j), 3 * ROOM));
                assert(f.at(i, ib) <= self.at(i, ib) && f.at(jb, j) <= self.at(jb, j));
            }
        }
    }

    #[verifier::spinoff_prover]
    proof fn lemma_through_even_or_half(self, f: Grid, k: int, i: int, j: int)
        requires
            self.wf(),
            self.small(ROOM as int),
            f.n == self.n,
            f.below(self),
            f.wf(),
            f.closed_mirror(),
            all_even_or_half(f, self),
            0 <= k < self.n,
            k % 2 == 0,
            self.has(i, j),
            self.through(k, i, j) != DBM_INF,
        ensures
            even_or_half(f, i, j, self.through(k, i, j)),
    {
        let l = k + 1;
        let (ij, ik, kj) = (self.at(i, j), self.at(i, k), self.at(k, j));
        let (il, lj, kl, lk) = (self.at(i, l), self.at(l, j), self.at(k, l), self.at(l, k));
        let r = self.through(k, i, j);
        self.lemma_through_best(k, i, j);
        self.lemma_small_pair(k, i, j);
        exact::lemma_best(ij, ik, kj, il, lj, kl, lk);
        assert(self.has(i, k) && self.has(k, j) && self.has(i, l) && self.has(l, j));
        assert(self.has(k, l) && self.has(l, k));
        assert(f.has(i, k) && f.has(k, j) && f.has(i, l) && f.has(l, j));
        assert(f.has(k, l) && f.has(l, k));
        assert(f.at(i, k) <= ik && f.at(k, j) <= kj && f.at(i, l) <= il && f.at(l, j) <= lj);
        assert(f.at(k, l) <= kl && f.at(l, k) <= lk);
        if r == ij {
            lemma_even_or_half(f, self, i, j);
        } else if ik != DBM_INF && kj != DBM_INF && r == ik + kj {
            lemma_even_or_half(f, self, i, k);
            lemma_even_or_half(f, self, k, j);
            lemma_two_edges(f, i, k, j, ik, kj);
        } else if il != DBM_INF && lj != DBM_INF && r == il + lj {
            lemma_even_or_half(f, self, i, l);
            lemma_even_or_half(f, self, l, j);
            lemma_two_edges(f, i, l, j, il, lj);
        } else if ik != DBM_INF && kl != DBM_INF && lj != DBM_INF && r == ik + kl + lj {
            lemma_even_or_half(f, self, i, k);
            lemma_even_or_half(f, self, k, l);
            lemma_even_or_half(f, self, l, j);
            lemma_two_edges(f, i, k, l, ik, kl);
            f.lemma_below_sum(i, k, l);
            lemma_two_edges(f, i, l, j, ik + kl, lj);
        } else {
            lemma_even_or_half(f, self, i, l);
            lemma_even_or_half(f, self, l, k);
            lemma_even_or_half(f, self, k, j);
            lemma_two_edges(f, i, l, k, il, lk);
            f.lemma_below_sum(i, l, k);
            lemma_two_edges(f, i, k, j, il + lk, kj);
        }
    }

    proof fn lemma_below_sum(self, i: int, c: int, j: int)
        requires
            self.closed_mirror(),
            self.has(i, c),
            self.has(c, j),
            self.at(i, c) != DBM_INF,
            self.at(c, j) != DBM_INF,
        ensures
            self.at(i, j) <= self.at(i, c) + self.at(c, j),
    {
        reveal(Grid::closed_mirror);
        assert(self.closed_at(c));
        assert(exact::fits(self.at(i, c), ROOM as int));
        assert(exact::fits(self.at(c, j), ROOM as int));
        assert(self.at(i, j) <= arith::oplus(self.at(i, c), self.at(c, j)));
    }

    /// Odd cells stay above half of what the last bounds add up to.
    proof fn lemma_stages_even_or_half(self, p: int)
        requires
            self.ends_mirrored(false),
            self.even(),
            self.pass().closed_mirror(),
            0 <= p <= self.n / 2,
        ensures
            all_even_or_half(self.pass(), self.pivoted(p)),
        decreases p,
    {
        let f = self.pass();
        self.lemma_pivoted(self.n / 2);
        if p > 0 {
            self.lemma_stages_even_or_half(p - 1);
            let g = self.pivoted(p - 1);
            let k = 2 * (p - 1);
            self.lemma_pivoted(p - 1);
            assert(g.small(ROOM as int));
            self.lemma_pass_consistent(p - 1);
            self.lemma_pivoted_later(p - 1, self.n / 2);
            g.lemma_star(k);
            g.lemma_relaxed_is_star(k);
            let s = g.star(k);
            assert(all_even_or_half(f, s)) by {
                reveal(all_even_or_half);
                assert forall|i: int, j: int|
                    s.has(i, j) && #[trigger] s.at(i, j) != DBM_INF implies even_or_half(
                    f,
                    i,
                    j,
                    s.at(i, j),
                ) by {
                    assert(g.has(i, j));
                    g.lemma_through_even_or_half(f, k, i, j);
                }
            }
            assert(f.below(s)) by {
                self.lemma_pivoted_later(p, self.n / 2);
                Grid::lemma_square(self.n);
                s.lemma_halved(self.n * self.n);
                assert(self.pivoted(p) == s.halved_all());
                assert forall|i: int, j: int| f.has(i, j) implies #[trigger] f.at(i, j) <= s.at(
                    i,
                    j,
                ) by {
                    assert(self.pivoted(p).has(i, j));
                    assert(f.at(i, j) <= self.pivoted(p).at(i, j));
                    assert(self.pivoted(p).at(i, j) <= s.at(i, j));
                }
            }
            s.lemma_halved_even_or_half(f);
        } else {
            reveal(all_even_or_half);
            assert forall|i: int, j: int|
                self.has(i, j) && #[trigger] self.at(i, j) != DBM_INF implies even_or_half(
                f,
                i,
                j,
                self.at(i, j),
            ) by {}
        }
    }

    /// Where a pass over even bounds ends in bounds that mirror each other, rounding
    /// them to integers leaves even bounds that still do: integer closing is exact.
    pub proof fn law_even_bounds_close_exactly(self)
        requires
            self.ends_mirrored(false),
            self.even(),
            self.round(true).ok,
            !self.coherent(),
        ensures
            self.closes_exactly(true),
            self.round(true).grid.coherent(),
            self.round(true).grid.even(),
    {
        let f = self.pass();
        self.lemma_pivoted(self.n / 2);
        assert(self.pivoted(self.n / 2).small(ROOM as int));
        self.law_mirrored_end_is_closed(false);
        assert(f.closed_mirror()) by {
            reveal(Grid::closed_mirror);
            assert forall|c: int| 0 <= c < f.n implies #[trigger] f.closed_at(c) by {
                assert(self.round(false).grid.closed_at(c));
            }
        }
        self.lemma_stages_even_or_half(self.n / 2);
        assert(f.odd_above_half()) by {
            assert forall|i: int, j: int|
                f.has(i, j) && #[trigger] f.at(i, j) != DBM_INF && f.at(i, j) % 2
                    != 0 implies f.half_sum(i, j) <= f.at(i, j) by {
                lemma_even_or_half(f, f, i, j);
                let (ib, jb) = (arith::mirror(i), arith::mirror(j));
                assert(f.has(i, ib) && f.has(jb, j));
                assert(exact::fits(f.at(i, ib), ROOM as int));
                assert(exact::fits(f.at(jb, j), ROOM as int));
            }
        }
        assert forall|c: int| 0 <= c < f.n implies #[trigger] f.closed_at(c) by {
            assert(self.round(false).grid.closed_at(c));
        }
        f.lemma_tight_closed();
    }
}

} // verus!
