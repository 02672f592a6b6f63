//! Closing where no sum leaves the representable range: the result is strongly
//! closed, and it is a contradiction exactly where there is no solution.
use vstd::prelude::*;
use crate::octagon::arith;
use crate::octagon::arith::{DBM_FLOOR, DBM_INF};
use crate::octagon::grid;
use crate::octagon::grid::Grid;
use crate::octagon::sound;

verus! {

/// Up to this magnitude, nine bounds can be added up without clipping.
pub const ROOM: i128 = 0x0200_0000_0000_0000_0000_0000_0000_0000;

/// No bound, or one of at most `r` in magnitude.
pub open spec fn fits(a: int, r: int) -> bool {
    a == DBM_INF || -r <= a <= r
}

/// The least of five path bounds.
#[verifier::opaque]
pub open spec fn best(
    ij: int,
    ik: int,
    kj: int,
    il: int,
    lj: int,
    kl: int,
    lk: int,
) -> int {
    let a = grid::min2(ij, arith::oplus(ik, kj));
    let b = grid::min2(a, arith::oplus(il, lj));
    let c = grid::min2(b, arith::oplus(arith::oplus(ik, kl), lj));
    grid::min2(c, arith::oplus(arith::oplus(il, lk), kj))
}

/// The least of the five paths stays small, and is one of them.
pub proof fn lemma_best(ij: int, ik: int, kj: int, il: int, lj: int, kl: int, lk: int)
    requires
        fits(ij, ROOM as int),
        fits(ik, ROOM as int),
        fits(kj, ROOM as int),
        fits(il, ROOM as int),
        fits(lj, ROOM as int),
        fits(kl, ROOM as int),
        fits(lk, ROOM as int),
    ensures
        fits(best(ij, ik, kj, il, lj, kl, lk), 3 * ROOM),
        ({
            let r = best(ij, ik, kj, il, lj, kl, lk);
            &&& r <= ij
            &&& ik != DBM_INF && kj != DBM_INF ==> r <= ik + kj
            &&& il != DBM_INF && lj != DBM_INF ==> r <= il + lj
            &&& ik != DBM_INF && kl != DBM_INF && lj != DBM_INF ==> r <= ik + kl + lj
            &&& il != DBM_INF && lk != DBM_INF && kj != DBM_INF ==> r <= il + lk + kj
            &&& {
                ||| r == ij
                ||| ik != DBM_INF && kj != DBM_INF && r == ik + kj
                ||| il != DBM_INF && lj != DBM_INF && r == il + lj
                ||| ik != DBM_INF && kl != DBM_INF && lj != DBM_INF && r == ik + kl + lj
                ||| il != DBM_INF && lk != DBM_INF && kj != DBM_INF && r == il + lk + kj
            }
        }),
{
    reveal(best);
}

/// Relaxing through the pair `k`, `l` keeps the triangle inequality at `c`.
#[verifier::spinoff_prover]
proof fn lemma_best_triangle(
    ij: int,
    ik: int,
    kj: int,
    il: int,
    lj: int,
    kl: int,
    lk: int,
    ic: int,
    kc: int,
    lc: int,
    cj: int,
    ck: int,
    cl: int,
)
    requires
        fits(ij, ROOM as int),
        fits(ik, ROOM as int),
        fits(kj, ROOM as int),
        fits(il, ROOM as int),
        fits(lj, ROOM as int),
        fits(kl, ROOM as int),
        fits(lk, ROOM as int),
        fits(ic, ROOM as int),
        fits(kc, ROOM as int),
        fits(lc, ROOM as int),
        fits(cj, ROOM as int),
        fits(ck, ROOM as int),
        fits(cl, ROOM as int),
        kl != DBM_INF && lk != DBM_INF ==> kl + lk >= 0,
        kc != DBM_INF && ck != DBM_INF ==> kc + ck >= 0,
        lc != DBM_INF && cl != DBM_INF ==> lc + cl >= 0,
        kc != DBM_INF && cl != DBM_INF ==> kl <= kc + cl,
        lc != DBM_INF && ck != DBM_INF ==> lk <= lc + ck,
        kc != DBM_INF && cj != DBM_INF ==> kj <= kc + cj,
        lc != DBM_INF && cj != DBM_INF ==> lj <= lc + cj,
        ic != DBM_INF && ck != DBM_INF ==> ik <= ic + ck,
        ic != DBM_INF && cl != DBM_INF ==> il <= ic + cl,
        ic != DBM_INF && cj != DBM_INF ==> ij <= ic + cj,
    ensures
        best(ij, ik, kj, il, lj, kl, lk) <= arith::oplus(
            best(ic, ik, kc, il, lc, kl, lk),
            best(cj, ck, kj, cl, lj, kl, lk),
        ),
{
    lemma_best(ij, ik, kj, il, lj, kl, lk);
    lemma_best(ic, ik, kc, il, lc, kl, lk);
    lemma_best(cj, ck, kj, cl, lj, kl, lk);
    let r = best(ij, ik, kj, il, lj, kl, lk);
    let a = best(ic, ik, kc, il, lc, kl, lk);
    let b = best(cj, ck, kj, cl, lj, kl, lk);
    if a != DBM_INF && b != DBM_INF {
        assert(r <= a + b) by {
            if a == ic {
            } else if ik != DBM_INF && kc != DBM_INF && a == ik + kc {
            } else if il != DBM_INF && lc != DBM_INF && a == il + lc {
            } else if ik != DBM_INF && kl != DBM_INF && lc != DBM_INF && a == ik + kl + lc {
            } else {
            }
        }
    }
}

/// Relaxing through the pair `k`, `l` gives the triangle inequality at `k`.
#[verifier::spinoff_prover]
proof fn lemma_best_pivot(
    ij: int,
    ik: int,
    kj: int,
    il: int,
    lj: int,
    kl: int,
    lk: int,
    kk: int,
)
    requires
        fits(ij, ROOM as int),
        fits(ik, ROOM as int),
        fits(kj, ROOM as int),
        fits(il, ROOM as int),
        fits(lj, ROOM as int),
        fits(kl, ROOM as int),
        fits(lk, ROOM as int),
        fits(kk, ROOM as int),
        kk >= 0,
        kl != DBM_INF && lk != DBM_INF ==> kl + lk >= 0,
    ensures
        best(ij, ik, kj, il, lj, kl, lk) <= arith::oplus(
            best(ik, ik, kk, il, lk, kl, lk),
            best(kj, kk, kj, kl, lj, kl, lk),
        ),
{
    lemma_best(ij, ik, kj, il, lj, kl, lk);
    lemma_best(ik, ik, kk, il, lk, kl, lk);
    lemma_best(kj, kk, kj, kl, lj, kl, lk);
}

/// The five paths do not depend on which of the pair comes first.
proof fn lemma_best_swap(ij: int, ik: int, kj: int, il: int, lj: int, kl: int, lk: int)
    requires
        fits(ij, ROOM as int),
        fits(ik, ROOM as int),
        fits(kj, ROOM as int),
        fits(il, ROOM as int),
        fits(lj, ROOM as int),
        fits(kl, ROOM as int),
        fits(lk, ROOM as int),
    ensures
        best(ij, ik, kj, il, lj, kl, lk) == best(ij, il, lj, ik, kj, lk, kl),
        best(ij, ik, kj, il, lj, kl, lk) == best(ij, lj, il, kj, ik, kl, lk),
{
    lemma_best(ij, ik, kj, il, lj, kl, lk);
    lemma_best(ij, il, lj, ik, kj, lk, kl);
    lemma_best(ij, lj, il, kj, ik, kl, lk);
}

impl Grid {
    /// Every cell is no bound, or one of at most `r` in magnitude.
    pub open spec fn small(self, r: int) -> bool {
        forall|i: int, j: int| self.has(i, j) ==> fits(#[trigger] self.at(i, j), r)
    }

    /// Through a whole pass every bound stays small after each pivot pair.
    pub open spec fn roomy(self) -> bool {
        forall|p: int| 0 <= p <= self.n / 2 ==> (#[trigger] self.pivoted(p)).small(ROOM as int)
    }

    /// The triangle inequality at the middle node `c`.
    pub open spec fn closed_at(self, c: int) -> bool {
        forall|i: int, j: int|
            #![trigger self.at(i, c), self.at(c, j)]
            self.has(i, c) && self.has(c, j) ==> self.at(i, j) <= arith::oplus(
                self.at(i, c),
                self.at(c, j),
            )
    }

    /// No diagonal cell is negative.
    pub open spec fn nonnegative_diagonal(self) -> bool {
        forall|i: int| 0 <= i < self.n ==> #[trigger] self.at(i, i) >= 0
    }

    /// Each odd cell is at least its half-sum bound.
    pub open spec fn odd_above_half(self) -> bool {
        forall|i: int, j: int|
            self.has(i, j) && #[trigger] self.at(i, j) != DBM_INF && self.at(i, j) % 2 != 0
                ==> self.half_sum(i, j) <= self.at(i, j)
    }

    pub proof fn lemma_through_best(self, k: int, i: int, j: int)
        requires
            k % 2 == 0,
        ensures
            self.through(k, i, j) == best(
                self.at(i, j),
                self.at(i, k),
                self.at(k, j),
                self.at(i, k + 1),
                self.at(k + 1, j),
                self.at(k, k + 1),
                self.at(k + 1, k),
            ),
    {
        reveal(best);
    }

    // -----------------------------------------------------------------------
    // One pivot pair
    // -----------------------------------------------------------------------

    /// The matrix in which every cell is relaxed at once.
    pub open spec fn star(self, k: int) -> Grid {
        Grid {
            n: self.n,
            cells: Seq::new(
                self.cells.len(),
                |t: int| self.through(k, t / self.n, t % self.n) as i128,
            ),
        }
    }

    pub proof fn lemma_star(self, k: int)
        requires
            self.wf(),
            self.small(ROOM as int),
            0 <= k < self.n,
            k % 2 == 0,
        ensures
            self.star(k).wf(),
            self.star(k).below(self),
            self.star(k).small(3 * ROOM),
            forall|i: int, j: int|
                self.has(i, j) ==> #[trigger] self.star(k).at(i, j) == self.through(k, i, j),
    {
        let s = self.star(k);
        assert forall|i: int, j: int| self.has(i, j) implies #[trigger] s.at(i, j) == self.through(
            k,
            i,
            j,
        ) && fits(s.at(i, j), 3 * ROOM) && s.at(i, j) <= self.at(i, j) by {
            Grid::lemma_index(self.n, i, j);
            self.lemma_through_best(k, i, j);
            self.lemma_small_pair(k, i, j);
            lemma_best(
                self.at(i, j),
                self.at(i, k),
                self.at(k, j),
                self.at(i, k + 1),
                self.at(k + 1, j),
                self.at(k, k + 1),
                self.at(k + 1, k),
            );
        }
        assert forall|t: int| 0 <= t < s.cells.len() implies #[trigger] s.cells[t] <= DBM_INF by {
            Grid::lemma_unindex(self.n, t);
            assert(s.at(t / s.n, t % s.n) == s.cells[t]);
            assert(self.has(t / s.n, t % s.n));
        }
    }

    pub proof fn lemma_small_pair(self, k: int, i: int, j: int)
        requires
            self.small(ROOM as int),
            0 <= k,
            k + 1 < self.n,
            self.has(i, j),
        ensures
            fits(self.at(i, j), ROOM as int),
            fits(self.at(i, k), ROOM as int),
            fits(self.at(k, j), ROOM as int),
            fits(self.at(i, k + 1), ROOM as int),
            fits(self.at(k + 1, j), ROOM as int),
            fits(self.at(k, k + 1), ROOM as int),
            fits(self.at(k + 1, k), ROOM as int),
            fits(self.at(k, k), ROOM as int),
            fits(self.at(k + 1, k + 1), ROOM as int),
    {
        assert(self.has(i, k) && self.has(k, j) && self.has(i, k + 1) && self.has(k + 1, j));
        assert(self.has(k, k + 1) && self.has(k + 1, k) && self.has(k, k) && self.has(
            k + 1,
            k + 1,
        ));
    }

    /// No cycle through the pair is negative.
    pub open spec fn pair_consistent(self, k: int) -> bool {
        &&& self.at(k, k) >= 0
        &&& self.at(k + 1, k + 1) >= 0
        &&& self.at(k, k + 1) != DBM_INF && self.at(k + 1, k) != DBM_INF ==> self.at(k, k + 1)
            + self.at(k + 1, k) >= 0
    }

    /// Relaxed at once, the matrix is closed at the pair.
    pub proof fn lemma_star_pair(self, k: int)
        requires
            self.wf(),
            self.small(ROOM as int),
            0 <= k < self.n,
            k % 2 == 0,
            self.pair_consistent(k),
        ensures
            self.star(k).closed_at(k),
            self.star(k).closed_at(k + 1),
    {
        let s = self.star(k);
        self.lemma_star(k);
        let l = k + 1;
        assert forall|i: int, j: int|
            #![trigger s.at(i, k), s.at(k, j)]
            s.has(i, k) && s.has(k, j) implies s.at(i, j) <= arith::oplus(
            s.at(i, k),
            s.at(k, j),
        ) by {
            self.lemma_small_pair(k, i, j);
            self.lemma_through_best(k, i, j);
            self.lemma_through_best(k, i, k);
            self.lemma_through_best(k, k, j);
            assert(self.has(i, j) && self.has(i, k) && self.has(k, j));
            lemma_best_pivot(
                self.at(i, j),
                self.at(i, k),
                self.at(k, j),
                self.at(i, l),
                self.at(l, j),
                self.at(k, l),
                self.at(l, k),
                self.at(k, k),
            );
        }
        assert forall|i: int, j: int|
            #![trigger s.at(i, l), s.at(l, j)]
            s.has(i, l) && s.has(l, j) implies s.at(i, j) <= arith::oplus(
            s.at(i, l),
            s.at(l, j),
        ) by {
            self.lemma_small_pair(k, i, j);
            self.lemma_small_pair(k, i, l);
            self.lemma_small_pair(k, l, j);
            self.lemma_through_best(k, i, j);
            self.lemma_through_best(k, i, l);
            self.lemma_through_best(k, l, j);
            assert(self.has(i, j) && self.has(i, l) && self.has(l, j));
            let (ij, ik, kj, il, lj, kl, lk, ll) = (
                self.at(i, j),
                self.at(i, k),
                self.at(k, j),
                self.at(i, l),
                self.at(l, j),
                self.at(k, l),
                self.at(l, k),
                self.at(l, l),
            );
            lemma_best_pivot(ij, il, lj, ik, kj, lk, kl, ll);
            lemma_best_swap(ij, ik, kj, il, lj, kl, lk);
            lemma_best_swap(il, ik, kl, il, ll, kl, lk);
            lemma_best_swap(lj, lk, kj, ll, lj, kl, lk);
        }
    }

    /// Relaxed at once, the matrix stays closed where it was.
    pub proof fn lemma_star_keeps(self, k: int, c: int)
        requires
            self.wf(),
            self.small(ROOM as int),
            0 <= k < self.n,
            k % 2 == 0,
            0 <= c < self.n,
            self.pair_consistent(k),
            self.closed_at(c),
        ensures
            self.star(k).closed_at(c),
    {
        let s = self.star(k);
        self.lemma_star(k);
        let l = k + 1;
        assert forall|i: int, j: int|
            #![trigger s.at(i, c), s.at(c, j)]
            s.has(i, c) && s.has(c, j) implies s.at(i, j) <= arith::oplus(
            s.at(i, c),
            s.at(c, j),
        ) by {
            self.lemma_small_pair(k, i, j);
            self.lemma_small_pair(k, i, c);
            self.lemma_small_pair(k, c, j);
            self.lemma_through_best(k, i, j);
            self.lemma_through_best(k, i, c);
            self.lemma_through_best(k, c, j);
            assert(self.has(i, j) && self.has(i, c) && self.has(c, j));
            assert(self.has(k, c) && self.has(c, k) && self.has(l, c) && self.has(c, l));
            assert(self.at(k, k) <= arith::oplus(self.at(k, c), self.at(c, k)));
            assert(self.at(l, l) <= arith::oplus(self.at(l, c), self.at(c, l)));
            assert(self.at(k, l) <= arith::oplus(self.at(k, c), self.at(c, l)));
            assert(self.at(l, k) <= arith::oplus(self.at(l, c), self.at(c, k)));
            assert(self.at(k, j) <= arith::oplus(self.at(k, c), self.at(c, j)));
            assert(self.at(l, j) <= arith::oplus(self.at(l, c), self.at(c, j)));
            assert(self.at(i, k) <= arith::oplus(self.at(i, c), self.at(c, k)));
            assert(self.at(i, l) <= arith::oplus(self.at(i, c), self.at(c, l)));
            assert(self.at(i, j) <= arith::oplus(self.at(i, c), self.at(c, j)));
            lemma_best_triangle(
                self.at(i, j),
                self.at(i, k),
                self.at(k, j),
                self.at(i, l),
                self.at(l, j),
                self.at(k, l),
                self.at(l, k),
                self.at(i, c),
                self.at(k, c),
                self.at(l, c),
                self.at(c, j),
                self.at(c, k),
                self.at(c, l),
            );
        }
    }

    /// Relaxed at once, a coherent matrix stays coherent.
    pub proof fn lemma_star_coherent(self, k: int)
        requires
            self.wf(),
            self.small(ROOM as int),
            0 <= k < self.n,
            k % 2 == 0,
            self.coherent(),
        ensures
            self.star(k).coherent(),
    {
        let s = self.star(k);
        self.lemma_star(k);
        let l = k + 1;
        assert forall|i: int, j: int| #[trigger] s.has(i, j) implies s.at(i, j) == s.at(
            arith::mirror(j),
            arith::mirror(i),
        ) by {
            let (ib, jb) = (arith::mirror(i), arith::mirror(j));
            self.lemma_small_pair(k, i, j);
            self.lemma_through_best(k, i, j);
            self.lemma_through_best(k, jb, ib);
            assert(self.has(i, j) && self.has(jb, ib));
            assert(self.has(i, k) && self.has(i, l) && self.has(k, j) && self.has(l, j));
            assert(self.has(k, l) && self.has(l, k));
            assert(self.at(i, j) == self.at(jb, ib));
            assert(self.at(i, k) == self.at(l, ib));
            assert(self.at(i, l) == self.at(k, ib));
            assert(self.at(k, j) == self.at(jb, l));
            assert(self.at(l, j) == self.at(jb, k));
            lemma_best_swap(
                self.at(i, j),
                self.at(i, k),
                self.at(k, j),
                self.at(i, l),
                self.at(l, j),
                self.at(k, l),
                self.at(l, k),
            );
        }
    }

    /// In place, each visited cell ends at or below its bound through the pair.
    pub proof fn lemma_relaxed_upper(self, k: int, t: int)
        requires
            self.wf(),
            0 <= k < self.n,
            k % 2 == 0,
            0 <= t <= self.n * self.n,
        ensures
            forall|i: int, j: int|
                self.has(i, j) && i * self.n + j < t ==> #[trigger] self.relaxed(k, t).at(i, j)
                    <= self.through(k, i, j),
        decreases t,
    {
        if t > 0 {
            self.lemma_relaxed_upper(k, t - 1);
            self.lemma_relaxed(k, t - 1);
            let p = self.relaxed(k, t - 1);
            Grid::lemma_unindex(self.n, t - 1);
            let (a, b) = ((t - 1) / self.n, (t - 1) % self.n);
            let l = arith::mirror(k);
            self.lemma_cell(a, k);
            self.lemma_cell(k, b);
            self.lemma_cell(a, l);
            self.lemma_cell(l, b);
            self.lemma_cell(k, l);
            self.lemma_cell(l, k);
            p.lemma_cell(a, b);
            sound::lemma_oplus_mono(p.at(a, k), p.at(k, b), self.at(a, k), self.at(k, b));
            sound::lemma_oplus_mono(p.at(a, l), p.at(l, b), self.at(a, l), self.at(l, b));
            sound::lemma_oplus_mono(p.at(a, k), p.at(k, l), self.at(a, k), self.at(k, l));
            sound::lemma_oplus_mono(p.at(a, l), p.at(l, k), self.at(a, l), self.at(l, k));
            sound::lemma_oplus_mono(
                arith::oplus(p.at(a, k), p.at(k, l)),
                p.at(l, b),
                arith::oplus(self.at(a, k), self.at(k, l)),
                self.at(l, b),
            );
            sound::lemma_oplus_mono(
                arith::oplus(p.at(a, l), p.at(l, k)),
                p.at(k, b),
                arith::oplus(self.at(a, l), self.at(l, k)),
                self.at(k, b),
            );
            assert(p.through(k, a, b) <= self.through(k, a, b));
            p.lemma_put(a, b, p.through(k, a, b));
            assert forall|i: int, j: int|
                self.has(i, j) && i * self.n + j < t implies #[trigger] self.relaxed(k, t).at(i, j)
                <= self.through(k, i, j) by {
                if !(i == a && j == b) {
                    Grid::lemma_index(self.n, i, j);
                    assert(i * self.n + j != t - 1);
                    assert(self.relaxed(k, t - 1).at(i, j) <= self.through(k, i, j));
                }
            }
        }
    }

    /// A matrix closed at the pair stays below the bounds through the pair.
    proof fn lemma_through_over(self, low: Grid, k: int, i: int, j: int)
        requires
            self.wf(),
            low.wf(),
            low.below(self),
            0 <= k < self.n,
            k % 2 == 0,
            low.closed_at(k),
            low.closed_at(k + 1),
            self.has(i, j),
        ensures
            low.at(i, j) <= self.through(k, i, j),
    {
        let l = k + 1;
        self.lemma_cell(i, k);
        self.lemma_cell(k, j);
        self.lemma_cell(i, l);
        self.lemma_cell(l, j);
        self.lemma_cell(k, l);
        self.lemma_cell(l, k);
        self.lemma_cell(i, j);
        sound::lemma_oplus_mono(low.at(i, k), low.at(k, j), self.at(i, k), self.at(k, j));
        sound::lemma_oplus_mono(low.at(i, l), low.at(l, j), self.at(i, l), self.at(l, j));
        sound::lemma_oplus_mono(low.at(i, k), low.at(k, l), self.at(i, k), self.at(k, l));
        sound::lemma_oplus_mono(low.at(i, l), low.at(l, k), self.at(i, l), self.at(l, k));
        sound::lemma_oplus_mono(
            low.at(i, l),
            low.at(l, j),
            arith::oplus(self.at(i, k), self.at(k, l)),
            self.at(l, j),
        );
        sound::lemma_oplus_mono(
            low.at(i, k),
            low.at(k, j),
            arith::oplus(self.at(i, l), self.at(l, k)),
            self.at(k, j),
        );
        assert(low.has(i, k) && low.has(k, j) && low.has(i, l) && low.has(l, j));
        assert(low.has(k, l) && low.has(l, k));
        assert(low.at(i, l) <= arith::oplus(low.at(i, k), low.at(k, l)));
        assert(low.at(i, k) <= arith::oplus(low.at(i, l), low.at(l, k)));
        assert(low.at(i, j) <= arith::oplus(low.at(i, k), low.at(k, j)));
        assert(low.at(i, j) <= arith::oplus(low.at(i, l), low.at(l, j)));
    }

    /// In place, no cell falls below what relaxing at once gives.
    proof fn lemma_relaxed_lower(self, k: int, t: int)
        requires
            self.wf(),
            self.small(ROOM as int),
            0 <= k < self.n,
            k % 2 == 0,
            self.pair_consistent(k),
            0 <= t <= self.n * self.n,
        ensures
            self.star(k).below(self.relaxed(k, t)),
        decreases t,
    {
        let low = self.star(k);
        self.lemma_star(k);
        self.lemma_star_pair(k);
        if t > 0 {
            self.lemma_relaxed_lower(k, t - 1);
            self.lemma_relaxed(k, t - 1);
            let p = self.relaxed(k, t - 1);
            Grid::lemma_unindex(self.n, t - 1);
            let (i, j) = ((t - 1) / self.n, (t - 1) % self.n);
            let l = k + 1;
            p.lemma_through_over(low, k, i, j);
            p.lemma_cell(i, j);
            assert(low.at(i, j) <= p.through(k, i, j));
            p.lemma_put(i, j, p.through(k, i, j));
        }
    }

    /// In place or at once, relaxing gives the same matrix.
    pub proof fn lemma_relaxed_is_star(self, k: int)
        requires
            self.wf(),
            self.small(ROOM as int),
            0 <= k < self.n,
            k % 2 == 0,
            self.pair_consistent(k),
        ensures
            self.relaxed_all(k) == self.star(k),
    {
        Grid::lemma_square(self.n);
        self.lemma_relaxed(k, self.n * self.n);
        self.lemma_relaxed_upper(k, self.n * self.n);
        self.lemma_relaxed_lower(k, self.n * self.n);
        self.lemma_star(k);
        let s = self.star(k);
        let r = self.relaxed_all(k);
        assert forall|i: int, j: int| r.has(i, j) implies #[trigger] r.at(i, j) == s.at(i, j) by {
            Grid::lemma_index(self.n, i, j);
            assert(self.has(i, j));
            assert(s.at(i, j) <= r.at(i, j));
        }
        r.lemma_ext(s);
    }

    // -----------------------------------------------------------------------
    // Half-sums
    // -----------------------------------------------------------------------

    /// Taking half-sums in place leaves the self-dual cells alone and lowers
    /// each other cell to the half-sum of the input.
    pub proof fn lemma_halved_cells(self, t: int)
        requires
            self.wf(),
            self.small(3 * ROOM),
            0 <= t <= self.n * self.n,
        ensures
            self.halved(t).wf(),
            self.halved(t).n == self.n,
            forall|i: int, j: int|
                self.has(i, j) ==> #[trigger] self.halved(t).at(i, j) == (if i * self.n + j < t {
                    grid::min2(self.at(i, j), self.half_sum(i, j))
                } else {
                    self.at(i, j)
                }),
            forall|i: int|
                0 <= i < self.n ==> #[trigger] self.halved(t).at(i, arith::mirror(i)) == self.at(
                    i,
                    arith::mirror(i),
                ),
        decreases t,
    {
        if t > 0 {
            self.lemma_halved_cells(t - 1);
            let p = self.halved(t - 1);
            Grid::lemma_unindex(self.n, t - 1);
            let (a, b) = ((t - 1) / self.n, (t - 1) % self.n);
            let (ab, bb) = (arith::mirror(a), arith::mirror(b));
            assert(arith::mirror(bb) == b);
            assert(p.at(a, ab) == self.at(a, ab));
            assert(p.at(bb, arith::mirror(bb)) == self.at(bb, arith::mirror(bb)));
            assert(p.half_sum(a, b) == self.half_sum(a, b));
            assert(p.at(a, b) == self.at(a, b));
            p.lemma_cell(a, b);
            p.lemma_cell(a, ab);
            p.lemma_cell(bb, b);
            let w = grid::min2(p.at(a, b), p.half_sum(a, b));
            p.lemma_put(a, b, w);
            let h = self.halved(t);
            assert forall|i: int, j: int| self.has(i, j) implies #[trigger] h.at(i, j) == (if i
                * self.n + j < t {
                grid::min2(self.at(i, j), self.half_sum(i, j))
            } else {
                self.at(i, j)
            }) by {
                Grid::lemma_index(self.n, i, j);
                if !(i == a && j == b) {
                    assert(i * self.n + j != t - 1);
                    assert(h.at(i, j) == p.at(i, j));
                }
            }
            assert forall|i: int| 0 <= i < self.n implies #[trigger] h.at(i, arith::mirror(i))
                == self.at(i, arith::mirror(i)) by {
                self.lemma_half_self_dual(i);
                assert(self.has(i, arith::mirror(i)));
            }
        }
    }

    /// The half-sum of a self-dual cell is the cell itself.
    proof fn lemma_half_self_dual(self, i: int)
        requires
            self.small(3 * ROOM),
            0 <= i < self.n,
            self.n % 2 == 0,
        ensures
            self.half_sum(i, arith::mirror(i)) == self.at(i, arith::mirror(i)),
    {
        assert(arith::mirror(arith::mirror(i)) == i);
        assert(self.has(i, arith::mirror(i)));
        assert(fits(self.at(i, arith::mirror(i)), 3 * ROOM));
    }

    /// Half-sums keep the triangle inequality at a node and its mirror.
    pub proof fn lemma_halved_keeps(self, c: int)
        requires
            self.wf(),
            self.small(3 * ROOM),
            self.coherent(),
            self.nonnegative_diagonal(),
            0 <= c < self.n,
            self.closed_at(c),
            self.closed_at(arith::mirror(c)),
        ensures
            self.halved_all().closed_at(c),
    {
        let h = self.halved_all();
        let cb = arith::mirror(c);
        Grid::lemma_square(self.n);
        self.lemma_halved_cells(self.n * self.n);
        assert forall|i: int, j: int|
            #![trigger h.at(i, c), h.at(c, j)]
            h.has(i, c) && h.has(c, j) implies h.at(i, j) <= arith::oplus(
            h.at(i, c),
            h.at(c, j),
        ) by {
            let (ib, jb) = (arith::mirror(i), arith::mirror(j));
            Grid::lemma_index(self.n, i, j);
            Grid::lemma_index(self.n, i, c);
            Grid::lemma_index(self.n, c, j);
            assert(self.has(i, j) && self.has(i, c) && self.has(c, j));
            assert(self.has(i, ib) && self.has(jb, j) && self.has(cb, c) && self.has(c, cb));
            assert(self.has(i, cb) && self.has(c, ib) && self.has(cb, j) && self.has(jb, cb));
            assert(self.has(cb, ib) && self.has(jb, c));
            let (ii, jj, c1, c2) = (
                self.at(i, ib),
                self.at(jb, j),
                self.at(cb, c),
                self.at(c, cb),
            );
            assert(fits(ii, 3 * ROOM) && fits(jj, 3 * ROOM) && fits(c1, 3 * ROOM) && fits(
                c2,
                3 * ROOM,
            ));
            let (ij, ic, cj) = (self.at(i, j), self.at(i, c), self.at(c, j));
            assert(fits(ij, 3 * ROOM) && fits(ic, 3 * ROOM) && fits(cj, 3 * ROOM));
            // The two-edge path.
            assert(ij <= arith::oplus(ic, cj));
            // Around c: the cycle through its two nodes.
            assert(self.at(c, c) <= arith::oplus(c2, c1));
            assert(self.at(c, c) >= 0);
            // The self-dual bound of i through c.
            assert(self.at(i, cb) <= arith::oplus(ic, c2));
            assert(ii <= arith::oplus(self.at(i, cb), self.at(cb, ib)));
            assert(self.at(i, c) == self.at(cb, ib));
            assert(fits(self.at(i, cb), 3 * ROOM));
            // The self-dual bound of j through c.
            assert(self.at(jb, c) <= arith::oplus(self.at(jb, cb), c1));
            assert(jj <= arith::oplus(self.at(jb, c), cj));
            assert(self.at(c, j) == self.at(jb, cb));
            assert(fits(self.at(jb, c), 3 * ROOM));
            lemma_half_triangle(ij, ic, cj, ii, jj, c1, c2);
        }
    }

    /// Half-sums keep coherence, and bound every cell by its half-sum.
    pub proof fn lemma_halved_shape(self)
        requires
            self.wf(),
            self.small(3 * ROOM),
            self.coherent(),
        ensures
            self.halved_all().coherent(),
            self.halved_all().half_bounded(),
            self.halved_all().small(3 * ROOM),
    {
        let h = self.halved_all();
        Grid::lemma_square(self.n);
        self.lemma_halved_cells(self.n * self.n);
        assert forall|i: int, j: int| #[trigger] h.has(i, j) implies h.at(i, j) == h.at(
            arith::mirror(j),
            arith::mirror(i),
        ) && h.at(i, j) <= h.half_sum(i, j) && fits(h.at(i, j), 3 * ROOM) by {
            let (ib, jb) = (arith::mirror(i), arith::mirror(j));
            Grid::lemma_index(self.n, i, j);
            Grid::lemma_index(self.n, jb, ib);
            assert(self.has(i, j) && self.has(jb, ib) && self.has(i, ib) && self.has(jb, j));
            assert(arith::mirror(ib) == i && arith::mirror(jb) == j);
            assert(self.at(i, j) == self.at(jb, ib));
            assert(h.at(i, ib) == self.at(i, ib));
            assert(h.at(jb, arith::mirror(jb)) == self.at(jb, arith::mirror(jb)));
            assert(fits(self.at(i, ib), 3 * ROOM));
            assert(fits(self.at(jb, j), 3 * ROOM));
            assert(fits(self.at(i, j), 3 * ROOM));
        }
        assert forall|i: int, j: int| h.has(i, j) implies h.at(i, j) <= #[trigger] h.half_sum(
            i,
            j,
        ) by {}
        assert forall|i: int, j: int| h.has(i, j) implies fits(#[trigger] h.at(i, j), 3 * ROOM) by {
            assert(h.has(i, j));
        }
    }

    // -----------------------------------------------------------------------
    // A whole pass
    // -----------------------------------------------------------------------

    /// Later stages of a pass bound at least as tightly as earlier ones.
    pub proof fn lemma_pivoted_later(self, p: int, q: int)
        requires
            self.wf(),
            0 <= p <= q <= self.n / 2,
        ensures
            self.pivoted(q).below(self.pivoted(p)),
        decreases q - p,
    {
        self.lemma_pivoted(p);
        self.lemma_pivoted(q);
        if p < q {
            self.lemma_pivoted_later(p, q - 1);
            self.lemma_pivoted(q - 1);
            let g = self.pivoted(q - 1);
            Grid::lemma_square(self.n);
            g.lemma_relaxed(2 * (q - 1), self.n * self.n);
            g.relaxed_all(2 * (q - 1)).lemma_halved(self.n * self.n);
        }
    }

    /// Where a pass ends without a negative diagonal cell, no pivot pair had a
    /// negative cycle, nor a negative diagonal cell after relaxing.
    pub proof fn lemma_pass_consistent(self, p: int)
        requires
            self.wf(),
            0 <= p < self.n / 2,
            self.pivoted(p).small(ROOM as int),
            self.pass().nonnegative_diagonal(),
        ensures
            self.pivoted(p).nonnegative_diagonal(),
            self.pivoted(p).pair_consistent(2 * p),
            self.pivoted(p).relaxed_all(2 * p).nonnegative_diagonal(),
    {
        let g = self.pivoted(p);
        let k = 2 * p;
        let r = g.relaxed_all(k);
        Grid::lemma_square(self.n);
        self.lemma_pivoted(p);
        self.lemma_pivoted(p + 1);
        self.lemma_pivoted_later(p + 1, self.n / 2);
        g.lemma_relaxed(k, self.n * self.n);
        g.lemma_relaxed_upper(k, self.n * self.n);
        r.lemma_halved(self.n * self.n);
        assert forall|i: int| 0 <= i < self.n implies #[trigger] g.at(i, i) >= 0 by {
            assert(g.has(i, i) && r.has(i, i) && self.pivoted(p + 1).has(i, i) && self.pass().has(
                i,
                i,
            ));
            assert(self.pass().at(i, i) >= 0);
            assert(self.pass().at(i, i) <= self.pivoted(p + 1).at(i, i));
            assert(self.pivoted(p + 1).at(i, i) <= r.at(i, i));
            assert(r.at(i, i) <= g.at(i, i));
        }
        assert forall|i: int| 0 <= i < self.n implies #[trigger] r.at(i, i) >= 0 by {
            assert(r.has(i, i) && g.has(i, i) && self.pivoted(p + 1).has(i, i) && self.pass().has(
                i,
                i,
            ));
            assert(self.pass().at(i, i) >= 0);
            assert(self.pass().at(i, i) <= self.pivoted(p + 1).at(i, i));
            assert(self.pivoted(p + 1).at(i, i) <= r.at(i, i));
            assert(r.at(i, i) <= g.at(i, i));
        }
        assert(g.has(k, k) && g.has(k, k + 1) && g.has(k + 1, k));
        assert(g.small(ROOM as int));
        assert(fits(g.at(k, k + 1), ROOM as int) && fits(g.at(k + 1, k), ROOM as int));
        Grid::lemma_index(self.n, k, k);
        assert(r.at(k, k) <= g.through(k, k, k));
        assert(g.at(k, k) >= 0 && g.at(k + 1, k + 1) >= 0);
    }

    /// After `p` pivot pairs a coherent matrix is coherent, and closed at each
    /// node of those pairs.
    proof fn lemma_pass_stages(self, p: int)
        requires
            self.wf(),
            self.coherent(),
            self.roomy(),
            self.pass().nonnegative_diagonal(),
            0 <= p <= self.n / 2,
        ensures
            self.pivoted(p).coherent(),
            forall|c: int| 0 <= c < 2 * p ==> #[trigger] self.pivoted(p).closed_at(c),
            p > 0 ==> self.pivoted(p).half_bounded(),
        decreases p,
    {
        if p > 0 {
            self.lemma_pass_stages(p - 1);
            self.lemma_pass_consistent(p - 1);
            self.lemma_pivoted(p - 1);
            let g = self.pivoted(p - 1);
            let k = 2 * (p - 1);
            assert(g.small(ROOM as int));
            g.lemma_relaxed_is_star(k);
            g.lemma_star(k);
            g.lemma_star_pair(k);
            g.lemma_star_coherent(k);
            let s = g.star(k);
            s.lemma_halved_shape();
            assert forall|c: int| 0 <= c < 2 * p implies #[trigger] s.closed_at(c) by {
                if c < k {
                    assert(g.closed_at(c));
                    g.lemma_star_keeps(k, c);
                }
            }
            assert forall|c: int| 0 <= c < 2 * p implies #[trigger] self.pivoted(p).closed_at(
                c,
            ) by {
                assert(0 <= arith::mirror(c) < 2 * p);
                assert(s.closed_at(c) && s.closed_at(arith::mirror(c)));
                s.lemma_halved_keeps(c);
            }
        }
    }

    /// What one pass gives on a coherent matrix.
    proof fn lemma_pass_closed(self)
        requires
            self.wf(),
            self.coherent(),
            self.roomy(),
            self.pass().nonnegative_diagonal(),
        ensures
            self.pass().wf(),
            self.pass().n == self.n,
            self.pass().small(ROOM as int),
            self.pass().coherent(),
            self.pass().half_bounded(),
            forall|c: int| 0 <= c < self.n ==> #[trigger] self.pass().closed_at(c),
    {
        self.lemma_pass_stages(self.n / 2);
        self.lemma_pivoted(self.n / 2);
        assert(self.pivoted(self.n / 2).small(ROOM as int));
    }

    /// Setting the diagonal to zero completes strong closure.
    pub proof fn lemma_zeroed_closed(self)
        requires
            self.wf(),
            self.small(2 * ROOM),
            self.coherent(),
            self.half_bounded(),
            self.nonnegative_diagonal(),
            forall|c: int| 0 <= c < self.n ==> #[trigger] self.closed_at(c),
        ensures
            self.zeroed(self.n).unmarked() == self.zeroed(self.n),
            self.zeroed(self.n).strongly_closed(),
            self.zeroed(self.n).small(2 * ROOM),
    {
        let z = self.zeroed(self.n);
        self.lemma_zeroed(self.n);
        z.lemma_unmarked();
        assert forall|i: int, j: int| #[trigger] z.has(i, j) implies fits(
            z.at(i, j),
            2 * ROOM,
        ) && z.at(i, j) == z.at(arith::mirror(j), arith::mirror(i)) && z.at(i, j) <= z.half_sum(
            i,
            j,
        ) && z.unmarked().at(i, j) == z.at(i, j) by {
            let (ib, jb) = (arith::mirror(i), arith::mirror(j));
            assert(self.has(i, j) && self.has(jb, ib) && self.has(i, ib) && self.has(jb, j));
            assert(fits(self.at(i, j), 2 * ROOM));
            assert(self.at(i, j) == self.at(jb, ib));
            assert(z.at(i, ib) == self.at(i, ib) && z.at(jb, j) == self.at(jb, j));
            assert(fits(self.at(i, ib), 2 * ROOM) && fits(self.at(jb, j), 2 * ROOM));
            assert(self.at(i, j) <= self.half_sum(i, j));
            if i == j {
                assert(self.at(i, i) >= 0);
            }
        }
        assert(z.small(2 * ROOM)) by {
            assert forall|i: int, j: int| z.has(i, j) implies fits(
                #[trigger] z.at(i, j),
                2 * ROOM,
            ) by {
                assert(z.has(i, j));
            }
        }
        assert(z.half_bounded()) by {
            assert forall|i: int, j: int| z.has(i, j) implies z.at(i, j) <= #[trigger] z.half_sum(
                i,
                j,
            ) by {
                assert(z.has(i, j));
            }
        }
        assert forall|i: int, j: int| z.unmarked().has(i, j) implies #[trigger] z.unmarked().at(
            i,
            j,
        ) == z.at(i, j) by {
            assert(z.has(i, j));
        }
        assert forall|i: int, k: int, j: int|
            #![trigger z.at(i, k), z.at(k, j)]
            z.has(i, k) && z.has(k, j) implies z.at(i, j) <= arith::oplus(
            z.at(i, k),
            z.at(k, j),
        ) by {
            assert(self.has(i, k) && self.has(k, j) && self.has(i, j));
            assert(self.closed_at(k));
            assert(self.at(i, j) <= arith::oplus(self.at(i, k), self.at(k, j)));
            assert(fits(self.at(i, k), 2 * ROOM) && fits(self.at(k, j), 2 * ROOM));
            assert(fits(self.at(i, j), 2 * ROOM));
            if i == j {
                assert(self.at(i, i) >= 0);
            }
        }
        z.unmarked().lemma_ext(z);
    }

    // -----------------------------------------------------------------------
    // Integers
    // -----------------------------------------------------------------------

    /// Relaxing through a consistent pair keeps an odd cell above its half-sum.
    proof fn lemma_star_odd_cell(self, k: int, i: int, j: int)
        requires
            self.wf(),
            self.small(ROOM as int),
            0 <= k < self.n,
            k % 2 == 0,
            self.pair_consistent(k),
            self.coherent(),
            self.odd_above_half(),
            self.has(i, j),
            self.through(k, i, j) != DBM_INF,
            self.through(k, i, j) % 2 != 0,
        ensures
            half_cell(
                DBM_INF as int,
                self.through(k, i, arith::mirror(i)),
                self.through(k, arith::mirror(j), j),
            ) <= self.through(k, i, j),
    {
        let l = k + 1;
        let (ib, jb) = (arith::mirror(i), arith::mirror(j));
        self.lemma_small_pair(k, i, j);
        self.lemma_small_pair(k, i, ib);
        self.lemma_small_pair(k, jb, j);
        self.lemma_through_best(k, i, j);
        self.lemma_through_best(k, i, ib);
        self.lemma_through_best(k, jb, j);
        assert(self.has(i, k) && self.has(i, l) && self.has(k, j) && self.has(l, j));
        assert(arith::mirror(k) == l && arith::mirror(l) == k);
        let (ij, ik, kj, il, lj, kl, lk) = (
            self.at(i, j),
            self.at(i, k),
            self.at(k, j),
            self.at(i, l),
            self.at(l, j),
            self.at(k, l),
            self.at(l, k),
        );
        let (ii, jj) = (self.at(i, ib), self.at(jb, j));
        assert(ik == self.at(l, ib));
        assert(il == self.at(k, ib));
        assert(kj == self.at(jb, l));
        assert(lj == self.at(jb, k));
        self.lemma_odd_edge(i, j);
        self.lemma_odd_edge(i, k);
        self.lemma_odd_edge(i, l);
        self.lemma_odd_edge(k, j);
        self.lemma_odd_edge(l, j);
        let (si, sj) = (self.through(k, i, ib), self.through(k, jb, j));
        assert(si == best(ii, ik, il, il, ik, kl, lk));
        assert(sj == best(jj, lj, kj, kj, lj, kl, lk));
        lemma_best(ii, ik, il, il, ik, kl, lk);
        lemma_best(jj, lj, kj, kj, lj, kl, lk);
        lemma_odd_path(ij, ik, kj, il, lj, kl, lk, ii, jj, si, sj, self.through(k, i, j));
    }

    /// What an odd cell says of the two self-dual cells that belong to it.
    proof fn lemma_odd_edge(self, i: int, j: int)
        requires
            self.small(ROOM as int),
            self.n % 2 == 0,
            self.odd_above_half(),
            self.has(i, j),
        ensures
            self.at(i, j) != DBM_INF && self.at(i, j) % 2 != 0 ==> {
                &&& self.at(i, arith::mirror(i)) != DBM_INF
                &&& self.at(arith::mirror(j), j) != DBM_INF
                &&& self.at(i, arith::mirror(i)) + self.at(arith::mirror(j), j) <= 2 * self.at(
                    i,
                    j,
                )
            },
    {
        assert(self.has(i, arith::mirror(i)) && self.has(arith::mirror(j), j));
        assert(fits(self.at(i, arith::mirror(i)), ROOM as int));
        assert(fits(self.at(arith::mirror(j), j), ROOM as int));
        assert(fits(self.at(i, j), ROOM as int));
    }

    /// Relaxing through a consistent pair keeps odd cells above their
    /// half-sums.
    proof fn lemma_star_odd(self, k: int)
        requires
            self.wf(),
            self.small(ROOM as int),
            0 <= k < self.n,
            k % 2 == 0,
            self.pair_consistent(k),
            self.coherent(),
            self.odd_above_half(),
        ensures
            self.star(k).odd_above_half(),
    {
        let s = self.star(k);
        self.lemma_star(k);
        assert forall|i: int, j: int|
            s.has(i, j) && #[trigger] s.at(i, j) != DBM_INF && s.at(i, j) % 2 != 0 implies s.half_sum(
            i,
            j,
        ) <= s.at(i, j) by {
            assert(self.has(i, j) && self.has(i, arith::mirror(i)) && self.has(
                arith::mirror(j),
                j,
            ));
            assert(s.at(i, j) == self.through(k, i, j));
            self.lemma_star_odd_cell(k, i, j);
        }
    }

    /// Half-sums keep odd cells above their half-sums.
    proof fn lemma_halved_odd(self)
        requires
            self.wf(),
            self.small(3 * ROOM),
            self.odd_above_half(),
        ensures
            self.halved_all().odd_above_half(),
    {
        let h = self.halved_all();
        Grid::lemma_square(self.n);
        self.lemma_halved_cells(self.n * self.n);
        assert forall|i: int, j: int|
            h.has(i, j) && #[trigger] h.at(i, j) != DBM_INF && h.at(i, j) % 2 != 0 implies h.half_sum(
            i,
            j,
        ) <= h.at(i, j) by {
            let (ib, jb) = (arith::mirror(i), arith::mirror(j));
            Grid::lemma_index(self.n, i, j);
            assert(self.has(i, j));
            assert(arith::mirror(jb) == j);
            assert(h.at(i, ib) == self.at(i, ib));
            assert(h.at(jb, arith::mirror(jb)) == self.at(jb, arith::mirror(jb)));
        }
    }

    proof fn lemma_pass_odd(self, p: int)
        requires
            self.wf(),
            self.coherent(),
            self.roomy(),
            self.odd_above_half(),
            self.pass().nonnegative_diagonal(),
            0 <= p <= self.n / 2,
        ensures
            self.pivoted(p).odd_above_half(),
        decreases p,
    {
        if p > 0 {
            self.lemma_pass_odd(p - 1);
            self.lemma_pass_stages(p - 1);
            self.lemma_pass_consistent(p - 1);
            self.lemma_pivoted(p - 1);
            let g = self.pivoted(p - 1);
            let k = 2 * (p - 1);
            assert(g.small(ROOM as int));
            g.lemma_relaxed_is_star(k);
            g.lemma_star(k);
            g.lemma_star_odd(k);
            g.star(k).lemma_halved_odd();
        }
    }

    /// Relaxing through a consistent pair keeps the bounds of single variables
    /// even: where a path over an odd cell is odd, one of two even paths is no
    /// longer.
    #[verifier::spinoff_prover]
    #[verifier::rlimit(30)]
    proof fn lemma_star_singles(self, k: int)
        requires
            self.wf(),
            self.small(ROOM as int),
            0 <= k < self.n,
            k % 2 == 0,
            self.coherent(),
            self.odd_above_half(),
            self.singles_even(),
        ensures
            self.star(k).singles_even(),
    {
        let s = self.star(k);
        self.lemma_star(k);
        let l = k + 1;
        assert forall|i: int| 0 <= i < s.n implies #[trigger] s.at(i, arith::mirror(i)) == DBM_INF
            || s.at(i, arith::mirror(i)) % 2 == 0 by {
            let ib = arith::mirror(i);
            assert(self.has(i, ib) && self.has(i, k) && self.has(i, l));
            assert(self.has(k, ib) && self.has(l, ib));
            assert(arith::mirror(k) == l && arith::mirror(l) == k && arith::mirror(ib) == i);
            self.lemma_small_pair(k, i, ib);
            self.lemma_through_best(k, i, ib);
            let (ii, ik, il) = (self.at(i, ib), self.at(i, k), self.at(i, l));
            let (kl, lk) = (self.at(k, l), self.at(l, k));
            assert(ik == self.at(l, ib) && il == self.at(k, ib));
            self.lemma_odd_edge(i, k);
            self.lemma_odd_edge(i, l);
            assert(self.at(k, arith::mirror(k)) == DBM_INF || self.at(k, arith::mirror(k)) % 2
                == 0);
            assert(self.at(l, arith::mirror(l)) == DBM_INF || self.at(l, arith::mirror(l)) % 2
                == 0);
            lemma_single_path(ii, ik, il, kl, lk);
        }
    }

    /// A pass keeps the bounds of single variables even.
    proof fn lemma_pass_singles(self, p: int)
        requires
            self.wf(),
            self.coherent(),
            self.roomy(),
            self.odd_above_half(),
            self.singles_even(),
            self.pass().nonnegative_diagonal(),
            0 <= p <= self.n / 2,
        ensures
            self.pivoted(p).singles_even(),
        decreases p,
    {
        if p > 0 {
            self.lemma_pass_singles(p - 1);
            self.lemma_pass_odd(p - 1);
            self.lemma_pass_stages(p - 1);
            self.lemma_pass_consistent(p - 1);
            self.lemma_pivoted(p - 1);
            let g = self.pivoted(p - 1);
            let k = 2 * (p - 1);
            assert(g.small(ROOM as int));
            g.lemma_relaxed_is_star(k);
            g.lemma_star(k);
            g.lemma_star_singles(k);
            let s = g.star(k);
            Grid::lemma_square(self.n);
            s.lemma_halved_cells(self.n * self.n);
            let h = s.halved_all();
            assert forall|i: int| 0 <= i < h.n implies #[trigger] h.at(i, arith::mirror(i))
                == DBM_INF || h.at(i, arith::mirror(i)) % 2 == 0 by {
                assert(h.at(i, arith::mirror(i)) == s.at(i, arith::mirror(i)));
            }
        }
    }

    /// The tightened matrix, in terms of the rounded bounds.
    proof fn lemma_tight_start(self)
        requires
            self.wf(),
            self.small(ROOM as int),
            self.coherent(),
        ensures
            self.tightened(self.n).wf(),
            self.tightened(self.n).n == self.n,
            self.tightened(self.n).small(3 * ROOM),
            self.tightened(self.n).coherent(),
            forall|i: int|
                0 <= i < self.n ==> #[trigger] self.tightened(self.n).at(i, arith::mirror(i))
                    == rounded_bound(self.at(i, arith::mirror(i))),
            forall|i: int, j: int|
                self.has(i, j) && j != arith::mirror(i) ==> #[trigger] self.tightened(self.n).at(
                    i,
                    j,
                ) == self.at(i, j),
    {
        let t = self.tightened(self.n);
        self.lemma_tightened(self.n);
        assert forall|i: int| 0 <= i < self.n implies #[trigger] t.at(i, arith::mirror(i))
            == rounded_bound(self.at(i, arith::mirror(i))) by {
            reveal(rounded_bound);
        }
        assert forall|i: int, j: int| t.has(i, j) implies fits(#[trigger] t.at(i, j), 3 * ROOM) by {
            assert(self.has(i, j));
            assert(fits(self.at(i, j), ROOM as int));
            if j == arith::mirror(i) {
                lemma_rounded_bound(self.at(i, j));
            }
        }
        assert forall|i: int, j: int| #[trigger] t.has(i, j) implies t.at(i, j) == t.at(
            arith::mirror(j),
            arith::mirror(i),
        ) by {
            assert(self.has(i, j) && self.has(arith::mirror(j), arith::mirror(i)));
            assert(self.at(i, j) == self.at(arith::mirror(j), arith::mirror(i)));
            if j == arith::mirror(i) {
                assert(arith::mirror(j) == i);
            } else {
                assert(arith::mirror(arith::mirror(j)) == j);
            }
        }
    }

    /// Each cell after the integer round.
    proof fn lemma_tight_cells(self, i: int, j: int)
        requires
            self.wf(),
            self.small(ROOM as int),
            self.coherent(),
            self.odd_above_half(),
            self.has(i, j),
        ensures
            self.tightened(self.n).halved_all().at(i, j) == tight_cell(
                self.at(i, j),
                self.at(i, arith::mirror(i)),
                self.at(arith::mirror(j), j),
            ),
            fits(self.tightened(self.n).halved_all().at(i, j), ROOM + 4),
            self.tightened(self.n).halved_all().at(i, j) == DBM_INF || self.tightened(
                self.n,
            ).halved_all().at(i, j) % 2 == 0,
    {
        let t = self.tightened(self.n);
        let h = t.halved_all();
        let (ib, jb) = (arith::mirror(i), arith::mirror(j));
        self.lemma_tight_start();
        Grid::lemma_square(self.n);
        t.lemma_halved_cells(self.n * self.n);
        Grid::lemma_index(self.n, i, j);
        assert(self.has(i, ib) && self.has(jb, j) && t.has(i, j));
        assert(arith::mirror(jb) == j);
        assert(fits(self.at(i, j), ROOM as int));
        assert(fits(self.at(i, ib), ROOM as int));
        assert(fits(self.at(jb, j), ROOM as int));
        assert(t.at(i, ib) == rounded_bound(self.at(i, ib)));
        assert(t.at(jb, arith::mirror(jb)) == rounded_bound(self.at(jb, j)));
        assert(h.at(i, j) == grid::min2(t.at(i, j), t.half_sum(i, j)));
        if self.at(i, j) != DBM_INF && self.at(i, j) % 2 != 0 {
            assert(self.half_sum(i, j) <= self.at(i, j));
        }
        lemma_tight_cell(self.at(i, j), self.at(i, ib), self.at(jb, j), j == ib);
    }

    /// The rounded bounds of one variable do not contradict each other.
    proof fn lemma_tight_meets(self, c: int)
        requires
            self.wf(),
            self.small(ROOM as int),
            self.coherent(),
            self.tight_round().ok,
            0 <= c < self.n,
        ensures
            ({
                let (a, b) = (
                    rounded_bound(self.at(c, arith::mirror(c))),
                    rounded_bound(self.at(arith::mirror(c), c)),
                );
                a != DBM_INF && b != DBM_INF ==> a + b >= 0
            }),
    {
        let t = self.tightened(self.n);
        self.lemma_tight_start();
        let x = c / 2;
        assert(arith::oplus(t.at(2 * x, 2 * x + 1), t.at(2 * x + 1, 2 * x)) >= 0);
        assert(t.at(2 * x, arith::mirror(2 * x)) == rounded_bound(self.at(2 * x, 2 * x + 1)));
        assert(t.at(2 * x + 1, arith::mirror(2 * x + 1)) == rounded_bound(
            self.at(2 * x + 1, 2 * x),
        ));
    }

    /// The bound of a single variable by way of another one and its mirror.
    proof fn lemma_there_and_back(self, i: int, c: int)
        requires
            self.wf(),
            self.small(ROOM as int),
            self.coherent(),
            self.has(i, c),
            self.closed_at(c),
            self.closed_at(arith::mirror(c)),
        ensures
            self.at(i, c) != DBM_INF && self.at(c, arith::mirror(c)) != DBM_INF ==> self.at(
                i,
                arith::mirror(i),
            ) <= 2 * self.at(i, c) + self.at(c, arith::mirror(c)),
    {
        let (ib, cb) = (arith::mirror(i), arith::mirror(c));
        assert(self.has(i, ib) && self.has(c, cb) && self.has(i, cb) && self.has(cb, ib));
        assert(self.at(i, cb) <= arith::oplus(self.at(i, c), self.at(c, cb)));
        assert(self.at(i, ib) <= arith::oplus(self.at(i, cb), self.at(cb, ib)));
        assert(self.at(i, c) == self.at(cb, ib));
        assert(fits(self.at(i, c), ROOM as int) && fits(self.at(c, cb), ROOM as int));
        assert(fits(self.at(i, cb), ROOM as int));
    }

    /// What a closed matrix says of a path of two edges and of the single
    /// variables that belong to it.
    #[verifier::spinoff_prover]
    proof fn lemma_tight_edges(self, c: int, i: int, j: int)
        requires
            self.wf(),
            self.small(ROOM as int),
            self.coherent(),
            self.odd_above_half(),
            self.tight_round().ok,
            0 <= c < self.n,
            self.closed_at(c),
            self.closed_at(arith::mirror(c)),
            self.has(i, j),
        ensures
            two_edges(
                self.at(i, j),
                self.at(i, c),
                self.at(c, j),
                self.at(i, arith::mirror(i)),
                self.at(arith::mirror(j), j),
                self.at(arith::mirror(c), c),
                self.at(c, arith::mirror(c)),
            ),
    {
        let (ib, jb, cb) = (arith::mirror(i), arith::mirror(j), arith::mirror(c));
        assert(self.has(i, j) && self.has(i, c) && self.has(c, j));
        assert(self.has(i, ib) && self.has(jb, j) && self.has(cb, c) && self.has(c, cb));
        assert(self.at(i, j) <= arith::oplus(self.at(i, c), self.at(c, j)));
        assert(fits(self.at(i, c), ROOM as int) && fits(self.at(c, j), ROOM as int));
        self.lemma_there_and_back(i, c);
        self.lemma_there_and_back(jb, cb);
        assert(arith::mirror(jb) == j && arith::mirror(cb) == c);
        assert(self.at(c, j) == self.at(jb, cb));
        self.lemma_odd_edge(i, c);
        self.lemma_odd_edge(c, j);
        self.lemma_tight_meets(c);
        reveal(two_edges);
    }

    /// The integer round keeps the triangle inequality of one triple.
    #[verifier::spinoff_prover]
    proof fn lemma_tight_keeps_cell(self, c: int, i: int, j: int)
        requires
            self.wf(),
            self.small(ROOM as int),
            self.coherent(),
            self.odd_above_half(),
            self.tight_round().ok,
            0 <= c < self.n,
            self.closed_at(c),
            self.closed_at(arith::mirror(c)),
            self.has(i, j),
        ensures
            self.tight_round().grid.at(i, j) <= arith::oplus(
                self.tight_round().grid.at(i, c),
                self.tight_round().grid.at(c, j),
            ),
    {
        self.lemma_tight_edges(c, i, j);
        self.lemma_tight_cells(i, j);
        self.lemma_tight_cells(i, c);
        self.lemma_tight_cells(c, j);
        lemma_tight_triangle(
            self.at(i, j),
            self.at(i, c),
            self.at(c, j),
            self.at(i, arith::mirror(i)),
            self.at(arith::mirror(j), j),
            self.at(arith::mirror(c), c),
            self.at(c, arith::mirror(c)),
        );
    }

    /// The integer round keeps the triangle inequality.
    proof fn lemma_tight_keeps(self, c: int)
        requires
            self.wf(),
            self.small(ROOM as int),
            self.coherent(),
            self.odd_above_half(),
            self.tight_round().ok,
            0 <= c < self.n,
            self.closed_at(c),
            self.closed_at(arith::mirror(c)),
        ensures
            self.tight_round().grid.closed_at(c),
    {
        let h = self.tight_round().grid;
        let t = self.tightened(self.n);
        self.lemma_tight_start();
        Grid::lemma_square(self.n);
        t.lemma_halved_cells(self.n * self.n);
        assert forall|i: int, j: int|
            #![trigger h.at(i, c), h.at(c, j)]
            h.has(i, c) && h.has(c, j) implies h.at(i, j) <= arith::oplus(
            h.at(i, c),
            h.at(c, j),
        ) by {
            self.lemma_tight_keeps_cell(c, i, j);
        }
    }

    /// What the integer round gives on a closed matrix.
    pub proof fn lemma_tight_closed(self)
        requires
            self.wf(),
            self.small(ROOM as int),
            self.coherent(),
            self.nonnegative_diagonal(),
            self.odd_above_half(),
            forall|c: int| 0 <= c < self.n ==> #[trigger] self.closed_at(c),
            self.tight_round().ok,
        ensures
            self.tight_round().grid.wf(),
            self.tight_round().grid.n == self.n,
            self.tight_round().grid.small(ROOM + 4),
            self.tight_round().grid.coherent(),
            self.tight_round().grid.half_bounded(),
            self.tight_round().grid.nonnegative_diagonal(),
            self.tight_round().grid.rounded(),
            self.tight_round().grid.even(),
            forall|c: int| 0 <= c < self.n ==> #[trigger] self.tight_round().grid.closed_at(c),
    {
        let t = self.tightened(self.n);
        let h = self.tight_round().grid;
        self.lemma_tight_start();
        t.lemma_halved_shape();
        Grid::lemma_square(self.n);
        t.lemma_halved_cells(self.n * self.n);
        assert forall|i: int, j: int| h.has(i, j) implies fits(#[trigger] h.at(i, j), ROOM + 4) && (
        h.at(i, j) == DBM_INF || h.at(i, j) % 2 == 0) by {
            self.lemma_tight_cells(i, j);
        }
        assert forall|i: int| 0 <= i < h.n implies #[trigger] h.at(i, arith::mirror(i)) == DBM_INF
            || h.at(i, arith::mirror(i)) % 4 == 0 by {
            assert(h.at(i, arith::mirror(i)) == t.at(i, arith::mirror(i)));
            assert(self.has(i, arith::mirror(i)));
            lemma_rounded_bound(self.at(i, arith::mirror(i)));
        }
        assert forall|i: int| 0 <= i < h.n implies #[trigger] h.at(i, i) >= 0 by {
            assert(self.has(i, i));
            assert(self.at(i, i) >= 0);
            self.lemma_tight_cells(i, i);
            self.lemma_tight_meets(i);
            reveal(tight_cell);
        }
        assert forall|c: int| 0 <= c < self.n implies #[trigger] h.closed_at(c) by {
            assert(0 <= arith::mirror(c) < self.n);
            assert(self.closed_at(c) && self.closed_at(arith::mirror(c)));
            self.lemma_tight_keeps(c);
        }
    }

    /// Each finite bound of a single variable is even.
    pub open spec fn singles_even(self) -> bool {
        forall|i: int|
            0 <= i < self.n ==> #[trigger] self.at(i, arith::mirror(i)) == DBM_INF || self.at(
                i,
                arith::mirror(i),
            ) % 2 == 0
    }

    /// Every finite cell is even: the bounds are integers.
    pub open spec fn even(self) -> bool {
        forall|i: int, j: int|
            self.has(i, j) ==> #[trigger] self.at(i, j) == DBM_INF || self.at(i, j) % 2 == 0
    }
}

/// The least of the five paths from a node to its mirror is even.
#[verifier::spinoff_prover]
proof fn lemma_single_path(ii: int, ik: int, il: int, kl: int, lk: int)
    requires
        fits(ii, ROOM as int),
        fits(ik, ROOM as int),
        fits(il, ROOM as int),
        fits(kl, ROOM as int),
        fits(lk, ROOM as int),
        ii == DBM_INF || ii % 2 == 0,
        kl == DBM_INF || kl % 2 == 0,
        lk == DBM_INF || lk % 2 == 0,
        ik != DBM_INF && ik % 2 != 0 ==> ii != DBM_INF && lk != DBM_INF && ii + lk <= 2 * ik,
        il != DBM_INF && il % 2 != 0 ==> ii != DBM_INF && kl != DBM_INF && ii + kl <= 2 * il,
    ensures
        ({
            let r = best(ii, ik, il, il, ik, kl, lk);
            r == DBM_INF || r % 2 == 0
        }),
{
    lemma_best(ii, ik, il, il, ik, kl, lk);
    let r = best(ii, ik, il, il, ik, kl, lk);
    if r != DBM_INF && r != ii {
        if ik != DBM_INF && il != DBM_INF && r == ik + il {
            if ik % 2 != 0 && il % 2 == 0 {
                // The two even paths are no longer than this one together.
                assert(r <= ii && r <= il + lk + il);
                assert(r == ii);
            } else if ik % 2 == 0 && il % 2 != 0 {
                assert(r <= ii && r <= ik + kl + ik);
                assert(r == ii);
            }
        } else if ik != DBM_INF && kl != DBM_INF && r == ik + kl + ik {
            assert(r == kl + 2 * ik);
        } else {
            assert(r == lk + 2 * il);
        }
    }
}

/// A bound of a single variable, stored, after rounding down to an integer.
#[verifier::opaque]
pub open spec fn rounded_bound(s: int) -> int {
    if s != DBM_INF && s % 4 != 0 {
        arith::spec_floor4(s)
    } else {
        s
    }
}

/// A cell after the integer round, from the closed cell and the two bounds of
/// single variables that belong to it.
#[verifier::opaque]
spec fn tight_cell(ij: int, ii: int, jj: int) -> int {
    let (a, b) = (rounded_bound(ii), rounded_bound(jj));
    if a == DBM_INF || b == DBM_INF {
        ij
    } else {
        grid::min2(ij, (a + b) / 2)
    }
}

/// Rounding a small bound.
proof fn lemma_rounded_bound(s: int)
    requires
        fits(s, ROOM as int),
    ensures
        s == DBM_INF <==> rounded_bound(s) == DBM_INF,
        s != DBM_INF ==> rounded_bound(s) % 4 == 0 && s - 3 <= rounded_bound(s) <= s
            && rounded_bound(s) == s - s % 4,
{
    reveal(rounded_bound);
}

#[verifier::spinoff_prover]
proof fn lemma_tight_cell(ij: int, ii: int, jj: int, self_dual: bool)
    requires
        fits(ij, ROOM as int),
        fits(ii, ROOM as int),
        fits(jj, ROOM as int),
        self_dual ==> ij == ii && ij == jj,
        ij != DBM_INF && ij % 2 != 0 ==> (ii != DBM_INF && jj != DBM_INF && ii + jj <= 2 * ij),
    ensures
        ({
            let (a, b) = (rounded_bound(ii), rounded_bound(jj));
            let s = arith::oplus(a, b);
            let half = if s == DBM_INF {
                DBM_INF as int
            } else {
                (s + 1) / 2
            };
            let start = if self_dual {
                rounded_bound(ij)
            } else {
                ij
            };
            &&& tight_cell(ij, ii, jj) == grid::min2(start, half)
            &&& fits(tight_cell(ij, ii, jj), ROOM + 4)
            &&& tight_cell(ij, ii, jj) == DBM_INF || tight_cell(ij, ii, jj) % 2 == 0
        }),
{
    reveal(tight_cell);
    let (a, b) = (rounded_bound(ii), rounded_bound(jj));
    lemma_rounded_bound(ii);
    lemma_rounded_bound(jj);
    if a != DBM_INF && b != DBM_INF {
        let (p, q) = (a / 4, b / 4);
        assert(a == 4 * p && b == 4 * q);
        assert((a + b) / 2 == 2 * (p + q));
        assert((a + b + 1) / 2 == 2 * (p + q));
    }
}

/// How a path of two edges, the direct edge and the bounds of the single
/// variables of the three nodes relate.
#[verifier::opaque]
spec fn two_edges(ij: int, ic: int, cj: int, ii: int, jj: int, c1: int, c2: int) -> bool {
    &&& fits(ij, ROOM as int) && fits(ic, ROOM as int) && fits(cj, ROOM as int)
    &&& fits(ii, ROOM as int) && fits(jj, ROOM as int)
    &&& fits(c1, ROOM as int) && fits(c2, ROOM as int)
    &&& ic != DBM_INF && cj != DBM_INF ==> ij <= ic + cj
    &&& ic != DBM_INF && c2 != DBM_INF ==> ii <= 2 * ic + c2
    &&& cj != DBM_INF && c1 != DBM_INF ==> jj <= 2 * cj + c1
    &&& rounded_bound(c1) != DBM_INF && rounded_bound(c2) != DBM_INF ==> rounded_bound(c1)
        + rounded_bound(c2) >= 0
    &&& ic != DBM_INF && ic % 2 != 0 ==> ii != DBM_INF && c1 != DBM_INF && ii + c1 <= 2 * ic
    &&& cj != DBM_INF && cj % 2 != 0 ==> c2 != DBM_INF && jj != DBM_INF && c2 + jj <= 2 * cj
}

/// The triangle inequality after the integer round.
#[verifier::spinoff_prover]
proof fn lemma_tight_triangle(
    ij: int,
    ic: int,
    cj: int,
    ii: int,
    jj: int,
    c1: int,
    c2: int,
)
    requires
        two_edges(ij, ic, cj, ii, jj, c1, c2),
    ensures
        tight_cell(ij, ii, jj) <= arith::oplus(tight_cell(ic, ii, c1), tight_cell(cj, c2, jj)),
{
    let (a, b, d1, d2) = (
        rounded_bound(ii),
        rounded_bound(jj),
        rounded_bound(c1),
        rounded_bound(c2),
    );
    reveal(tight_cell);
    reveal(two_edges);
    let h = tight_cell(ij, ii, jj);
    let (x, y) = (tight_cell(ic, ii, c1), tight_cell(cj, c2, jj));
    lemma_tight_cell(ic, ii, c1, false);
    lemma_tight_cell(cj, c2, jj, false);
    lemma_rounded_bound(ii);
    lemma_rounded_bound(jj);
    lemma_rounded_bound(c1);
    lemma_rounded_bound(c2);
    if x != DBM_INF && y != DBM_INF {
        let left = a != DBM_INF && d1 != DBM_INF && x == (a + d1) / 2;
        let right = d2 != DBM_INF && b != DBM_INF && y == (d2 + b) / 2;
        if left && right {
            assert(a % 4 == 0 && b % 4 == 0 && d1 % 4 == 0 && d2 % 4 == 0);
            assert(h <= x + y);
        } else if left {
            assert(y == cj && cj % 2 == 0);
            assert(jj <= 2 * cj + c1);
            lemma_round_shift(jj, c1, cj);
            assert(b <= 2 * cj + d1);
            assert(h <= x + y);
        } else if right {
            assert(x == ic && ic % 2 == 0);
            assert(ii <= 2 * ic + c2);
            lemma_round_shift(ii, c2, ic);
            assert(a <= 2 * ic + d2);
            assert(h <= x + y);
        } else {
            assert(x == ic && y == cj);
            assert(h <= x + y);
        }
    }
}

/// Rounding down commutes with adding twice an even bound.
#[verifier::spinoff_prover]
proof fn lemma_round_shift(s: int, t: int, e: int)
    requires
        fits(s, ROOM as int),
        fits(t, ROOM as int),
        t != DBM_INF,
        e % 2 == 0,
        -ROOM - 4 <= e <= ROOM + 4,
        s <= 2 * e + t,
    ensures
        rounded_bound(s) <= 2 * e + rounded_bound(t),
        s != DBM_INF,
        rounded_bound(s) != DBM_INF,
{
    lemma_rounded_bound(s);
    lemma_rounded_bound(t);
    let (a, b, f) = (rounded_bound(s) / 4, rounded_bound(t) / 4, e / 2);
    assert(2 * e == 4 * f);
    assert(rounded_bound(s) == 4 * a && rounded_bound(t) == 4 * b);
    assert(4 * a <= 4 * f + 4 * b + 3);
    assert(a <= f + b);
}

/// The triangle inequality after taking half-sums.
#[verifier::spinoff_prover]
proof fn lemma_half_triangle(
    ij: int,
    ic: int,
    cj: int,
    ii: int,
    jj: int,
    c1: int,
    c2: int,
)
    requires
        fits(ij, 3 * ROOM),
        fits(ic, 3 * ROOM),
        fits(cj, 3 * ROOM),
        fits(ii, 3 * ROOM),
        fits(jj, 3 * ROOM),
        fits(c1, 3 * ROOM),
        fits(c2, 3 * ROOM),
        ic != DBM_INF && cj != DBM_INF ==> ij <= ic + cj,
        ic != DBM_INF && c2 != DBM_INF ==> ii <= 2 * ic + c2,
        cj != DBM_INF && c1 != DBM_INF ==> jj <= 2 * cj + c1,
        c1 != DBM_INF && c2 != DBM_INF ==> c1 + c2 >= 0,
    ensures
        half_cell(ij, ii, jj) <= arith::oplus(half_cell(ic, ii, c1), half_cell(cj, c2, jj)),
{
    let h = half_cell(ij, ii, jj);
    let (x, y) = (half_cell(ic, ii, c1), half_cell(cj, c2, jj));
    if x != DBM_INF && y != DBM_INF {
        let left = ii != DBM_INF && c1 != DBM_INF && x == (ii + c1 + 1) / 2;
        let right = c2 != DBM_INF && jj != DBM_INF && y == (c2 + jj + 1) / 2;
        if left && right {
            assert(h <= x + y);
        } else if left {
            assert(y == cj);
            assert(h <= x + y);
        } else if right {
            assert(x == ic);
            assert(h <= x + y);
        } else {
            assert(h <= x + y);
        }
    }
}

/// A cell lowered to the half-sum of two self-dual cells.
spec fn half_cell(ij: int, ii: int, jj: int) -> int {
    let s = arith::oplus(ii, jj);
    grid::min2(
        ij,
        if s == DBM_INF {
            DBM_INF as int
        } else {
            (s + 1) / 2
        },
    )
}

/// An odd path has an odd edge, whose half-sum bound carries over to the path.
#[verifier::spinoff_prover]
proof fn lemma_odd_path(
    ij: int,
    ik: int,
    kj: int,
    il: int,
    lj: int,
    kl: int,
    lk: int,
    ii: int,
    jj: int,
    si: int,
    sj: int,
    r: int,
)
    requires
        fits(ij, ROOM as int),
        fits(ik, ROOM as int),
        fits(kj, ROOM as int),
        fits(il, ROOM as int),
        fits(lj, ROOM as int),
        fits(kl, ROOM as int),
        fits(lk, ROOM as int),
        fits(ii, ROOM as int),
        fits(jj, ROOM as int),
        fits(si, 3 * ROOM),
        fits(sj, 3 * ROOM),
        r != DBM_INF,
        r % 2 != 0,
        r == best(ij, ik, kj, il, lj, kl, lk),
        si == best(ii, ik, il, il, ik, kl, lk),
        sj == best(jj, lj, kj, kj, lj, kl, lk),
        ij != DBM_INF && ij % 2 != 0 ==> ii != DBM_INF && jj != DBM_INF && ii + jj <= 2 * ij,
        ik != DBM_INF && ik % 2 != 0 ==> ii != DBM_INF && lk != DBM_INF && ii + lk <= 2 * ik,
        il != DBM_INF && il % 2 != 0 ==> ii != DBM_INF && kl != DBM_INF && ii + kl <= 2 * il,
        kj != DBM_INF && kj % 2 != 0 ==> kl != DBM_INF && jj != DBM_INF && kl + jj <= 2 * kj,
        lj != DBM_INF && lj % 2 != 0 ==> lk != DBM_INF && jj != DBM_INF && lk + jj <= 2 * lj,
        kl != DBM_INF && lk != DBM_INF ==> kl + lk >= 0,
    ensures
        half_cell(DBM_INF as int, si, sj) <= r,
{
    lemma_best(ij, ik, kj, il, lj, kl, lk);
    lemma_best(ii, ik, il, il, ik, kl, lk);
    lemma_best(jj, lj, kj, kj, lj, kl, lk);
    assert(si != DBM_INF && sj != DBM_INF && si + sj <= 2 * r) by {
        if r == ij {
            assert(si <= ii && sj <= jj);
        } else if ik != DBM_INF && kj != DBM_INF && r == ik + kj {
            if ik % 2 != 0 {
                assert(si <= ii && sj <= kj + lk + kj);
            } else {
                assert(kj % 2 != 0);
                assert(si <= ik + kl + ik && sj <= jj);
            }
        } else if il != DBM_INF && lj != DBM_INF && r == il + lj {
            if il % 2 != 0 {
                assert(si <= ii && sj <= lj + kl + lj);
            } else {
                assert(lj % 2 != 0);
                assert(si <= il + lk + il && sj <= jj);
            }
        } else if ik != DBM_INF && kl != DBM_INF && lj != DBM_INF && r == ik + kl + lj {
            if ik % 2 != 0 {
                assert(si <= ii && sj <= lj + kl + lj);
            } else if lj % 2 != 0 {
                assert(si <= ik + kl + ik && sj <= jj);
            } else {
                assert(si <= ik + kl + ik && sj <= lj + kl + lj);
            }
        } else {
            assert(r == il + lk + kj);
            if il % 2 != 0 {
                assert(si <= ii && sj <= kj + lk + kj);
            } else if kj % 2 != 0 {
                assert(si <= il + lk + il && sj <= jj);
            } else {
                assert(si <= il + lk + il && sj <= kj + lk + kj);
            }
        }
    }
}


impl Grid {
    /// Closing adds nothing up that leaves the representable range in its last
    /// round; over the integers, the odd cells that this round starts from are no
    /// tighter than what the bounds of single variables imply, or it ends in even
    /// cells.
    pub open spec fn closes_exactly(self, exact: bool) -> bool {
        let first = self.round(exact);
        if self.coherent() {
            self.roomy() && (exact ==> self.odd_above_half())
        } else if !first.ok {
            true
        } else if first.grid.coherent() {
            self.roomy() && (exact ==> first.grid.even())
        } else {
            &&& first.grid.mirrored().roomy()
            &&& exact ==> first.grid.mirrored().odd_above_half()
        }
    }

    /// One round on a coherent matrix.
    pub proof fn lemma_round_closed(self, exact: bool)
        requires
            self.wf(),
            self.coherent(),
            self.roomy(),
            exact ==> self.odd_above_half(),
            self.round(exact).ok,
            self.round(exact).grid.nonnegative_diagonal(),
        ensures
            self.round(exact).grid.wf(),
            self.round(exact).grid.n == self.n,
            self.round(exact).grid.small(2 * ROOM),
            self.round(exact).grid.coherent(),
            self.round(exact).grid.half_bounded(),
            exact ==> self.round(exact).grid.rounded() && self.round(exact).grid.even(),
            forall|c: int| 0 <= c < self.n ==> #[trigger] self.round(exact).grid.closed_at(c),
    {
        let p = self.pass();
        self.lemma_pivoted(self.n / 2);
        assert(self.pivoted(self.n / 2).small(ROOM as int));
        if exact {
            assert(p.floored()) by {
                assert forall|i: int, j: int| p.has(i, j) implies #[trigger] p.at(i, j)
                    >= DBM_FLOOR by {
                    assert(fits(p.at(i, j), ROOM as int));
                }
            }
            p.lemma_tightened(p.n);
            let t = p.tightened(p.n);
            Grid::lemma_square(self.n);
            t.lemma_halved(self.n * self.n);
            let h = t.halved_all();
            assert forall|i: int| 0 <= i < p.n implies #[trigger] p.at(i, i) >= 0 by {
                assert(h.has(i, i) && t.has(i, i) && p.has(i, i));
                assert(h.at(i, i) <= t.at(i, i));
                assert(t.at(i, i) <= p.at(i, i));
                assert(self.round(exact).grid.at(i, i) >= 0);
            }
            self.lemma_pass_closed();
            self.lemma_pass_odd(self.n / 2);
            p.lemma_tight_closed();
            let g = self.round(exact).grid;
            assert forall|i: int, j: int| g.has(i, j) implies fits(
                #[trigger] g.at(i, j),
                2 * ROOM,
            ) by {
                assert(fits(g.at(i, j), ROOM + 4));
            }
        } else {
            self.lemma_pass_closed();
            assert forall|i: int, j: int| p.has(i, j) implies fits(
                #[trigger] p.at(i, j),
                2 * ROOM,
            ) by {
                assert(fits(p.at(i, j), ROOM as int));
            }
        }
    }

    /// Where nothing is clipped, the closure is strongly closed; over the
    /// integers every bound is then an integer too.
    pub proof fn law_closing_closes(self, exact: bool)
        requires
            self.wf(),
            self.closes_exactly(exact),
            self.closed_form(exact).ok,
        ensures
            self.closed_form(exact).grid.strongly_closed(),
            self.closed_form(exact).grid.small(2 * ROOM),
            exact ==> self.closed_form(exact).grid.rounded() && self.closed_form(
                exact,
            ).grid.even(),
    {
        let r = self.rounds(exact).grid;
        self.lemma_rounds(exact);
        self.lemma_closed_form(exact);
        r.lemma_first_negative(0);
        assert(r.nonnegative_diagonal());
        let start = if self.coherent() {
            self
        } else {
            self.round(exact).grid.mirrored()
        };
        self.lemma_round(exact);
        self.round(exact).grid.lemma_mirrored();
        if self.coherent() {
            let first = self.round(exact);
            if first.grid.coherent() {
            } else {
                // The first round on a coherent matrix is coherent, whether or
                // not its diagonal is negative: the last round is the first.
                assert(self.rounds(exact) == first.grid.mirrored().round(exact));
                self.lemma_first_round_diagonal(exact);
                self.lemma_round_closed(exact);
            }
        }
        if !self.coherent() && self.round(exact).grid.coherent() {
            self.law_mirrored_end_is_closed(exact);
        } else {
            start.lemma_round_closed(exact);
        }
        r.lemma_zeroed_closed();
        if exact {
            let z = r.zeroed(r.n);
            r.lemma_zeroed(r.n);
            assert forall|i: int| 0 <= i < z.n implies #[trigger] z.at(i, arith::mirror(i))
                == DBM_INF || z.at(i, arith::mirror(i)) % 4 == 0 by {
                assert(r.has(i, arith::mirror(i)));
                assert(r.at(i, arith::mirror(i)) == DBM_INF || r.at(i, arith::mirror(i)) % 4 == 0);
            }
            assert forall|i: int, j: int| z.has(i, j) implies #[trigger] z.at(i, j) == DBM_INF
                || z.at(i, j) % 2 == 0 by {
                assert(r.has(i, j));
            }
        }
    }

    /// Strong closing keeps the bounds of single variables even.
    pub proof fn lemma_closing_singles(self)
        requires
            self.wf(),
            self.coherent(),
            self.roomy(),
            self.odd_above_half(),
            self.singles_even(),
            self.closed_form(false).ok,
        ensures
            self.closed_form(false).grid.singles_even(),
    {
        let r = self.rounds(false).grid;
        self.lemma_rounds(false);
        self.lemma_closed_form(false);
        r.lemma_first_negative(0);
        assert(r.nonnegative_diagonal());
        self.lemma_first_round_diagonal(false);
        self.lemma_pass_closed();
        assert(r == self.pass());
        self.lemma_pass_singles(self.n / 2);
        r.lemma_zeroed(r.n);
        let z = r.zeroed(r.n);
        z.lemma_unmarked();
        let c = z.unmarked();
        assert forall|i: int| 0 <= i < c.n implies #[trigger] c.at(i, arith::mirror(i)) == DBM_INF
            || c.at(i, arith::mirror(i)) % 2 == 0 by {
            assert(r.has(i, arith::mirror(i)) && z.has(i, arith::mirror(i)));
            assert(r.at(i, arith::mirror(i)) == DBM_INF || r.at(i, arith::mirror(i)) % 2 == 0);
        }
    }

    /// The diagonal of a first round is at least that of the whole.
    proof fn lemma_first_round_diagonal(self, exact: bool)
        requires
            self.wf(),
            self.coherent(),
            self.roomy(),
            self.round(exact).ok,
            self.rounds(exact).grid.nonnegative_diagonal(),
        ensures
            self.round(exact).grid.nonnegative_diagonal(),
    {
        let first = self.round(exact).grid;
        self.lemma_round(exact);
        assert(self.pivoted(0).small(ROOM as int));
        assert(self.floored()) by {
            assert forall|i: int, j: int| self.has(i, j) implies #[trigger] self.at(i, j)
                >= DBM_FLOOR by {
                assert(fits(self.at(i, j), ROOM as int));
            }
        }
        first.lemma_mirrored();
        let m = first.mirrored();
        assert(m.floored()) by {
            assert forall|i: int, j: int| m.has(i, j) implies #[trigger] m.at(i, j)
                >= DBM_FLOOR by {
                assert(first.has(i, j) && first.has(arith::mirror(j), arith::mirror(i)));
                assert(first.at(i, j) >= DBM_FLOOR);
                assert(first.at(arith::mirror(j), arith::mirror(i)) >= DBM_FLOOR);
            }
        }
        m.lemma_round(exact);
        let r = self.rounds(exact).grid;
        assert forall|i: int| 0 <= i < first.n implies #[trigger] first.at(i, i) >= 0 by {
            assert(r.has(i, i) && m.has(i, i) && first.has(i, i));
            assert(r.at(i, i) >= 0);
            if !first.coherent() {
                assert(r.at(i, i) <= m.at(i, i));
                assert(m.at(i, i) <= first.at(i, i));
            }
        }
    }

    // -----------------------------------------------------------------------
    // Solutions
    // -----------------------------------------------------------------------

    /// The bound on `node i - node j` in units of one `d`-th, where `d` is one
    /// or four.
    pub open spec fn weight(self, d: int, i: int, j: int) -> int {
        if d == 1 {
            self.at(i, j) / 2
        } else {
            2 * self.at(i, j)
        }
    }

    /// The first `x` coordinates meet every bound among them.
    pub open spec fn admits_prefix(self, v: Seq<int>, d: int, x: int) -> bool {
        &&& v.len() == x
        &&& forall|i: int, j: int|
            0 <= i < 2 * x && 0 <= j < 2 * x && #[trigger] self.at(i, j) != DBM_INF ==> grid::node(
                v,
                i,
            ) - grid::node(v, j) <= self.weight(d, i, j)
    }

    /// Weights of a strongly closed matrix add up along paths.
    pub proof fn lemma_weight_path(self, d: int, i: int, k: int, j: int)
        requires
            self.wf(),
            self.strongly_closed(),
            self.small(2 * ROOM),
            d == 1 || d == 4,
            d == 1 ==> self.even(),
            self.has(i, k),
            self.has(k, j),
            self.at(i, k) != DBM_INF,
            self.at(k, j) != DBM_INF,
        ensures
            self.at(i, j) != DBM_INF,
            self.weight(d, i, j) <= self.weight(d, i, k) + self.weight(d, k, j),
    {
        assert(self.at(i, j) <= arith::oplus(self.at(i, k), self.at(k, j)));
        assert(fits(self.at(i, k), 2 * ROOM) && fits(self.at(k, j), 2 * ROOM));
        assert(self.has(i, j));
        assert(fits(self.at(i, j), 2 * ROOM));
    }

    /// One more coordinate can be chosen.
    pub proof fn lemma_extend(self, d: int, v: Seq<int>, x: int) -> (w: Seq<int>)
        requires
            self.wf(),
            self.strongly_closed(),
            self.small(2 * ROOM),
            d == 1 || d == 4,
            d == 1 ==> self.even() && self.rounded(),
            0 <= x < self.n / 2,
            self.admits_prefix(v, d, x),
        ensures
            self.admits_prefix(w, d, x + 1),
            forall|i: int| 0 <= i < x ==> #[trigger] w[i] == v[i],
    {
        let k = 2 * x;
        let l = 2 * x + 1;
        let g = self;
        // Bound number i < 2x comes from the cells (k, i) and (i, k), bound
        // number 2x from the two self-dual cells.
        let has_hi = |i: int| if i < k { g.at(k, i) != DBM_INF } else { g.at(k, l) != DBM_INF };
        let hi = |i: int|
            if i < k { g.weight(d, k, i) + grid::node(v, i) } else { g.weight(d, k, l) / 2 };
        let has_lo = |i: int| if i < k { g.at(i, k) != DBM_INF } else { g.at(l, k) != DBM_INF };
        let lo = |i: int|
            if i < k { grid::node(v, i) - g.weight(d, i, k) } else { -(g.weight(d, l, k) / 2) };
        assert forall|a: int, b: int|
            0 <= a < k + 1 && 0 <= b < k + 1 && #[trigger] has_lo(a) && #[trigger] has_hi(b) implies lo(
            a,
        ) <= hi(b) by {
            self.lemma_bounds_meet(d, v, x, a, b);
        }
        let y = lemma_between(has_lo, lo, has_hi, hi, k + 1);
        let w = v.push(y);
        assert(has_lo(k) ==> lo(k) <= y);
        assert(has_hi(k) ==> y <= hi(k));
        assert forall|i: int, j: int|
            0 <= i < 2 * (x + 1) && 0 <= j < 2 * (x + 1) && #[trigger] self.at(i, j)
                != DBM_INF implies grid::node(w, i) - grid::node(w, j) <= self.weight(d, i, j) by {
            self.lemma_new_bound(d, v, x, y, i, j, has_lo, lo, has_hi, hi);
        }
        w
    }

    /// Every lower bound on the new coordinate is at most every upper one.
    #[verifier::spinoff_prover]
    #[verifier::rlimit(40)]
    proof fn lemma_bounds_meet(self, d: int, v: Seq<int>, x: int, a: int, b: int)
        requires
            self.wf(),
            self.strongly_closed(),
            self.small(2 * ROOM),
            d == 1 || d == 4,
            d == 1 ==> self.even() && self.rounded(),
            0 <= x < self.n / 2,
            self.admits_prefix(v, d, x),
            0 <= a <= 2 * x,
            0 <= b <= 2 * x,
            (if a < 2 * x { self.at(a, 2 * x) } else { self.at(2 * x + 1, 2 * x) }) != DBM_INF,
            (if b < 2 * x { self.at(2 * x, b) } else { self.at(2 * x, 2 * x + 1) }) != DBM_INF,
        ensures
            (if a < 2 * x {
                grid::node(v, a) - self.weight(d, a, 2 * x)
            } else {
                -(self.weight(d, 2 * x + 1, 2 * x) / 2)
            }) <= (if b < 2 * x {
                self.weight(d, 2 * x, b) + grid::node(v, b)
            } else {
                self.weight(d, 2 * x, 2 * x + 1) / 2
            }),
    {
        let k = 2 * x;
        let l = 2 * x + 1;
        assert(self.has(k, l) && self.has(l, k));
        assert(fits(self.at(k, l), 2 * ROOM) && fits(self.at(l, k), 2 * ROOM));
        assert(arith::mirror(k) == l && arith::mirror(l) == k);
        assert(d == 1 ==> self.at(k, arith::mirror(k)) == DBM_INF || self.at(k, arith::mirror(k))
            % 4 == 0);
        assert(d == 1 ==> self.at(l, arith::mirror(l)) == DBM_INF || self.at(l, arith::mirror(l))
            % 4 == 0);
        if a < k && b < k {
            assert(self.has(a, k) && self.has(k, b) && self.has(a, b));
            self.lemma_weight_path(d, a, k, b);
            assert(self.at(a, b) != DBM_INF);
        } else if a < k {
            let ab = arith::mirror(a);
            assert(self.has(a, k) && self.has(l, ab) && self.has(a, l) && self.has(a, ab));
            assert(self.at(a, k) == self.at(l, ab));
            self.lemma_weight_path(d, a, k, l);
            self.lemma_weight_path(d, a, l, ab);
            sound::lemma_node_mirror(v, a);
            assert(self.at(a, ab) != DBM_INF);
        } else if b < k {
            let bb = arith::mirror(b);
            assert(self.has(k, b) && self.has(bb, l) && self.has(bb, k) && self.has(bb, b));
            assert(self.at(k, b) == self.at(bb, l));
            self.lemma_weight_path(d, bb, l, k);
            self.lemma_weight_path(d, bb, k, b);
            sound::lemma_node_mirror(v, b);
            assert(self.at(bb, b) != DBM_INF);
        } else {
            self.lemma_weight_path(d, k, l, k);
            assert(self.at(k, k) == 0);
        }
    }

    /// A bound that involves the new coordinate is met.
    proof fn lemma_new_bound(
        self,
        d: int,
        v: Seq<int>,
        x: int,
        y: int,
        i: int,
        j: int,
        has_lo: spec_fn(int) -> bool,
        lo: spec_fn(int) -> int,
        has_hi: spec_fn(int) -> bool,
        hi: spec_fn(int) -> int,
    )
        requires
            self.wf(),
            self.strongly_closed(),
            self.small(2 * ROOM),
            d == 1 || d == 4,
            d == 1 ==> self.even() && self.rounded(),
            0 <= x < self.n / 2,
            self.admits_prefix(v, d, x),
            forall|a: int|
                0 <= a < 2 * x ==> #[trigger] has_lo(a) == (self.at(a, 2 * x) != DBM_INF) && lo(a)
                    == grid::node(v, a) - self.weight(d, a, 2 * x),
            forall|a: int|
                0 <= a < 2 * x ==> #[trigger] has_hi(a) == (self.at(2 * x, a) != DBM_INF) && hi(a)
                    == self.weight(d, 2 * x, a) + grid::node(v, a),
            self.at(2 * x + 1, 2 * x) != DBM_INF ==> -(self.weight(d, 2 * x + 1, 2 * x) / 2) <= y,
            self.at(2 * x, 2 * x + 1) != DBM_INF ==> y <= self.weight(d, 2 * x, 2 * x + 1) / 2,
            forall|a: int| 0 <= a < 2 * x && #[trigger] has_lo(a) ==> lo(a) <= y,
            forall|a: int| 0 <= a < 2 * x && #[trigger] has_hi(a) ==> y <= hi(a),
            0 <= i < 2 * (x + 1),
            0 <= j < 2 * (x + 1),
            self.at(i, j) != DBM_INF,
        ensures
            grid::node(v.push(y), i) - grid::node(v.push(y), j) <= self.weight(d, i, j),
    {
        let k = 2 * x;
        let l = 2 * x + 1;
        let w = v.push(y);
        assert(self.has(i, j));
        assert(arith::mirror(k) == l && arith::mirror(l) == k);
        assert(grid::node(w, k) == y && grid::node(w, l) == -y);
        assert(i < k ==> grid::node(w, i) == grid::node(v, i));
        assert(j < k ==> grid::node(w, j) == grid::node(v, j));
        assert(self.at(k, k) == 0 && self.at(l, l) == 0);
        if i < k && j < k {
        } else if i == j {
        } else if i == k && j == l {
        } else if i == l && j == k {
        } else if i == k {
            assert(has_hi(j));
        } else if j == k {
            assert(has_lo(i));
        } else if i == l {
            // -y - node j, by the mirrored cell: node jb - y.
            let jb = arith::mirror(j);
            assert(self.has(l, j));
            assert(self.at(l, j) == self.at(jb, k));
            assert(has_lo(jb));
            sound::lemma_node_mirror(v, j);
        } else {
            // node i + y, by the mirrored cell: y - node ib.
            let ib = arith::mirror(i);
            assert(self.has(i, l));
            assert(self.at(i, l) == self.at(k, ib));
            assert(has_hi(ib));
            sound::lemma_node_mirror(v, i);
        }
    }

    /// The first `x` coordinates of a solution.
    proof fn lemma_solve(self, d: int, x: int) -> (v: Seq<int>)
        requires
            self.wf(),
            self.strongly_closed(),
            self.small(2 * ROOM),
            d == 1 || d == 4,
            d == 1 ==> self.even() && self.rounded(),
            0 <= x <= self.n / 2,
        ensures
            self.admits_prefix(v, d, x),
        decreases x,
    {
        if x == 0 {
            Seq::empty()
        } else {
            let v = self.lemma_solve(d, x - 1);
            self.lemma_extend(d, v, x - 1)
        }
    }

    /// A strongly closed matrix has a solution in quarters, and one in
    /// integers if its bounds are in the integer normal form.
    pub proof fn law_closed_has_points(self, d: int) -> (v: Seq<int>)
        requires
            self.wf(),
            self.strongly_closed(),
            self.small(2 * ROOM),
            d == 1 || d == 4,
            d == 1 ==> self.even() && self.rounded(),
        ensures
            v.len() == self.n / 2,
            self.admits(v, d),
    {
        let v = self.lemma_solve(d, self.n / 2);
        assert forall|i: int, j: int|
            self.has(i, j) && #[trigger] self.at(i, j) != DBM_INF implies 2 * (grid::node(v, i)
            - grid::node(v, j)) <= d * self.at(i, j) by {
            assert(grid::node(v, i) - grid::node(v, j) <= self.weight(d, i, j));
            if d == 1 {
                assert(1 * self.at(i, j) == self.at(i, j));
            } else {
                assert(4 * self.at(i, j) == 2 * (2 * self.at(i, j)));
            }
        }
        v
    }

    /// Some point with coordinates in `d`-ths meets every bound.
    pub open spec fn solvable(self, d: int) -> bool {
        exists|v: Seq<int>| #[trigger] self.admits(v, d)
    }

    /// Where nothing is clipped, closing reports a contradiction exactly where
    /// the constraints have no solution: strong closing over the rationals,
    /// integer closing over the integers.
    pub proof fn law_closing_decides(self, exact: bool)
        requires
            self.wf(),
            self.no_min(),
            exact ==> self.floored(),
            self.closes_exactly(exact),
        ensures
            self.closed_form(exact).ok <==> self.solvable(
                if exact {
                    1
                } else {
                    4
                },
            ),
    {
        let d: int = if exact {
            1
        } else {
            4
        };
        if self.closed_form(exact).ok {
            self.law_closing_closes(exact);
            self.lemma_closed_form(exact);
            let v = self.closed_form(exact).grid.law_closed_has_points(d);
            self.law_closing_adds_no_points(exact, v, d);
            assert(self.admits(v, d));
        }
        if self.solvable(d) {
            let v = choose|v: Seq<int>| #[trigger] self.admits(v, d);
            self.law_closing_keeps_points(exact, v, d);
        }
    }
}

/// A number between finitely many lower and upper bounds, each lower one at
/// most each upper one.
pub proof fn lemma_between(
    has_lo: spec_fn(int) -> bool,
    lo: spec_fn(int) -> int,
    has_hi: spec_fn(int) -> bool,
    hi: spec_fn(int) -> int,
    n: int,
) -> (y: int)
    requires
        0 <= n,
        forall|a: int, b: int|
            0 <= a < n && 0 <= b < n && #[trigger] has_lo(a) && #[trigger] has_hi(b) ==> lo(a)
                <= hi(b),
    ensures
        forall|a: int| 0 <= a < n && #[trigger] has_lo(a) ==> lo(a) <= y,
        forall|a: int| 0 <= a < n && #[trigger] has_hi(a) ==> y <= hi(a),
    decreases n,
{
    if n == 0 {
        0
    } else {
        let y = lemma_between(has_lo, lo, has_hi, hi, n - 1);
        if has_lo(n - 1) && lo(n - 1) > y {
            lo(n - 1)
        } else if has_hi(n - 1) && hi(n - 1) < y {
            hi(n - 1)
        } else {
            y
        }
    }
}

} // verus!
