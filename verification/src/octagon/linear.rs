//! How far closing adds bounds up where there is a solution: no bound becomes
//! greater than those along a path that visits no node twice.
use vstd::prelude::*;
use vstd::set_lib;
use crate::octagon::arith;
use crate::octagon::arith::DBM_INF;
use crate::octagon::exact;
use crate::octagon::exact::ROOM;
use crate::octagon::grid;
use crate::octagon::grid::Grid;
use crate::octagon::points;
use crate::octagon::sound;

verus! {

/// The nodes below `m` that lie on a way from `i` to `j`.
spec fn between(u: Grid, m: int, i: int, j: int) -> Set<int> {
    Set::new(|c: int| 0 <= c < m && u.at(i, c) != DBM_INF && u.at(c, j) != DBM_INF)
}

/// A bound is at most that of a path through each of these nodes once.
#[verifier::opaque]
spec fn is_near(u: Grid, m: int, r: int, i: int, j: int) -> bool {
    u.at(i, j) != DBM_INF ==> u.at(i, j) <= (between(u, m, i, j).len() + 1) * r
}

proof fn lemma_between(u: Grid, m: int, i: int, j: int)
    requires
        0 <= m,
    ensures
        between(u, m, i, j).finite(),
        between(u, m, i, j).len() <= m,
{
    set_lib::lemma_int_range(0, m);
    set_lib::lemma_len_subset(between(u, m, i, j), set_lib::set_int_range(0, m));
}

proof fn lemma_more(a: nat, b: nat, r: int)
    requires
        a <= b,
        0 <= r,
    ensures
        (a + 1) * r <= (b + 1) * r,
{
    assert((a + 1) * r <= (b + 1) * r) by (nonlinear_arith)
        requires
            a <= b,
            0 <= r,
    ;
}

impl Grid {
    /// The ways through a pair lead on.
    proof fn lemma_ways(self, k: int, i: int, j: int)
        requires
            self.wf(),
            self.small(ROOM as int),
            0 <= k < self.n,
            k % 2 == 0,
            self.has(i, j),
        ensures
            self.star(k).at(i, j) <= self.at(i, j),
            self.at(i, k) != DBM_INF && self.at(k, j) != DBM_INF ==> self.star(k).at(i, j)
                <= self.at(i, k) + self.at(k, j) && self.star(k).at(i, j) != DBM_INF,
            self.at(i, k + 1) != DBM_INF && self.at(k + 1, j) != DBM_INF ==> self.star(k).at(i, j)
                <= self.at(i, k + 1) + self.at(k + 1, j) && self.star(k).at(i, j) != DBM_INF,
            self.at(i, k) != DBM_INF && self.at(k, k + 1) != DBM_INF && self.at(k + 1, j) != DBM_INF
                ==> self.star(k).at(i, j) <= self.at(i, k) + self.at(k, k + 1) + self.at(k + 1, j)
                && self.star(k).at(i, j) != DBM_INF,
            self.at(i, k + 1) != DBM_INF && self.at(k + 1, k) != DBM_INF && self.at(k, j) != DBM_INF
                ==> self.star(k).at(i, j) <= self.at(i, k + 1) + self.at(k + 1, k) + self.at(k, j)
                && self.star(k).at(i, j) != DBM_INF,
            self.star(k).at(i, j) != DBM_INF ==> {
                ||| self.at(i, j) != DBM_INF
                ||| self.at(i, k) != DBM_INF && self.at(k, j) != DBM_INF
                ||| self.at(i, k + 1) != DBM_INF && self.at(k + 1, j) != DBM_INF
                ||| self.at(i, k) != DBM_INF && self.at(k, k + 1) != DBM_INF && self.at(k + 1, j)
                    != DBM_INF
                ||| self.at(i, k + 1) != DBM_INF && self.at(k + 1, k) != DBM_INF && self.at(k, j)
                    != DBM_INF
            },
            exact::fits(self.star(k).at(i, j), 3 * ROOM),
    {
        let l = k + 1;
        self.lemma_star(k);
        self.lemma_small_pair(k, i, j);
        self.lemma_through_best(k, i, j);
        exact::lemma_best(
            self.at(i, j),
            self.at(i, k),
            self.at(k, j),
            self.at(i, l),
            self.at(l, j),
            self.at(k, l),
            self.at(l, k),
        );
    }

    /// Two bounds by way of one node of the pair.
    #[verifier::spinoff_prover]
    proof fn lemma_near_two(self, k: int, a: int, r: int, i: int, j: int)
        requires
            self.wf(),
            self.small(ROOM as int),
            0 <= r,
            0 <= k < self.n,
            k % 2 == 0,
            a == k || a == k + 1,
            forall|c: int| 0 <= c < k ==> #[trigger] self.closed_at(c),
            self.has(i, j),
            is_near(self, k, r, i, a),
            is_near(self, k, r, a, j),
            self.at(i, j) == DBM_INF,
            self.at(i, a) != DBM_INF,
            self.at(a, j) != DBM_INF,
        ensures
            is_near(self.star(k), k + 2, r, i, j),
    {
        let s = self.star(k);
        let (x, y, z) = (
            between(self, k, i, a),
            between(self, k, a, j),
            between(s, k + 2, i, j),
        );
        self.lemma_ways(k, i, j);
        lemma_between(self, k, i, a);
        lemma_between(self, k, a, j);
        lemma_between(s, k + 2, i, j);
        assert(x.disjoint(y)) by {
            assert forall|c: int| !(#[trigger] x.contains(c) && y.contains(c)) by {
                if x.contains(c) && y.contains(c) {
                    assert(self.closed_at(c));
                    assert(self.has(i, c) && self.has(c, j));
                    assert(self.at(i, j) <= arith::oplus(self.at(i, c), self.at(c, j)));
                    assert(exact::fits(self.at(i, c), ROOM as int));
                    assert(exact::fits(self.at(c, j), ROOM as int));
                }
            }
        }
        let w = x.union(y).insert(a);
        set_lib::lemma_set_disjoint_lens(x, y);
        assert(!x.union(y).contains(a));
        assert(w.len() == x.len() + y.len() + 1);
        assert(w.subset_of(z)) by {
            assert forall|c: int| w.contains(c) implies #[trigger] z.contains(c) by {
                assert(self.has(i, c) && self.has(c, j));
                self.lemma_ways(k, i, c);
                self.lemma_ways(k, c, j);
            }
        }
        set_lib::lemma_len_subset(w, z);
        reveal(is_near);
        assert((x.len() + 1) * r + (y.len() + 1) * r == (w.len() + 1) * r) by (nonlinear_arith)
            requires
                w.len() == x.len() + y.len() + 1,
        ;
        lemma_more(w.len(), z.len(), r);
    }

    /// Three bounds by way of both nodes of the pair.
    #[verifier::spinoff_prover]
    proof fn lemma_near_three(self, k: int, a: int, b: int, r: int, i: int, j: int)
        requires
            self.wf(),
            self.small(ROOM as int),
            0 <= r,
            0 <= k < self.n,
            k % 2 == 0,
            (a == k && b == k + 1) || (a == k + 1 && b == k),
            forall|c: int| 0 <= c < k ==> #[trigger] self.closed_at(c),
            self.has(i, j),
            is_near(self, k, r, i, a),
            is_near(self, k, r, a, b),
            is_near(self, k, r, b, j),
            self.at(i, j) == DBM_INF,
            self.at(i, b) == DBM_INF,
            self.at(a, j) == DBM_INF,
            self.at(i, a) != DBM_INF,
            self.at(a, b) != DBM_INF,
            self.at(b, j) != DBM_INF,
        ensures
            is_near(self.star(k), k + 2, r, i, j),
    {
        let s = self.star(k);
        let (x, y, w, z) = (
            between(self, k, i, a),
            between(self, k, a, b),
            between(self, k, b, j),
            between(s, k + 2, i, j),
        );
        self.lemma_ways(k, i, j);
        lemma_between(self, k, i, a);
        lemma_between(self, k, a, b);
        lemma_between(self, k, b, j);
        lemma_between(s, k + 2, i, j);
        assert forall|c: int, p: int, q: int|
            0 <= c < k && self.has(p, q) && self.at(p, q) == DBM_INF implies !(#[trigger] self.at(
            p,
            c,
        ) != DBM_INF && #[trigger] self.at(c, q) != DBM_INF) by {
            assert(self.closed_at(c));
            assert(self.has(p, c) && self.has(c, q));
            assert(self.at(p, q) <= arith::oplus(self.at(p, c), self.at(c, q)));
            assert(exact::fits(self.at(p, c), ROOM as int));
            assert(exact::fits(self.at(c, q), ROOM as int));
        }
        assert(self.has(i, b) && self.has(a, j));
        assert(x.disjoint(y));
        assert(x.union(y).disjoint(w));
        let all = x.union(y).union(w).insert(a).insert(b);
        set_lib::lemma_set_disjoint_lens(x, y);
        set_lib::lemma_set_disjoint_lens(x.union(y), w);
        assert(!x.union(y).union(w).contains(a));
        assert(!x.union(y).union(w).insert(a).contains(b));
        assert(all.len() == x.len() + y.len() + w.len() + 2);
        assert(all.subset_of(z)) by {
            assert forall|c: int| all.contains(c) implies #[trigger] z.contains(c) by {
                assert(self.has(i, c) && self.has(c, j));
                self.lemma_ways(k, i, c);
                self.lemma_ways(k, c, j);
            }
        }
        set_lib::lemma_len_subset(all, z);
        reveal(is_near);
        assert((x.len() + 1) * r + (y.len() + 1) * r + (w.len() + 1) * r == (all.len() + 1) * r)
            by (nonlinear_arith)
            requires
                all.len() == x.len() + y.len() + w.len() + 2,
        ;
        lemma_more(all.len(), z.len(), r);
    }

    /// Relaxing through a pair keeps bounds near.
    proof fn lemma_near_star(self, k: int, r: int, i: int, j: int)
        requires
            self.wf(),
            self.small(ROOM as int),
            0 <= r,
            0 <= k < self.n,
            k % 2 == 0,
            forall|c: int| 0 <= c < k ==> #[trigger] self.closed_at(c),
            self.has(i, j),
            forall|a: int, b: int| self.has(a, b) ==> #[trigger] is_near(self, k, r, a, b),
        ensures
            is_near(self.star(k), k + 2, r, i, j),
    {
        let l = k + 1;
        let s = self.star(k);
        self.lemma_ways(k, i, j);
        assert(self.has(i, k) && self.has(k, j) && self.has(i, l) && self.has(l, j));
        assert(self.has(k, l) && self.has(l, k));
        assert(is_near(self, k, r, i, j) && is_near(self, k, r, i, k) && is_near(self, k, r, k, j));
        assert(is_near(self, k, r, i, l) && is_near(self, k, r, l, j));
        assert(is_near(self, k, r, k, l) && is_near(self, k, r, l, k));
        if self.at(i, j) != DBM_INF {
            let (x, z) = (between(self, k, i, j), between(s, k + 2, i, j));
            lemma_between(self, k, i, j);
            lemma_between(s, k + 2, i, j);
            assert(x.subset_of(z)) by {
                assert forall|c: int| x.contains(c) implies #[trigger] z.contains(c) by {
                    assert(self.has(i, c) && self.has(c, j));
                    self.lemma_ways(k, i, c);
                    self.lemma_ways(k, c, j);
                    self.lemma_cell(i, c);
                    self.lemma_cell(c, j);
                }
            }
            set_lib::lemma_len_subset(x, z);
            reveal(is_near);
            lemma_more(x.len(), z.len(), r);
        } else if self.at(i, k) != DBM_INF && self.at(k, j) != DBM_INF {
            self.lemma_near_two(k, k, r, i, j);
        } else if self.at(i, l) != DBM_INF && self.at(l, j) != DBM_INF {
            self.lemma_near_two(k, l, r, i, j);
        } else if self.at(i, k) != DBM_INF && self.at(k, l) != DBM_INF && self.at(l, j) != DBM_INF {
            self.lemma_near_three(k, k, l, r, i, j);
        } else if self.at(i, l) != DBM_INF && self.at(l, k) != DBM_INF && self.at(k, j) != DBM_INF {
            self.lemma_near_three(k, l, k, r, i, j);
        } else {
            reveal(is_near);
        }
    }
}

// ---------------------------------------------------------------------------
// With and without half-sums
// ---------------------------------------------------------------------------

/// A magnitude that no bound exceeds while a matrix with bounds of at most `r`
/// is closed, where it has a solution.
pub open spec fn reach(n: int, r: int) -> int {
    (n + 1) * (r + 1)
}

/// A bound of one matrix comes from a bound of the other, or from two bounds of
/// single variables.
spec fn comes_from(g: Grid, u: Grid, i: int, j: int) -> bool {
    g.at(i, j) != DBM_INF ==> u.at(i, j) != DBM_INF || (u.at(i, arith::mirror(i)) != DBM_INF
        && u.at(arith::mirror(j), j) != DBM_INF)
}

impl Grid {
    /// The matrix after the first `p` pivot pairs without half-sums.
    spec fn unhalved(self, p: int) -> Grid
        decreases p,
    {
        if p <= 0 {
            self
        } else {
            self.unhalved(p - 1).star(2 * (p - 1))
        }
    }

    /// A way of two edges through one node of the pair.
    #[verifier::spinoff_prover]
    proof fn lemma_from_two(self, u: Grid, k: int, a: int, i: int, j: int)
        requires
            self.wf(),
            self.small(ROOM as int),
            u.wf(),
            u.n == self.n,
            u.small(ROOM as int),
            u.coherent(),
            0 <= k < self.n,
            k % 2 == 0,
            a == k || a == k + 1,
            self.has(i, j),
            comes_from(self, u, i, a),
            comes_from(self, u, a, j),
            self.at(i, a) != DBM_INF,
            self.at(a, j) != DBM_INF,
        ensures
            comes_from(self.star(k), u.star(k), i, j),
    {
        let (ib, jb, ab) = (arith::mirror(i), arith::mirror(j), arith::mirror(a));
        assert(arith::mirror(ib) == i && arith::mirror(jb) == j && arith::mirror(ab) == a);
        assert(u.has(i, a) && u.has(a, j) && u.has(i, j) && u.has(i, ib) && u.has(jb, j));
        u.lemma_ways(k, i, j);
        u.lemma_ways(k, i, ib);
        u.lemma_ways(k, jb, j);
        u.lemma_cell(i, ib);
        u.lemma_cell(jb, j);
        assert(u.at(i, a) == u.at(ab, ib));
        assert(u.at(a, j) == u.at(jb, ab));
    }

    /// A way of three edges through the pair.
    #[verifier::spinoff_prover]
    proof fn lemma_from_three(self, u: Grid, k: int, a: int, i: int, j: int)
        requires
            self.wf(),
            self.small(ROOM as int),
            u.wf(),
            u.n == self.n,
            u.small(ROOM as int),
            u.coherent(),
            0 <= k < self.n,
            k % 2 == 0,
            a == k || a == k + 1,
            self.has(i, j),
            comes_from(self, u, i, a),
            comes_from(self, u, a, arith::mirror(a)),
            comes_from(self, u, arith::mirror(a), j),
            self.at(i, a) != DBM_INF,
            self.at(a, arith::mirror(a)) != DBM_INF,
            self.at(arith::mirror(a), j) != DBM_INF,
        ensures
            comes_from(self.star(k), u.star(k), i, j),
    {
        let (ib, jb, b) = (arith::mirror(i), arith::mirror(j), arith::mirror(a));
        assert(arith::mirror(ib) == i && arith::mirror(jb) == j && arith::mirror(b) == a);
        assert(u.has(i, a) && u.has(b, j) && u.has(i, j) && u.has(i, ib) && u.has(jb, j));
        u.lemma_ways(k, i, ib);
        u.lemma_ways(k, jb, j);
        u.lemma_cell(i, ib);
        u.lemma_cell(jb, j);
        assert(u.at(i, a) == u.at(b, ib));
        assert(u.at(b, j) == u.at(jb, a));
    }

    /// Relaxing through a pair keeps where bounds come from, and which are lower.
    proof fn lemma_from_star(self, u: Grid, k: int, i: int, j: int)
        requires
            self.wf(),
            self.small(ROOM as int),
            u.wf(),
            u.n == self.n,
            u.small(ROOM as int),
            u.coherent(),
            self.below(u),
            0 <= k < self.n,
            k % 2 == 0,
            self.has(i, j),
            forall|a: int, b: int| self.has(a, b) ==> #[trigger] comes_from(self, u, a, b),
        ensures
            comes_from(self.star(k), u.star(k), i, j),
            self.star(k).at(i, j) <= u.star(k).at(i, j),
    {
        let l = k + 1;
        let (ib, jb) = (arith::mirror(i), arith::mirror(j));
        assert(arith::mirror(k) == l && arith::mirror(l) == k);
        assert(self.has(i, k) && self.has(k, j) && self.has(i, l) && self.has(l, j));
        assert(self.has(k, l) && self.has(l, k));
        assert(comes_from(self, u, i, j) && comes_from(self, u, i, k) && comes_from(self, u, k, j));
        assert(comes_from(self, u, i, l) && comes_from(self, u, l, j));
        assert(comes_from(self, u, k, l) && comes_from(self, u, l, k));
        self.lemma_ways(k, i, j);
        if self.at(i, j) != DBM_INF {
            assert(u.has(i, j) && u.has(i, ib) && u.has(jb, j));
            u.lemma_ways(k, i, j);
            u.lemma_ways(k, i, ib);
            u.lemma_ways(k, jb, j);
            u.lemma_cell(i, j);
            u.lemma_cell(i, ib);
            u.lemma_cell(jb, j);
        } else if self.at(i, k) != DBM_INF && self.at(k, j) != DBM_INF {
            self.lemma_from_two(u, k, k, i, j);
        } else if self.at(i, l) != DBM_INF && self.at(l, j) != DBM_INF {
            self.lemma_from_two(u, k, l, i, j);
        } else if self.at(i, k) != DBM_INF && self.at(k, l) != DBM_INF && self.at(l, j) != DBM_INF {
            self.lemma_from_three(u, k, k, i, j);
        } else if self.at(i, l) != DBM_INF && self.at(l, k) != DBM_INF && self.at(k, j) != DBM_INF {
            self.lemma_from_three(u, k, l, i, j);
        }
        self.lemma_star_mono(u, k, i, j);
    }

    /// Lower bounds relax to lower ones.
    pub proof fn lemma_star_mono(self, u: Grid, k: int, i: int, j: int)
        requires
            self.wf(),
            self.small(ROOM as int),
            u.wf(),
            u.n == self.n,
            u.small(ROOM as int),
            self.below(u),
            0 <= k < self.n,
            k % 2 == 0,
            self.has(i, j),
        ensures
            self.star(k).at(i, j) <= u.star(k).at(i, j),
    {
        self.lemma_star(k);
        u.lemma_star(k);
        assert(self.star(k).at(i, j) == self.through(k, i, j));
        assert(u.has(i, j));
        assert(u.star(k).at(i, j) == u.through(k, i, j));
        self.lemma_through_mono(u, k, i, j);
    }

    /// Lower bounds give lower paths.
    pub proof fn lemma_through_mono(self, u: Grid, k: int, i: int, j: int)
        requires
            self.wf(),
            u.wf(),
            u.n == self.n,
            self.below(u),
            0 <= k < self.n,
            k % 2 == 0,
            self.has(i, j),
        ensures
            self.through(k, i, j) <= u.through(k, i, j),
    {
        let l = arith::mirror(k);
        u.lemma_cell(i, j);
        u.lemma_cell(i, k);
        u.lemma_cell(k, j);
        u.lemma_cell(i, l);
        u.lemma_cell(l, j);
        u.lemma_cell(k, l);
        u.lemma_cell(l, k);
        assert(self.has(i, k) && self.has(k, j) && self.has(i, l) && self.has(l, j));
        assert(self.has(k, l) && self.has(l, k));
        sound::lemma_oplus_mono(self.at(i, k), self.at(k, j), u.at(i, k), u.at(k, j));
        sound::lemma_oplus_mono(self.at(i, l), self.at(l, j), u.at(i, l), u.at(l, j));
        sound::lemma_oplus_mono(self.at(i, k), self.at(k, l), u.at(i, k), u.at(k, l));
        sound::lemma_oplus_mono(self.at(i, l), self.at(l, k), u.at(i, l), u.at(l, k));
        sound::lemma_oplus_mono(
            arith::oplus(self.at(i, k), self.at(k, l)),
            self.at(l, j),
            arith::oplus(u.at(i, k), u.at(k, l)),
            u.at(l, j),
        );
        sound::lemma_oplus_mono(
            arith::oplus(self.at(i, l), self.at(l, k)),
            self.at(k, j),
            arith::oplus(u.at(i, l), u.at(l, k)),
            u.at(k, j),
        );
    }

    // -----------------------------------------------------------------------
    // The stages of a pass
    // -----------------------------------------------------------------------

    /// What holds after `p` pivot pairs where there is a solution close by.
    #[verifier::opaque]
    spec fn is_stage(self, p: int, r: int) -> bool {
        let x = self.pivoted(p);
        let u = self.unhalved(p);
        &&& x.wf() && x.n == self.n && x.coherent()
        &&& x.small(reach(self.n, r))
        &&& u.wf() && u.n == self.n && u.coherent()
        &&& u.small(reach(self.n, r))
        &&& forall|c: int| 0 <= c < 2 * p ==> #[trigger] u.closed_at(c)
        &&& forall|i: int, j: int| u.has(i, j) ==> #[trigger] is_near(u, 2 * p, r, i, j)
        &&& x.below(u)
        &&& forall|i: int, j: int| x.has(i, j) ==> #[trigger] comes_from(x, u, i, j)
    }

    /// A cell of a matrix that admits a close point is not low.
    proof fn lemma_not_low(self, r: int, w: Seq<int>, i: int, j: int)
        requires
            self.n >= 0,
            self.n % 2 == 0,
            self.admits(w, 4),
            w.len() == self.n / 2,
            0 <= r,
            forall|x: int|
                0 <= x < w.len() ==> points::magnitude(#[trigger] w[x]) <= (self.n / 2) * (2 * r
                    + 1),
            self.has(i, j),
        ensures
            self.at(i, j) != DBM_INF ==> -reach(self.n, r) <= self.at(i, j),
    {
        if self.at(i, j) != DBM_INF {
            let m = (self.n / 2) * (2 * r + 1);
            let (x, y) = (i / 2, j / 2);
            assert(points::magnitude(w[x]) <= m && points::magnitude(w[y]) <= m);
            assert(2 * (grid::node(w, i) - grid::node(w, j)) <= 4 * self.at(i, j));
            let h = self.n / 2;
            assert(self.n == 2 * h);
            assert(m <= (2 * h + 1) * (r + 1)) by (nonlinear_arith)
                requires
                    m == h * (2 * r + 1),
                    0 <= h,
                    0 <= r,
            ;
        }
    }

    /// A matrix that admits a point has no negative cycle through a pair.
    pub proof fn lemma_point_consistent(self, w: Seq<int>, k: int)
        requires
            self.admits(w, 4),
            0 <= k,
            k + 1 < self.n,
        ensures
            self.pair_consistent(k),
    {
        assert(self.has(k, k) && self.has(k + 1, k + 1));
        assert(self.has(k, k + 1) && self.has(k + 1, k));
        assert(self.at(k, k) != DBM_INF ==> 2 * (grid::node(w, k) - grid::node(w, k)) <= 4
            * self.at(k, k));
        assert(self.at(k + 1, k + 1) != DBM_INF ==> 2 * (grid::node(w, k + 1) - grid::node(
            w,
            k + 1,
        )) <= 4 * self.at(k + 1, k + 1));
        assert(self.at(k, k + 1) != DBM_INF ==> 2 * (grid::node(w, k) - grid::node(w, k + 1)) <= 4
            * self.at(k, k + 1));
        assert(self.at(k + 1, k) != DBM_INF ==> 2 * (grid::node(w, k + 1) - grid::node(w, k)) <= 4
            * self.at(k + 1, k));
    }
}

impl Grid {
    /// The matrix without half-sums after one more pair.
    #[verifier::spinoff_prover]
    proof fn lemma_unhalved_step(self, g: Grid, k: int, r: int)
        requires
            self.wf(),
            self.coherent(),
            self.small(ROOM as int),
            0 <= r,
            0 <= k < self.n,
            k % 2 == 0,
            forall|c: int| 0 <= c < k ==> #[trigger] self.closed_at(c),
            forall|i: int, j: int| self.has(i, j) ==> #[trigger] is_near(self, k, r, i, j),
            g.below(self),
            g.wf(),
            g.pair_consistent(k),
        ensures
            self.star(k).wf(),
            self.star(k).n == self.n,
            self.star(k).coherent(),
            forall|c: int| 0 <= c < k + 2 ==> #[trigger] self.star(k).closed_at(c),
            forall|i: int, j: int|
                self.has(i, j) ==> #[trigger] is_near(self.star(k), k + 2, r, i, j),
            forall|i: int, j: int|
                self.has(i, j) && #[trigger] self.star(k).at(i, j) != DBM_INF ==> self.star(k).at(
                    i,
                    j,
                ) <= reach(self.n, r),
    {
        let s = self.star(k);
        let l = k + 1;
        assert(g.has(k, k) && g.has(l, l) && g.has(k, l) && g.has(l, k));
        self.lemma_cell(k, l);
        self.lemma_cell(l, k);
        assert(self.pair_consistent(k));
        self.lemma_star(k);
        self.lemma_star_pair(k);
        self.lemma_star_coherent(k);
        assert forall|c: int| 0 <= c < k + 2 implies #[trigger] s.closed_at(c) by {
            if c < k {
                assert(self.closed_at(c));
                self.lemma_star_keeps(k, c);
            }
        }
        assert forall|i: int, j: int| self.has(i, j) implies #[trigger] is_near(
            s,
            k + 2,
            r,
            i,
            j,
        ) by {
            self.lemma_near_star(k, r, i, j);
        }
        assert forall|i: int, j: int|
            self.has(i, j) && #[trigger] s.at(i, j) != DBM_INF implies s.at(i, j) <= reach(
            self.n,
            r,
        ) by {
            assert(is_near(s, k + 2, r, i, j));
            reveal(is_near);
            lemma_between(s, k + 2, i, j);
            let b = between(s, k + 2, i, j).len() as int;
            let n = self.n;
            assert((b + 1) * r <= (n + 1) * (r + 1)) by (nonlinear_arith)
                requires
                    0 <= b <= n,
                    0 <= r,
            ;
        }
    }

    /// Half-sums keep a stage in reach.
    #[verifier::spinoff_prover]
    proof fn lemma_halved_stage(self, v: Grid, r: int, w: Seq<int>, i: int, j: int)
        requires
            self.wf(),
            self.small(3 * ROOM),
            self.coherent(),
            v.n == self.n,
            v.wf(),
            0 <= r,
            forall|a: int, b: int|
                self.has(a, b) ==> #[trigger] self.at(a, b) <= v.at(a, b) && comes_from(
                    self,
                    v,
                    a,
                    b,
                ),
            forall|a: int, b: int|
                self.has(a, b) && #[trigger] v.at(a, b) != DBM_INF ==> v.at(a, b) <= reach(
                    self.n,
                    r,
                ),
            self.halved_all().admits(w, 4),
            w.len() == self.n / 2,
            forall|x: int|
                0 <= x < w.len() ==> points::magnitude(#[trigger] w[x]) <= (self.n / 2) * (2 * r
                    + 1),
            self.has(i, j),
        ensures
            self.halved_all().at(i, j) <= v.at(i, j),
            comes_from(self.halved_all(), v, i, j),
            exact::fits(self.halved_all().at(i, j), reach(self.n, r)),
    {
        let n = self.n;
        let h = self.halved_all();
        let (ib, jb) = (arith::mirror(i), arith::mirror(j));
        assert(arith::mirror(ib) == i && arith::mirror(jb) == j);
        Grid::lemma_square(n);
        self.lemma_halved_cells(n * n);
        Grid::lemma_index(n, i, j);
        assert(self.has(i, j) && self.has(i, ib) && self.has(jb, j));
        assert(h.at(i, j) == grid::min2(self.at(i, j), self.half_sum(i, j)));
        assert(self.at(i, j) <= v.at(i, j));
        assert(self.at(i, ib) <= v.at(i, ib));
        assert(self.at(jb, j) <= v.at(jb, j));
        assert(exact::fits(self.at(i, ib), 3 * ROOM));
        assert(exact::fits(self.at(jb, j), 3 * ROOM));
        assert(exact::fits(self.at(i, j), 3 * ROOM));
        h.lemma_not_low(r, w, i, j);
        v.lemma_cell(i, j);
        v.lemma_cell(i, ib);
        v.lemma_cell(jb, j);
        let top = reach(n, r);
        assert(v.at(i, j) != DBM_INF ==> v.at(i, j) <= top);
        assert(v.at(i, ib) != DBM_INF ==> v.at(i, ib) <= top);
        assert(v.at(jb, j) != DBM_INF ==> v.at(jb, j) <= top);
    }

    /// One more pair.
    #[verifier::spinoff_prover]
    proof fn lemma_stage_step(self, p: int, r: int, w: Seq<int>)
        requires
            self.wf(),
            0 <= r,
            reach(self.n, r) <= ROOM,
            0 < p <= self.n / 2,
            self.is_stage(p - 1, r),
            self.admits(w, 4),
            w.len() == self.n / 2,
            forall|x: int|
                0 <= x < w.len() ==> points::magnitude(#[trigger] w[x]) <= (self.n / 2) * (2 * r
                    + 1),
        ensures
            self.is_stage(p, r),
            self.pivoted(p).half_bounded(),
    {
        reveal(Grid::is_stage);
        let n = self.n;
        let k = 2 * (p - 1);
        let top = reach(n, r);
        let (x, u) = (self.pivoted(p - 1), self.unhalved(p - 1));
        x.lemma_smaller(top);
        u.lemma_smaller(top);
        self.lemma_pivoted_admits(p - 1, w, 4);
        self.lemma_pivoted_admits(p, w, 4);
        x.lemma_point_consistent(w, k);
        x.lemma_relaxed_is_star(k);
        x.lemma_star(k);
        x.lemma_star_coherent(k);
        let s = x.star(k);
        s.lemma_halved_shape();
        Grid::lemma_square(n);
        s.lemma_halved_cells(n * n);
        let h = s.halved_all();
        assert(h == self.pivoted(p));
        u.lemma_unhalved_step(x, k, r);
        let v = u.star(k);
        assert(v == self.unhalved(p));
        assert forall|i: int, j: int| x.has(i, j) implies #[trigger] s.at(i, j) <= v.at(i, j)
            && comes_from(s, v, i, j) by {
            x.lemma_from_star(u, k, i, j);
        }
        assert forall|i: int, j: int| h.has(i, j) implies #[trigger] h.at(i, j) <= v.at(i, j)
            && comes_from(h, v, i, j) && exact::fits(h.at(i, j), top) by {
            s.lemma_halved_stage(v, r, w, i, j);
        }
        assert forall|i: int, j: int| v.has(i, j) implies exact::fits(#[trigger] v.at(i, j), top) by {
            assert(h.has(i, j));
            assert(h.at(i, j) <= v.at(i, j));
            assert(exact::fits(h.at(i, j), top));
            v.lemma_cell(i, j);
        }
        assert forall|i: int, j: int| h.has(i, j) implies #[trigger] comes_from(h, v, i, j) by {
            assert(h.at(i, j) <= v.at(i, j));
        }
        assert(h.small(top));
        assert(v.small(top));
        assert(h.below(v));
        assert forall|c: int| 0 <= c < 2 * p implies #[trigger] v.closed_at(c) by {
            assert(0 <= c < k + 2);
        }
        assert forall|i: int, j: int| v.has(i, j) implies #[trigger] is_near(v, 2 * p, r, i, j) by {
            assert(is_near(v, k + 2, r, i, j));
        }
    }

    /// A smaller magnitude is a small one.
    pub proof fn lemma_smaller(self, r: int)
        requires
            self.small(r),
            r <= ROOM,
        ensures
            self.small(ROOM as int),
    {
        assert forall|i: int, j: int| self.has(i, j) implies exact::fits(
            #[trigger] self.at(i, j),
            ROOM as int,
        ) by {
            assert(exact::fits(self.at(i, j), r));
        }
    }

    /// Every stage of a pass stays in reach.
    proof fn lemma_stages(self, p: int, r: int, w: Seq<int>)
        requires
            self.wf(),
            self.coherent(),
            self.small(r),
            0 <= r,
            reach(self.n, r) <= ROOM,
            0 <= p <= self.n / 2,
            self.admits(w, 4),
            w.len() == self.n / 2,
            forall|x: int|
                0 <= x < w.len() ==> points::magnitude(#[trigger] w[x]) <= (self.n / 2) * (2 * r
                    + 1),
        ensures
            self.is_stage(p, r),
        decreases p,
    {
        if p > 0 {
            self.lemma_stages(p - 1, r, w);
            self.lemma_stage_step(p, r, w);
        } else {
            reveal(Grid::is_stage);
            let n = self.n;
            assert(r <= reach(n, r)) by (nonlinear_arith)
                requires
                    0 <= n,
                    0 <= r,
                    reach(n, r) == (n + 1) * (r + 1),
            ;
            assert forall|i: int, j: int| self.has(i, j) implies exact::fits(
                #[trigger] self.at(i, j),
                reach(n, r),
            ) && is_near(self, 0, r, i, j) && comes_from(self, self, i, j) by {
                assert(exact::fits(self.at(i, j), r));
                reveal(is_near);
                lemma_between(self, 0, i, j);
                let b = between(self, 0, i, j).len();
                assert(b == 0);
                assert((0 + 1) * r == r) by (nonlinear_arith);
            }
            assert forall|i: int, j: int| self.has(i, j) implies #[trigger] is_near(
                self,
                0,
                r,
                i,
                j,
            ) by {
                assert(exact::fits(self.at(i, j), reach(n, r)));
            }
            assert forall|i: int, j: int| self.has(i, j) implies #[trigger] comes_from(
                self,
                self,
                i,
                j,
            ) by {}
        }
    }

    /// Where bounds that mirror each other have a solution, closing adds nothing
    /// up that leaves the representable range as long as the bounds, times the
    /// number of nodes, do not.
    pub proof fn law_solvable_is_roomy(self, r: int)
        requires
            self.wf(),
            self.coherent(),
            self.small(r),
            0 <= r,
            reach(self.n, r) <= ROOM,
            self.solvable(4),
        ensures
            self.roomy(),
            forall|p: int|
                0 <= p <= self.n / 2 ==> (#[trigger] self.pivoted(p)).small(reach(self.n, r)),
    {
        let v = choose|v: Seq<int>| #[trigger] self.admits(v, 4);
        let m = (self.n / 2) as nat;
        let t = Seq::new(m, |x: int| v[x]);
        self.lemma_same_point(v, t);
        let w = self.law_solutions_lie_close(t, r);
        assert forall|p: int| 0 <= p <= self.n / 2 implies (#[trigger] self.pivoted(p)).small(
            reach(self.n, r),
        ) && self.pivoted(p).small(ROOM as int) by {
            self.lemma_stages(p, r, w);
            reveal(Grid::is_stage);
            self.pivoted(p).lemma_smaller(reach(self.n, r));
        }
    }

    /// Only the coordinates of the variables count.
    pub proof fn lemma_same_point(self, v: Seq<int>, t: Seq<int>)
        requires
            self.n % 2 == 0,
            self.admits(v, 4),
            forall|x: int| 0 <= x < self.n / 2 ==> #[trigger] t[x] == v[x],
        ensures
            self.admits(t, 4),
    {
        assert forall|i: int, j: int|
            self.has(i, j) && #[trigger] self.at(i, j) != DBM_INF implies 2 * (grid::node(t, i)
            - grid::node(t, j)) <= 4 * self.at(i, j) by {
            assert(t[i / 2] == v[i / 2] && t[j / 2] == v[j / 2]);
        }
    }
}

} // verus!
