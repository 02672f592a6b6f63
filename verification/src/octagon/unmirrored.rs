//! Closing bounds that do not mirror each other: where the first pass ends in
//! bounds that do, they are closed.
use vstd::prelude::*;
use crate::octagon::arith;
use crate::octagon::arith::DBM_INF;
use crate::octagon::exact;
use crate::octagon::exact::ROOM;
use crate::octagon::grid;
use crate::octagon::grid::Grid;

verus! {

// ---------------------------------------------------------------------------
// Bounds of any size
// ---------------------------------------------------------------------------

/// Whether one bound is at least as tight as another; `None` is no bound.
pub open spec fn at_most(a: Option<int>, b: Option<int>) -> bool {
    b is Some ==> a is Some && a->0 <= b->0
}

/// The bound along two edges.
pub open spec fn joined(a: Option<int>, b: Option<int>) -> Option<int> {
    if a is Some && b is Some {
        Some(a->0 + b->0)
    } else {
        None
    }
}

/// The tighter one of two bounds.
pub open spec fn lesser(a: Option<int>, b: Option<int>) -> Option<int> {
    if at_most(a, b) {
        a
    } else {
        b
    }
}

/// A matrix of bounds of any size.
pub struct Wide {
    pub n: int,
    pub cells: spec_fn(int, int) -> Option<int>,
}

/// The bounds of a matrix.
pub open spec fn as_wide(g: Grid) -> Wide {
    Wide {
        n: g.n,
        cells: |i: int, j: int|
            if g.at(i, j) == DBM_INF {
                None
            } else {
                Some(g.at(i, j))
            },
    }
}

impl Wide {
    pub open spec fn at(self, i: int, j: int) -> Option<int> {
        (self.cells)(i, j)
    }

    pub open spec fn has(self, i: int, j: int) -> bool {
        0 <= i < self.n && 0 <= j < self.n
    }

    /// Each bound is at least as tight as in the other.
    pub open spec fn below(self, other: Wide) -> bool {
        &&& self.n == other.n
        &&& forall|i: int, j: int|
            self.has(i, j) ==> at_most(#[trigger] self.at(i, j), other.at(i, j))
    }

    /// The triangle inequality at the middle node `c`.
    #[verifier::opaque]
    pub open spec fn closed_at(self, c: int) -> bool {
        forall|i: int, j: int|
            #![trigger self.at(i, c), self.at(c, j)]
            self.has(i, j) ==> at_most(self.at(i, j), joined(self.at(i, c), self.at(c, j)))
    }

    proof fn lemma_triangle(self, i: int, c: int, j: int)
        requires
            self.closed_at(c),
            self.has(i, j),
        ensures
            at_most(self.at(i, j), joined(self.at(i, c), self.at(c, j))),
    {
        reveal(Wide::closed_at);
    }

    /// No diagonal cell is negative.
    pub open spec fn nonnegative_diagonal(self) -> bool {
        forall|i: int|
            0 <= i < self.n && (#[trigger] self.at(i, i)) is Some ==> self.at(i, i)->0 >= 0
    }

    /// Each bound, or the one through the node `k`.
    pub open spec fn relaxed(self, k: int) -> Wide {
        Wide {
            n: self.n,
            cells: |i: int, j: int|
                lesser(self.at(i, j), joined(self.at(i, k), self.at(k, j))),
        }
    }

    /// The tightest bounds along paths whose inner nodes lie from `lo` to below
    /// `hi`.
    pub open spec fn paths(self, lo: int, hi: int) -> Wide
        decreases hi - lo,
    {
        if hi <= lo {
            self
        } else {
            self.paths(lo, hi - 1).relaxed(hi - 1)
        }
    }

    proof fn lemma_relaxed(self, k: int)
        requires
            0 <= k < self.n,
            self.relaxed(k).nonnegative_diagonal(),
        ensures
            self.relaxed(k).below(self),
            self.relaxed(k).closed_at(k),
            self.nonnegative_diagonal(),
    {
        reveal(Wide::closed_at);
        let r = self.relaxed(k);
        assert forall|i: int| 0 <= i < self.n && (#[trigger] self.at(i, i)) is Some implies self.at(
            i,
            i,
        )->0 >= 0 by {
            assert(r.at(i, i) is Some);
        }
        assert forall|i: int, j: int|
            #![trigger r.at(i, k), r.at(k, j)]
            r.has(i, j) implies at_most(r.at(i, j), joined(r.at(i, k), r.at(k, j))) by {
            assert(self.at(k, k) is Some ==> self.at(k, k)->0 >= 0);
        }
    }

    proof fn lemma_relaxed_keeps(self, k: int, c: int)
        requires
            0 <= k < self.n,
            0 <= c < self.n,
            self.nonnegative_diagonal(),
            self.closed_at(c),
        ensures
            self.relaxed(k).closed_at(c),
    {
        reveal(Wide::closed_at);
        let r = self.relaxed(k);
        assert forall|i: int, j: int|
            #![trigger r.at(i, c), r.at(c, j)]
            r.has(i, j) implies at_most(r.at(i, j), joined(r.at(i, c), r.at(c, j))) by {
            assert(at_most(self.at(i, j), joined(self.at(i, c), self.at(c, j))));
            assert(at_most(self.at(k, j), joined(self.at(k, c), self.at(c, j))));
            assert(at_most(self.at(i, k), joined(self.at(i, c), self.at(c, k))));
            assert(at_most(self.at(k, k), joined(self.at(k, c), self.at(c, k))));
            assert(self.at(k, k) is Some ==> self.at(k, k)->0 >= 0);
        }
    }

    /// Paths close a matrix at their inner nodes and keep it closed elsewhere.
    proof fn lemma_paths(self, lo: int, hi: int)
        requires
            0 <= lo <= hi <= self.n,
            self.paths(lo, hi).nonnegative_diagonal(),
        ensures
            self.paths(lo, hi).n == self.n,
            self.paths(lo, hi).below(self),
            forall|c: int|
                0 <= c < self.n && (lo <= c < hi || self.closed_at(c)) ==> (
                #[trigger] self.paths(lo, hi).closed_at(c)),
        decreases hi - lo,
    {
        if lo < hi {
            let w = self.paths(lo, hi - 1);
            self.lemma_paths_size(lo, hi - 1);
            w.lemma_relaxed(hi - 1);
            self.lemma_paths(lo, hi - 1);
            let t = self.paths(lo, hi);
            assert(t == w.relaxed(hi - 1));
            assert forall|i: int, j: int| t.has(i, j) implies at_most(
                #[trigger] t.at(i, j),
                self.at(i, j),
            ) by {
                assert(at_most(w.at(i, j), self.at(i, j)));
            }
            assert forall|c: int|
                0 <= c < self.n && (lo <= c < hi || self.closed_at(c)) implies (
            #[trigger] t.closed_at(c)) by {
                if c != hi - 1 {
                    assert(w.closed_at(c));
                    w.lemma_relaxed_keeps(hi - 1, c);
                }
            }
        }
    }

    proof fn lemma_paths_size(self, lo: int, hi: int)
        ensures
            self.paths(lo, hi).n == self.n,
        decreases hi - lo,
    {
        if lo < hi {
            self.lemma_paths_size(lo, hi - 1);
        }
    }

    /// What is closed at a node stays below a matrix that is relaxed through it.
    proof fn lemma_below_relaxed(self, other: Wide, k: int)
        requires
            0 <= k < self.n,
            self.below(other),
            self.closed_at(k),
        ensures
            self.below(other.relaxed(k)),
    {
        let r = other.relaxed(k);
        assert forall|i: int, j: int| self.has(i, j) implies at_most(
            #[trigger] self.at(i, j),
            r.at(i, j),
        ) by {
            assert(self.has(i, k) && self.has(k, j));
            assert(at_most(self.at(i, k), other.at(i, k)));
            assert(at_most(self.at(k, j), other.at(k, j)));
            self.lemma_triangle(i, k, j);
        }
    }
}

impl Grid {
    /// A small matrix is closed at a node where its bounds are.
    proof fn lemma_wide_closed(self, c: int)
        requires
            self.wf(),
            self.small(3 * ROOM),
            0 <= c < self.n,
        ensures
            self.closed_at(c) <==> as_wide(self).closed_at(c),
    {
        reveal(Wide::closed_at);
        let w = as_wide(self);
        if self.closed_at(c) {
            assert forall|i: int, j: int|
                #![trigger w.at(i, c), w.at(c, j)]
                w.has(i, j) implies at_most(w.at(i, j), joined(w.at(i, c), w.at(c, j))) by {
                assert(self.has(i, c) && self.has(c, j));
                assert(exact::fits(self.at(i, c), 3 * ROOM));
                assert(exact::fits(self.at(c, j), 3 * ROOM));
                assert(self.at(i, j) <= arith::oplus(self.at(i, c), self.at(c, j)));
            }
        }
        if w.closed_at(c) {
            assert forall|i: int, j: int|
                #![trigger self.at(i, c), self.at(c, j)]
                self.has(i, c) && self.has(c, j) implies self.at(i, j) <= arith::oplus(
                self.at(i, c),
                self.at(c, j),
            ) by {
                assert(exact::fits(self.at(i, c), 3 * ROOM));
                assert(exact::fits(self.at(c, j), 3 * ROOM));
                assert(w.has(i, j));
                assert(at_most(w.at(i, j), joined(w.at(i, c), w.at(c, j))));
                self.lemma_cell(i, j);
            }
        }
    }

    proof fn lemma_wide_below(self, other: Grid)
        requires
            self.wf(),
            other.wf(),
            self.below(other),
        ensures
            as_wide(self).below(as_wide(other)),
    {
        let (w, v) = (as_wide(self), as_wide(other));
        assert forall|i: int, j: int| w.has(i, j) implies at_most(
            #[trigger] w.at(i, j),
            v.at(i, j),
        ) by {
            assert(self.has(i, j));
            assert(self.at(i, j) <= other.at(i, j));
            other.lemma_cell(i, j);
        }
    }
}

// ---------------------------------------------------------------------------
// The stages after a pivot pair
// ---------------------------------------------------------------------------

impl Grid {
    /// The matrix after relaxing the pivot pair `p` and before its half-sums.
    pub open spec fn opened(self, p: int) -> Grid {
        self.pivoted(p).relaxed_all(2 * p)
    }

    /// What the later pivot pairs make of it without half-sums.
    pub open spec fn traced(self, p: int, s: int) -> Wide {
        as_wide(self.opened(p)).paths(2 * p + 2, 2 * s)
    }

    proof fn lemma_opened(self, p: int)
        requires
            self.wf(),
            self.roomy(),
            self.pass().nonnegative_diagonal(),
            0 <= p < self.n / 2,
        ensures
            self.opened(p).wf(),
            self.opened(p).n == self.n,
            self.opened(p).small(3 * ROOM),
            self.opened(p) == self.pivoted(p).star(2 * p),
            self.opened(p).below(self.pivoted(p)),
            self.opened(p).closed_at(2 * p),
            self.opened(p).closed_at(2 * p + 1),
            self.pivoted(p + 1) == self.opened(p).halved_all(),
            self.pivoted(p + 1).below(self.opened(p)),
            self.pivoted(p + 1).wf(),
            self.pivoted(p).wf(),
            self.pivoted(p).n == self.n,
            self.pivoted(p).small(ROOM as int),
    {
        let g = self.pivoted(p);
        self.lemma_pivoted(p);
        self.lemma_pivoted(p + 1);
        self.lemma_pass_consistent(p);
        assert(g.small(ROOM as int));
        g.lemma_star(2 * p);
        g.lemma_star_pair(2 * p);
        g.lemma_relaxed_is_star(2 * p);
        Grid::lemma_square(self.n);
        self.opened(p).lemma_halved(self.n * self.n);
    }

    /// The stages stay below the paths.
    proof fn lemma_traced(self, p: int, s: int)
        requires
            self.wf(),
            self.roomy(),
            self.pass().nonnegative_diagonal(),
            0 <= p < s <= self.n / 2,
        ensures
            as_wide(self.pivoted(s)).below(self.traced(p, s)),
        decreases s,
    {
        self.lemma_opened(p);
        if s == p + 1 {
            self.pivoted(s).lemma_wide_below(self.opened(p));
        } else {
            let k = 2 * (s - 1);
            self.lemma_traced(p, s - 1);
            self.lemma_opened(s - 1);
            let o = self.opened(s - 1);
            let t = self.traced(p, s - 1);
            o.lemma_wide_below(self.pivoted(s - 1));
            o.lemma_wide_closed(k);
            o.lemma_wide_closed(k + 1);
            lemma_below_chain(as_wide(o), as_wide(self.pivoted(s - 1)), t);
            as_wide(o).lemma_below_relaxed(t, k);
            as_wide(o).lemma_below_relaxed(t.relaxed(k), k + 1);
            let w = as_wide(self.opened(p));
            assert(w.paths(2 * p + 2, k) == t);
            assert(w.paths(2 * p + 2, k + 1) == t.relaxed(k));
            assert(w.paths(2 * p + 2, k + 2) == t.relaxed(k).relaxed(k + 1));
            self.pivoted(s).lemma_wide_below(o);
            lemma_below_chain(as_wide(self.pivoted(s)), as_wide(o), self.traced(p, s));
        }
    }
}

proof fn lemma_below_chain(a: Wide, b: Wide, c: Wide)
    requires
        a.below(b),
        b.below(c),
    ensures
        a.below(c),
{
    assert forall|i: int, j: int| a.has(i, j) implies at_most(#[trigger] a.at(i, j), c.at(i, j)) by {
        assert(b.has(i, j));
        assert(at_most(b.at(i, j), c.at(i, j)));
    }
}

// ---------------------------------------------------------------------------
// What the stages cannot fall below
// ---------------------------------------------------------------------------

/// Bounds on single variables, by node: one for the paths that start at the node,
/// one for those that end at its mirror.
pub struct Singles {
    pub from: spec_fn(int) -> Option<int>,
    pub to: spec_fn(int) -> Option<int>,
}

impl Singles {
    pub open spec fn out(self, i: int) -> Option<int> {
        (self.from)(i)
    }

    pub open spec fn back(self, i: int) -> Option<int> {
        (self.to)(i)
    }

    /// The two bounds are at most one apart.
    pub open spec fn level(self, i: int) -> bool {
        &&& self.out(i) is Some <==> self.back(i) is Some
        &&& self.out(i) is Some ==> -1 <= self.out(i)->0 - self.back(i)->0 <= 1
    }
}

/// Twice a bound.
pub open spec fn twice(a: Option<int>) -> Option<int> {
    joined(a, a)
}

/// The paths between a node and `q` keep to the bounds on single variables.
pub open spec fn leads(t: Wide, u: Singles, i: int, q: int) -> bool {
    &&& at_most(u.out(i), joined(twice(t.at(i, q)), u.out(q)))
    &&& at_most(
        u.back(i),
        joined(twice(t.at(q, arith::mirror(i))), u.back(arith::mirror(q))),
    )
}

/// The path from a node to its mirror does, too.
pub open spec fn holds(t: Wide, u: Singles, i: int) -> bool {
    &&& u.level(i)
    &&& at_most(u.out(i), t.at(i, arith::mirror(i)))
    &&& at_most(u.back(i), t.at(i, arith::mirror(i)))
}

/// The bounds on a variable leave it a value.
pub open spec fn spans(u: Singles, q: int) -> bool {
    at_most(Some(0), joined(u.out(q), u.back(arith::mirror(q))))
}

/// Bounds on single variables that go with the paths through the nodes from `lo`.
#[verifier::opaque]
pub open spec fn suits(t: Wide, u: Singles, lo: int) -> bool {
    &&& forall|i: int| 0 <= i < t.n ==> #[trigger] holds(t, u, i)
    &&& forall|i: int, q: int| 0 <= i < t.n && lo <= q < t.n ==> #[trigger] leads(t, u, i, q)
    &&& forall|q: int| lo <= q < t.n ==> #[trigger] spans(u, q)
}

proof fn lemma_suits(t: Wide, u: Singles, lo: int, i: int, q: int)
    requires
        suits(t, u, lo),
        t.has(i, q),
    ensures
        holds(t, u, i),
        lo <= q ==> leads(t, u, i, q),
        lo <= q ==> spans(u, q),
{
    reveal(suits);
}

/// `x` is no tighter than the path from `i` to `j`, or than the half-sum of the
/// bounds on the two variables.
pub open spec fn over(t: Wide, u: Singles, i: int, j: int, x: int) -> bool {
    ||| at_most(t.at(i, j), Some(x))
    ||| at_most(joined(u.out(i), u.back(arith::mirror(j))), Some(2 * x))
}

pub open spec fn all_over(t: Wide, u: Singles, g: Grid) -> bool {
    forall|i: int, j: int|
        g.has(i, j) && g.at(i, j) != DBM_INF ==> over(t, u, i, j, #[trigger] g.at(i, j))
}

proof fn lemma_over_joined(
    t: Wide,
    u: Singles,
    lo: int,
    i: int,
    q: int,
    j: int,
    x: int,
    y: int,
)
    requires
        suits(t, u, lo),
        t.closed_at(q),
        t.n % 2 == 0,
        lo % 2 == 0,
        0 <= i < t.n,
        0 <= j < t.n,
        0 <= lo <= q < t.n,
        over(t, u, i, q, x),
        over(t, u, q, j, y),
    ensures
        over(t, u, i, j, x + y),
{
    let jb = arith::mirror(j);
    assert(arith::mirror(jb) == j);
    assert(0 <= jb < t.n);
    lemma_suits(t, u, lo, i, q);
    lemma_suits(t, u, lo, jb, q);
    t.lemma_triangle(i, q, j);
}

impl Grid {
    /// Half-sums do not fall below.
    proof fn lemma_halved_over(self, t: Wide, u: Singles, lo: int)
        requires
            self.wf(),
            self.small(3 * ROOM),
            t.n == self.n,
            suits(t, u, lo),
            all_over(t, u, self),
        ensures
            all_over(t, u, self.halved_all()),
    {
        let h = self.halved_all();
        Grid::lemma_square(self.n);
        self.lemma_halved_cells(self.n * self.n);
        assert forall|i: int, j: int| h.has(i, j) && h.at(i, j) != DBM_INF implies over(
            t,
            u,
            i,
            j,
            #[trigger] h.at(i, j),
        ) by {
            let (ib, jb) = (arith::mirror(i), arith::mirror(j));
            assert(arith::mirror(ib) == i && arith::mirror(jb) == j);
            Grid::lemma_index(self.n, i, j);
            assert(self.has(i, j) && self.has(i, ib) && self.has(jb, j));
            assert(h.at(i, j) == grid::min2(self.at(i, j), self.half_sum(i, j)));
            if h.at(i, j) == self.at(i, j) {
                assert(over(t, u, i, j, self.at(i, j)));
            } else {
                let (a, b) = (self.at(i, ib), self.at(jb, j));
                assert(exact::fits(a, 3 * ROOM) && exact::fits(b, 3 * ROOM));
                assert(a != DBM_INF && b != DBM_INF);
                assert(over(t, u, i, ib, a));
                assert(over(t, u, jb, j, b));
                lemma_suits(t, u, lo, i, i);
                lemma_suits(t, u, lo, jb, jb);
                assert(at_most(u.out(i), Some(a)));
                assert(at_most(u.back(jb), Some(b)));
                assert(2 * h.at(i, j) >= a + b);
            }
        }
    }

    /// Neither does relaxing a later pair.
    proof fn lemma_star_over(self, t: Wide, u: Singles, lo: int, k: int)
        requires
            self.wf(),
            self.small(ROOM as int),
            t.n == self.n,
            suits(t, u, lo),
            all_over(t, u, self),
            lo % 2 == 0,
            0 <= lo <= k < self.n,
            k % 2 == 0,
            t.closed_at(k),
            t.closed_at(k + 1),
        ensures
            all_over(t, u, self.star(k)),
    {
        let s = self.star(k);
        self.lemma_star(k);
        assert forall|i: int, j: int| s.has(i, j) && s.at(i, j) != DBM_INF implies over(
            t,
            u,
            i,
            j,
            #[trigger] s.at(i, j),
        ) by {
            assert(self.has(i, j));
            assert(s.at(i, j) == self.through(k, i, j));
            self.lemma_through_best(k, i, j);
            self.lemma_small_pair(k, i, j);
            self.lemma_over_pair(t, u, lo, k, i, j);
        }
    }

    proof fn lemma_over_pair(self, t: Wide, u: Singles, lo: int, k: int, i: int, j: int)
        requires
            self.wf(),
            self.small(ROOM as int),
            t.n == self.n,
            suits(t, u, lo),
            all_over(t, u, self),
            lo % 2 == 0,
            0 <= lo <= k < self.n,
            k % 2 == 0,
            t.closed_at(k),
            t.closed_at(k + 1),
            self.has(i, j),
            self.through(k, i, j) != DBM_INF,
        ensures
            over(t, u, i, j, self.through(k, i, j)),
    {
        let l = k + 1;
        let (ij, ik, kj) = (self.at(i, j), self.at(i, k), self.at(k, j));
        let (il, lj, kl, lk) = (self.at(i, l), self.at(l, j), self.at(k, l), self.at(l, k));
        let r = self.through(k, i, j);
        self.lemma_through_best(k, i, j);
        self.lemma_small_pair(k, i, j);
        exact::lemma_best(ij, ik, kj, il, lj, kl, lk);
        assert(self.has(i, k) && self.has(k, j) && self.has(i, l) && self.has(l, j));
        assert(self.has(k, l) && self.has(l, k));
        if r == ij {
        } else if ik != DBM_INF && kj != DBM_INF && r == ik + kj {
            lemma_over_joined(t, u, lo, i, k, j, ik, kj);
        } else if il != DBM_INF && lj != DBM_INF && r == il + lj {
            lemma_over_joined(t, u, lo, i, l, j, il, lj);
        } else if ik != DBM_INF && kl != DBM_INF && lj != DBM_INF && r == ik + kl + lj {
            lemma_over_joined(t, u, lo, i, k, l, ik, kl);
            lemma_over_joined(t, u, lo, i, l, j, ik + kl, lj);
        } else {
            lemma_over_joined(t, u, lo, i, l, k, il, lk);
            lemma_over_joined(t, u, lo, i, k, j, il + lk, kj);
        }
    }

    /// No later stage falls below.
    proof fn lemma_stages_over(self, p: int, s: int, t: Wide, u: Singles)
        requires
            self.wf(),
            self.roomy(),
            self.pass().nonnegative_diagonal(),
            0 <= p < s <= self.n / 2,
            t.below(as_wide(self.opened(p))),
            forall|q: int| 2 * p + 2 <= q < self.n ==> #[trigger] t.closed_at(q),
            suits(t, u, 2 * p + 2),
        ensures
            all_over(t, u, self.pivoted(s)),
        decreases s,
    {
        self.lemma_opened(p);
        self.lemma_opened(s - 1);
        let o = self.opened(s - 1);
        assert(t.n == self.n);
        if s == p + 1 {
            let w = as_wide(o);
            assert forall|i: int, j: int| o.has(i, j) && o.at(i, j) != DBM_INF implies over(
                t,
                u,
                i,
                j,
                #[trigger] o.at(i, j),
            ) by {
                assert(at_most(t.at(i, j), w.at(i, j)));
            }
        } else {
            self.lemma_stages_over(p, s - 1, t, u);
            let k = 2 * (s - 1);
            assert(t.closed_at(k) && t.closed_at(k + 1));
            self.pivoted(s - 1).lemma_star_over(t, u, 2 * p + 2, k);
        }
        o.lemma_halved_over(t, u, 2 * p + 2);
    }
}

// ---------------------------------------------------------------------------
// One more pivot pair
// ---------------------------------------------------------------------------

/// Each cell is at most its half-sum, rounded up.
pub open spec fn halves(m: Wide, i: int, j: int) -> bool {
    let s = joined(m.at(i, arith::mirror(i)), m.at(arith::mirror(j), j));
    s is Some ==> m.at(i, j) is Some && 2 * m.at(i, j)->0 <= s->0 + 1
}

/// The bound on a single variable, by node.
pub open spec fn single(m: Wide, i: int) -> Option<int> {
    m.at(i, arith::mirror(i))
}

/// The bounds on single variables of a matrix.
pub open spec fn singles(m: Wide) -> Singles {
    Singles { from: |i: int| single(m, i), to: |i: int| single(m, i) }
}

/// `m` mirrors itself and is closed from the node `lo` on; the paths `t` above it
/// are closed from the pair before that on.
#[verifier::opaque]
pub open spec fn is_setting(m: Wide, t: Wide, lo: int) -> bool {
    &&& m.below(t)
    &&& m.n % 2 == 0
    &&& lo % 2 == 0
    &&& 2 <= lo <= m.n
    &&& forall|i: int, j: int|
        m.has(i, j) ==> #[trigger] m.at(i, j) == m.at(arith::mirror(j), arith::mirror(i))
    &&& forall|i: int, j: int| m.has(i, j) ==> #[trigger] halves(m, i, j)
    &&& forall|i: int| 0 <= i < m.n ==> at_most(Some(0), #[trigger] m.at(i, i))
    &&& forall|q: int| lo <= q < m.n ==> #[trigger] m.closed_at(q)
    &&& forall|q: int| lo - 2 <= q < m.n ==> #[trigger] t.closed_at(q)
}

/// What a setting says of two nodes.
proof fn lemma_setting(m: Wide, t: Wide, lo: int, i: int, j: int)
    requires
        is_setting(m, t, lo),
        m.has(i, j),
    ensures
        t.n == m.n,
        m.n % 2 == 0,
        lo % 2 == 0,
        2 <= lo <= m.n,
        at_most(m.at(i, j), t.at(i, j)),
        m.at(i, j) == m.at(arith::mirror(j), arith::mirror(i)),
        halves(m, i, j),
        at_most(Some(0), m.at(i, i)),
        at_most(Some(0), t.at(i, i)),
        lo <= j ==> m.closed_at(j),
        lo - 2 <= j ==> t.closed_at(j),
{
    reveal(is_setting);
    assert(m.has(i, i));
    assert(at_most(m.at(i, i), t.at(i, i)));
}

proof fn lemma_single_leads(m: Wide, t: Wide, lo: int, i: int, q: int)
    requires
        is_setting(m, t, lo),
        0 <= i < m.n,
        0 <= lo <= q < m.n,
    ensures
        leads(t, singles(m), i, q),
{
    let (ib, qb) = (arith::mirror(i), arith::mirror(q));
    lemma_setting(m, t, lo, i, q);
    assert(arith::mirror(ib) == i && arith::mirror(qb) == q);
    lemma_setting(m, t, lo, q, ib);
    lemma_setting(m, t, lo, i, qb);
    assert(m.at(i, q) == m.at(qb, ib));
    assert(m.at(q, ib) == m.at(i, qb));
    // Through `q` and its mirror, and the other way round.
    m.lemma_triangle(q, qb, ib);
    m.lemma_triangle(i, q, ib);
    m.lemma_triangle(qb, q, ib);
    m.lemma_triangle(i, qb, ib);
}

/// The bounds on single variables of `m` go with the paths.
proof fn lemma_singles_suit(m: Wide, t: Wide, lo: int)
    requires
        is_setting(m, t, lo),
        m.n > 0,
    ensures
        t.n == m.n,
        suits(t, singles(m), lo),
{
    reveal(suits);
    let u = singles(m);
    lemma_setting(m, t, lo, 0, 0);
    assert forall|i: int| 0 <= i < t.n implies #[trigger] holds(t, u, i) by {
        lemma_setting(m, t, lo, i, arith::mirror(i));
    }
    assert forall|i: int, q: int| 0 <= i < t.n && lo <= q < t.n implies #[trigger] leads(
        t,
        u,
        i,
        q,
    ) by {
        lemma_single_leads(m, t, lo, i, q);
    }
    assert forall|q: int| lo <= q < t.n implies #[trigger] spans(u, q) by {
        let qb = arith::mirror(q);
        assert(arith::mirror(qb) == q);
        lemma_setting(m, t, lo, q, qb);
        m.lemma_triangle(q, qb, q);
    }
}

/// The bounds on single variables of `m`, but for one.
pub open spec fn changed(m: Wide, e: int, v: Option<int>, w: Option<int>) -> Singles {
    Singles {
        from: |i: int|
            if i == e {
                v
            } else {
                single(m, i)
            },
        to: |i: int|
            if i == e {
                w
            } else {
                single(m, i)
            },
    }
}

/// What the bounds on a single variable may be changed to.
pub open spec fn is_change(m: Wide, t: Wide, lo: int, e: int, v: Option<int>, w: Option<int>) -> bool {
    &&& v is Some <==> w is Some
    &&& v is Some ==> -1 <= v->0 - w->0 <= 1
    &&& at_most(v, t.at(e, arith::mirror(e)))
    &&& at_most(w, t.at(e, arith::mirror(e)))
    &&& forall|q: int|
        lo <= q < t.n ==> at_most(v, joined(twice(#[trigger] t.at(e, q)), single(m, q)))
    &&& forall|q: int|
        lo <= q < t.n ==> at_most(
            w,
            joined(
                twice(#[trigger] t.at(q, arith::mirror(e))),
                single(m, arith::mirror(q)),
            ),
        )
}

proof fn lemma_changed_suits(
    m: Wide,
    t: Wide,
    lo: int,
    e: int,
    v: Option<int>,
    w: Option<int>,
)
    requires
        suits(t, singles(m), lo),
        lo % 2 == 0,
        0 <= e < lo,
        t.n % 2 == 0,
        is_change(m, t, lo, e, v, w),
    ensures
        suits(t, changed(m, e, v, w), lo),
{
    reveal(suits);
    let u = singles(m);
    let c = changed(m, e, v, w);
    assert forall|i: int| 0 <= i < t.n implies #[trigger] holds(t, c, i) by {
        assert(holds(t, u, i));
    }
    assert forall|i: int, q: int| 0 <= i < t.n && lo <= q < t.n implies #[trigger] leads(
        t,
        c,
        i,
        q,
    ) by {
        assert(leads(t, u, i, q));
        assert(arith::mirror(q) >= lo);
        assert(c.out(q) == single(m, q));
        assert(c.back(arith::mirror(q)) == single(m, arith::mirror(q)));
        if i == e {
            assert(at_most(v, joined(twice(t.at(e, q)), single(m, q))));
            assert(at_most(
                w,
                joined(twice(t.at(q, arith::mirror(e))), single(m, arith::mirror(q))),
            ));
        }
    }
    assert forall|q: int| lo <= q < t.n implies #[trigger] spans(c, q) by {
        assert(arith::mirror(q) >= lo);
        assert(spans(u, q));
    }
}

/// There is a path from `c` to `j` and one from their mirrors back, neither over
/// `x`.
pub open spec fn is_path(t: Wide, c: int, j: int, x: int) -> bool {
    &&& at_most(t.at(c, j), Some(x))
    &&& at_most(t.at(arith::mirror(j), arith::mirror(c)), Some(x))
}

/// The bound on the variable of `j`, less twice `x`.
pub open spec fn reduced(m: Wide, j: int, x: int) -> Option<int> {
    joined(single(m, arith::mirror(j)), Some(-2 * x))
}

/// The bound on the mirror of `c` could as well be the reduced one of `j`.
proof fn lemma_reduced_change(m: Wide, t: Wide, lo: int, c: int, j: int, x: int)
    requires
        suits(t, singles(m), lo),
        t.closed_at(c),
        t.closed_at(arith::mirror(c)),
        t.has(c, j),
        t.n % 2 == 0,
        0 <= lo,
        is_path(t, c, j, x),
    ensures
        is_change(m, t, lo, arith::mirror(c), reduced(m, j, x), reduced(m, j, x)),
{
    let u = singles(m);
    let (e, jb) = (arith::mirror(c), arith::mirror(j));
    let v = reduced(m, j, x);
    assert(arith::mirror(jb) == j && arith::mirror(e) == c);
    assert(0 <= jb < t.n && 0 <= e < t.n);
    lemma_suits(t, u, lo, jb, jb);
    t.lemma_triangle(jb, c, j);
    t.lemma_triangle(jb, e, c);
    assert forall|q: int| lo <= q < t.n implies at_most(
        v,
        joined(twice(#[trigger] t.at(e, q)), single(m, q)),
    ) by {
        lemma_suits(t, u, lo, jb, q);
        t.lemma_triangle(jb, e, q);
    }
    assert forall|q: int| lo <= q < t.n implies at_most(
        v,
        joined(
            twice(#[trigger] t.at(q, arith::mirror(e))),
            single(m, arith::mirror(q)),
        ),
    ) by {
        lemma_suits(t, u, lo, jb, q);
        t.lemma_triangle(q, c, j);
    }
}

// ---------------------------------------------------------------------------
// The end of the pass
// ---------------------------------------------------------------------------

/// `m` and the paths after the pivot pair `p` are a setting.
#[verifier::opaque]
pub open spec fn is_end(g: Grid, m: Wide, p: int) -> bool {
    let t = g.traced(p, g.n / 2);
    &&& g.wf()
    &&& g.roomy()
    &&& g.pass().nonnegative_diagonal()
    &&& 0 <= p < g.n / 2
    &&& m.n == g.n
    &&& is_setting(m, t, 2 * p + 2)
    &&& t.below(as_wide(g.opened(p)))
}

proof fn lemma_end(g: Grid, m: Wide, p: int)
    requires
        is_end(g, m, p),
    ensures
        is_setting(m, g.traced(p, g.n / 2), 2 * p + 2),
        suits(g.traced(p, g.n / 2), singles(m), 2 * p + 2),
        m.n == g.n,
        g.traced(p, g.n / 2).n == g.n,
        g.n % 2 == 0,
        0 <= p < g.n / 2,
        g.wf(),
        g.pass().wf(),
        g.pass().n == g.n,
{
    reveal(is_end);
    lemma_singles_suit(m, g.traced(p, g.n / 2), 2 * p + 2);
    g.lemma_pivoted(g.n / 2);
}

/// A bound that a single variable could as well have is no tighter than what the
/// pass ends with.
proof fn lemma_change_is_kept(g: Grid, m: Wide, p: int, e: int, v: Option<int>, w: Option<int>)
    requires
        is_end(g, m, p),
        0 <= e < 2 * p + 2,
        is_change(m, g.traced(p, g.n / 2), 2 * p + 2, e, v, w),
    ensures
        at_most(v, single(as_wide(g.pass()), e)),
        at_most(w, single(as_wide(g.pass()), e)),
{
    let t = g.traced(p, g.n / 2);
    let u = changed(m, e, v, w);
    lemma_end(g, m, p);
    lemma_changed_suits(m, t, 2 * p + 2, e, v, w);
    lemma_end_over(g, m, p, u);
    lemma_suits(t, u, 2 * p + 2, e, e);
    let f = g.pass();
    let eb = arith::mirror(e);
    assert(arith::mirror(eb) == e);
    assert(f.has(e, eb));
    if f.at(e, eb) != DBM_INF {
        assert(over(t, u, e, eb, f.at(e, eb)));
        assert(u.out(e) == v && u.back(e) == w);
    }
}

proof fn lemma_end_over(g: Grid, m: Wide, p: int, u: Singles)
    requires
        is_end(g, m, p),
        suits(g.traced(p, g.n / 2), u, 2 * p + 2),
    ensures
        all_over(g.traced(p, g.n / 2), u, g.pass()),
{
    reveal(is_end);
    let t = g.traced(p, g.n / 2);
    assert forall|q: int| 2 * p + 2 <= q < g.n implies #[trigger] t.closed_at(q) by {
        lemma_setting(m, t, 2 * p + 2, q, q);
    }
    g.lemma_stages_over(p, g.n / 2, t, u);
}

/// How the last matrix comes from the end of the pass `f`: by half-sums, and over the
/// integers with each bound on a single variable rounded down.
pub open spec fn is_cell(f: Wide, m: Wide, exact: bool, i: int, j: int) -> bool {
    &&& m.at(i, j) is Some ==> m.at(i, j) == f.at(i, j) || at_most(
        joined(single(m, i), single(m, arith::mirror(j))),
        twice(m.at(i, j)),
    )
    &&& single(m, i) is Some <==> single(f, i) is Some
    &&& !exact ==> single(m, i) == single(f, i)
    &&& exact && single(m, i) is Some ==> single(m, i)->0 % 4 == 0 && single(f, i)->0 - 4 < single(
        m,
        i,
    )->0 <= single(f, i)->0
    &&& exact && m.at(i, j) is Some ==> m.at(i, j)->0 % 2 == 0
}

#[verifier::opaque]
pub open spec fn is_tail(f: Wide, m: Wide, exact: bool) -> bool {
    forall|i: int, j: int| m.has(i, j) ==> #[trigger] is_cell(f, m, exact, i, j)
}

/// The bounds on the variable of `c` leave it a value.
pub open spec fn meets(m: Wide, c: int) -> bool {
    at_most(Some(0), joined(single(m, c), single(m, arith::mirror(c))))
}

/// No cell of the last matrix falls below the paths and the half-sums.
proof fn lemma_tail_over(g: Grid, m: Wide, p: int, exact: bool, i: int, j: int)
    requires
        is_end(g, m, p),
        is_tail(as_wide(g.pass()), m, exact),
        m.has(i, j),
    ensures
        m.at(i, j) is Some ==> over(
            g.traced(p, g.n / 2),
            singles(m),
            i,
            j,
            m.at(i, j)->0,
        ),
{
    let t = g.traced(p, g.n / 2);
    let u = singles(m);
    let f = g.pass();
    lemma_end(g, m, p);
    lemma_end_over(g, m, p, u);
    assert(is_cell(as_wide(f), m, exact, i, j)) by {
        reveal(is_tail);
    }
    if m.at(i, j) is Some {
        assert(f.has(i, j));
        if m.at(i, j) == as_wide(f).at(i, j) {
            assert(over(t, u, i, j, f.at(i, j)));
        }
        assert(u.out(i) == single(m, i));
        assert(u.back(arith::mirror(j)) == single(m, arith::mirror(j)));
    }
}

/// The bound on a variable that the pair leads to.
proof fn lemma_outgoing(g: Grid, m: Wide, p: int, exact: bool, c: int, j: int)
    requires
        is_end(g, m, p),
        is_tail(as_wide(g.pass()), m, exact),
        2 * p <= c < 2 * p + 2,
        0 <= j < g.n,
        meets(m, c),
    ensures
        at_most(
            single(m, arith::mirror(j)),
            joined(single(m, arith::mirror(c)), twice(m.at(c, j))),
        ),
{
    let t = g.traced(p, g.n / 2);
    let lo = 2 * p + 2;
    let u = singles(m);
    let (e, jb) = (arith::mirror(c), arith::mirror(j));
    lemma_end(g, m, p);
    assert(arith::mirror(e) == c && arith::mirror(jb) == j);
    lemma_setting(m, t, lo, c, j);
    lemma_setting(m, t, lo, e, c);
    lemma_setting(m, t, lo, c, e);
    if m.at(c, j) is Some && single(m, e) is Some {
        let x = m.at(c, j)->0;
        assert(m.at(jb, e) == Some(x));
        lemma_tail_over(g, m, p, exact, c, j);
        lemma_tail_over(g, m, p, exact, jb, e);
        assert(u.out(c) == single(m, c) && u.back(jb) == single(m, jb));
        assert(u.out(jb) == single(m, jb) && u.back(c) == single(m, c));
        if is_path(t, c, j, x) {
            lemma_reduced_change(m, t, lo, c, j, x);
            lemma_change_is_kept(g, m, p, e, reduced(m, j, x), reduced(m, j, x));
            let f = as_wide(g.pass());
            assert(is_cell(f, m, exact, e, c) && is_cell(f, m, exact, jb, j) && is_cell(
                f,
                m,
                exact,
                c,
                j,
            )) by {
                reveal(is_tail);
            }
        } else {
            assert(at_most(joined(single(m, c), single(m, jb)), Some(2 * x)));
        }
    }
}

/// The triangle inequality at a node of the pair.
proof fn lemma_pair_cell(g: Grid, m: Wide, p: int, exact: bool, c: int, i: int, j: int)
    requires
        is_end(g, m, p),
        is_tail(as_wide(g.pass()), m, exact),
        2 * p <= c < 2 * p + 2,
        m.has(i, j),
        meets(m, c),
        meets(m, arith::mirror(c)),
    ensures
        at_most(m.at(i, j), joined(m.at(i, c), m.at(c, j))),
{
    let t = g.traced(p, g.n / 2);
    let lo = 2 * p + 2;
    let u = singles(m);
    let (ib, jb, e) = (arith::mirror(i), arith::mirror(j), arith::mirror(c));
    lemma_end(g, m, p);
    assert(arith::mirror(ib) == i && arith::mirror(jb) == j && arith::mirror(e) == c);
    lemma_setting(m, t, lo, i, j);
    lemma_setting(m, t, lo, i, c);
    lemma_setting(m, t, lo, c, j);
    if m.at(i, c) is Some && m.at(c, j) is Some {
        let x = m.at(i, c)->0;
        let y = m.at(c, j)->0;
        lemma_tail_over(g, m, p, exact, i, c);
        lemma_tail_over(g, m, p, exact, c, j);
        assert(u.out(i) == single(m, i) && u.back(e) == single(m, e));
        assert(u.out(c) == single(m, c) && u.back(jb) == single(m, jb));
        if at_most(joined(single(m, i), single(m, e)), Some(2 * x)) {
            lemma_outgoing(g, m, p, exact, c, j);
            assert(at_most(joined(single(m, i), single(m, jb)), Some(2 * (x + y))));
        } else if at_most(joined(single(m, c), single(m, jb)), Some(2 * y)) {
            assert(m.at(e, ib) == Some(x));
            lemma_outgoing(g, m, p, exact, e, ib);
            assert(at_most(joined(single(m, i), single(m, jb)), Some(2 * (x + y))));
        } else {
            t.lemma_triangle(i, c, j);
        }
    }
}

// ---------------------------------------------------------------------------
// Single variables
// ---------------------------------------------------------------------------

/// Twice the path from `b` to `c`, and the bound on the variable of `b`.
pub open spec fn detour(m: Wide, t: Wide, b: int, c: int) -> Option<int> {
    joined(twice(t.at(b, c)), single(m, arith::mirror(b)))
}

/// The bounds on a variable are at most one short of leaving it a value.
proof fn lemma_nearly_meets(m: Wide, t: Wide, lo: int, c: int)
    requires
        is_setting(m, t, lo),
        0 <= c < m.n,
    ensures
        at_most(Some(-1), joined(single(m, c), single(m, arith::mirror(c)))),
{
    lemma_setting(m, t, lo, c, c);
    assert(arith::mirror(arith::mirror(c)) == c);
}

/// From `c` to `q`, from there to its mirror, and back.
proof fn lemma_cycle(m: Wide, t: Wide, lo: int, c: int, q: int)
    requires
        is_setting(m, t, lo),
        0 <= c < m.n,
        0 <= lo <= q < m.n,
    ensures
        at_most(
            Some(0),
            joined(joined(m.at(c, q), single(m, q)), m.at(arith::mirror(q), c)),
        ),
{
    let qb = arith::mirror(q);
    lemma_setting(m, t, lo, c, q);
    lemma_setting(m, t, lo, c, qb);
    m.lemma_triangle(c, q, qb);
    m.lemma_triangle(c, qb, c);
}

/// The path from the mirror of `c` to `c` leaves the variable a value.
proof fn lemma_path_change(m: Wide, t: Wide, lo: int, c: int)
    requires
        is_setting(m, t, lo),
        0 <= lo,
        lo - 2 <= c < lo,
        0 <= c < m.n,
        t.at(arith::mirror(c), c) is Some,
    ensures
        ({
            let v = Some(-t.at(arith::mirror(c), c)->0);
            is_change(m, t, lo, c, v, v)
        }),
{
    let e = arith::mirror(c);
    let z = t.at(e, c)->0;
    let v = Some(-z);
    lemma_setting(m, t, lo, c, c);
    lemma_setting(m, t, lo, c, e);
    lemma_setting(m, t, lo, e, c);
    t.lemma_triangle(c, e, c);
    assert forall|q: int| lo <= q < t.n implies at_most(
        v,
        joined(twice(#[trigger] t.at(c, q)), single(m, q)),
    ) by {
        let qb = arith::mirror(q);
        assert(arith::mirror(qb) == q);
        lemma_cycle(m, t, lo, c, q);
        lemma_setting(m, t, lo, c, q);
        lemma_setting(m, t, lo, e, q);
        assert(m.at(e, q) == m.at(qb, c));
        t.lemma_triangle(e, c, q);
    }
    assert forall|q: int| lo <= q < t.n implies at_most(
        v,
        joined(twice(#[trigger] t.at(q, arith::mirror(c))), single(m, arith::mirror(q))),
    ) by {
        let qb = arith::mirror(q);
        assert(arith::mirror(qb) == q);
        lemma_cycle(m, t, lo, c, qb);
        lemma_setting(m, t, lo, q, c);
        lemma_setting(m, t, lo, q, e);
        assert(m.at(q, e) == m.at(c, qb));
        t.lemma_triangle(q, e, c);
    }
}

/// Two nodes, their mirrors, and back.
proof fn lemma_long_cycle(m: Wide, t: Wide, lo: int, b: int, q: int)
    requires
        is_setting(m, t, lo),
        0 <= lo <= q < m.n,
        lo <= b < m.n,
    ensures
        at_most(
            Some(0),
            joined(
                twice(m.at(b, q)),
                joined(single(m, arith::mirror(b)), single(m, q)),
            ),
        ),
{
    let (bb, qb) = (arith::mirror(b), arith::mirror(q));
    lemma_setting(m, t, lo, b, q);
    assert(arith::mirror(bb) == b && arith::mirror(qb) == q);
    lemma_setting(m, t, lo, q, qb);
    lemma_setting(m, t, lo, q, bb);
    lemma_setting(m, t, lo, q, b);
    assert(m.at(b, q) == m.at(qb, bb));
    m.lemma_triangle(q, qb, bb);
    m.lemma_triangle(q, bb, b);
    m.lemma_triangle(q, b, q);
}

/// So does a detour.
proof fn lemma_detour_change(m: Wide, t: Wide, lo: int, c: int, b: int)
    requires
        is_setting(m, t, lo),
        suits(t, singles(m), lo),
        0 <= lo,
        lo - 2 <= c < lo,
        0 <= c < m.n,
        lo <= b < m.n,
        detour(m, t, b, c) is Some,
    ensures
        ({
            let f = detour(m, t, b, c)->0;
            is_change(m, t, lo, c, Some(-f), Some(-f - 1))
        }),
{
    let e = arith::mirror(c);
    let bb = arith::mirror(b);
    let f = detour(m, t, b, c)->0;
    let u = singles(m);
    lemma_setting(m, t, lo, c, c);
    lemma_setting(m, t, lo, c, e);
    lemma_setting(m, t, lo, e, c);
    lemma_setting(m, t, lo, b, c);
    lemma_setting(m, t, lo, b, e);
    assert(arith::mirror(e) == c && arith::mirror(bb) == b);
    lemma_cycle(m, t, lo, c, bb);
    assert(m.at(b, e) == m.at(c, bb));
    t.lemma_triangle(b, c, e);
    assert(at_most(Some(-f), t.at(c, e)));
    lemma_nearly_meets(m, t, lo, c);
    lemma_suits(t, u, lo, e, b);
    assert(u.back(e) == single(m, e) && u.back(bb) == single(m, bb));
    assert(at_most(single(m, e), Some(f)));
    assert forall|q: int| lo <= q < t.n implies at_most(
        Some(-f),
        joined(twice(#[trigger] t.at(c, q)), single(m, q)),
    ) by {
        lemma_long_cycle(m, t, lo, b, q);
        lemma_setting(m, t, lo, b, q);
        t.lemma_triangle(b, c, q);
    }
    assert forall|q: int| lo <= q < t.n implies at_most(
        Some(-f - 1),
        joined(twice(#[trigger] t.at(q, arith::mirror(c))), single(m, arith::mirror(q))),
    ) by {
        lemma_suits(t, u, lo, c, q);
        assert(u.back(c) == single(m, c));
        assert(u.back(arith::mirror(q)) == single(m, arith::mirror(q)));
    }
}

/// At the end of the pass the bounds on a variable leave it a value.
proof fn lemma_end_meets(g: Grid, p: int, c: int)
    requires
        is_end(g, as_wide(g.pass()), p),
        2 * p <= c < 2 * p + 2,
    ensures
        meets(as_wide(g.pass()), c),
{
    let m = as_wide(g.pass());
    let t = g.traced(p, g.n / 2);
    let lo = 2 * p + 2;
    let u = singles(m);
    let e = arith::mirror(c);
    lemma_end(g, m, p);
    assert(arith::mirror(e) == c);
    lemma_setting(m, t, lo, e, c);
    lemma_nearly_meets(m, t, lo, c);
    if single(m, c) is Some && single(m, e) is Some {
        let z = single(m, c)->0;
        if t.at(e, c) is Some {
            lemma_path_change(m, t, lo, c);
            let v = Some(-t.at(e, c)->0);
            lemma_change_is_kept(g, m, p, c, v, v);
        }
        assert forall|q: int| lo <= q < t.n implies at_most(
            Some(-z),
            joined(twice(#[trigger] t.at(q, c)), single(m, arith::mirror(q))),
        ) by {
            if detour(m, t, q, c) is Some {
                lemma_detour_change(m, t, lo, c, q);
                let f = detour(m, t, q, c)->0;
                lemma_change_is_kept(g, m, p, c, Some(-f), Some(-f - 1));
            }
        }
        assert forall|q: int| lo <= q < t.n implies at_most(
            Some(-z - 1),
            joined(twice(#[trigger] t.at(e, q)), single(m, q)),
        ) by {
            lemma_suits(t, u, lo, e, q);
            assert(u.out(e) == single(m, e) && u.out(q) == single(m, q));
        }
        assert(is_change(m, t, lo, e, Some(-z - 1), Some(-z)));
        lemma_change_is_kept(g, m, p, e, Some(-z - 1), Some(-z));
    }
}

// ---------------------------------------------------------------------------
// A whole round
// ---------------------------------------------------------------------------

impl Grid {
    /// A first round that ends in bounds that mirror each other; over the integers,
    /// in even ones.
    pub open spec fn ends_mirrored(self, exact: bool) -> bool {
        let r = self.round(exact);
        &&& self.wf()
        &&& self.roomy()
        &&& r.ok
        &&& r.grid.coherent()
        &&& r.grid.nonnegative_diagonal()
        &&& exact ==> r.grid.even()
    }

    /// Half-sums bound every cell by its half-sum.
    proof fn lemma_halved_bounded(self)
        requires
            self.wf(),
            self.small(3 * ROOM),
        ensures
            self.halved_all().half_bounded(),
    {
        let h = self.halved_all();
        Grid::lemma_square(self.n);
        self.lemma_halved_cells(self.n * self.n);
        assert forall|i: int, j: int| h.has(i, j) implies h.at(i, j) <= #[trigger] h.half_sum(
            i,
            j,
        ) by {
            let (ib, jb) = (arith::mirror(i), arith::mirror(j));
            Grid::lemma_index(self.n, i, j);
            assert(arith::mirror(jb) == j);
            assert(self.has(i, j));
            assert(h.at(i, ib) == self.at(i, ib));
            assert(h.at(jb, arith::mirror(jb)) == self.at(jb, arith::mirror(jb)));
            assert(h.half_sum(i, j) == self.half_sum(i, j));
        }
    }

    /// The tightened matrix stays small.
    proof fn lemma_tightened_small(self)
        requires
            self.wf(),
            self.small(ROOM as int),
        ensures
            self.floored(),
            self.tightened(self.n).small(3 * ROOM),
    {
        let t = self.tightened(self.n);
        self.lemma_tightened(self.n);
        assert forall|i: int, j: int| self.has(i, j) implies #[trigger] self.at(i, j)
            >= arith::DBM_FLOOR by {
            assert(exact::fits(self.at(i, j), ROOM as int));
        }
        assert forall|i: int, j: int| t.has(i, j) implies exact::fits(
            #[trigger] t.at(i, j),
            3 * ROOM,
        ) by {
            assert(self.has(i, j));
            assert(exact::fits(self.at(i, j), ROOM as int));
            if j == arith::mirror(i) {
                assert(t.at(i, arith::mirror(i)) <= DBM_INF);
            } else {
                assert(t.at(i, j) == self.at(i, j));
            }
        }
    }

    /// The shape of the end of a round.
    proof fn lemma_round_shape(self, exact: bool)
        requires
            self.ends_mirrored(exact),
        ensures
            self.pass().wf(),
            self.pass().n == self.n,
            self.pass().small(ROOM as int),
            self.pass().nonnegative_diagonal(),
            self.round(exact).grid.wf(),
            self.round(exact).grid.n == self.n,
            self.round(exact).grid.below(self.pass()),
            self.round(exact).grid.small(2 * ROOM),
            self.round(exact).grid.half_bounded(),
            exact ==> self.round(exact).grid.rounded(),
            exact ==> self.round(exact).grid.intervals_meet(),
            is_tail(as_wide(self.pass()), as_wide(self.round(exact).grid), exact),
    {
        let f = self.pass();
        let g = self.round(exact).grid;
        self.lemma_pivoted(self.n / 2);
        assert(self.pivoted(self.n / 2).small(ROOM as int));
        if exact {
            self.lemma_exact_shape();
        } else {
            assert forall|i: int, j: int| f.has(i, j) implies exact::fits(
                #[trigger] f.at(i, j),
                2 * ROOM,
            ) by {
                assert(exact::fits(f.at(i, j), ROOM as int));
            }
            if self.n > 0 {
                self.lemma_opened(self.n / 2 - 1);
                self.opened(self.n / 2 - 1).lemma_halved_bounded();
            }
            reveal(is_tail);
        }
    }

    #[verifier::spinoff_prover]
    proof fn lemma_exact_shape(self)
        requires
            self.ends_mirrored(true),
            self.pass().wf(),
            self.pass().n == self.n,
            self.pass().small(ROOM as int),
        ensures
            self.pass().nonnegative_diagonal(),
            self.round(true).grid.wf(),
            self.round(true).grid.n == self.n,
            self.round(true).grid.below(self.pass()),
            self.round(true).grid.small(2 * ROOM),
            self.round(true).grid.half_bounded(),
            self.round(true).grid.rounded(),
            self.round(true).grid.intervals_meet(),
            is_tail(as_wide(self.pass()), as_wide(self.round(true).grid), true),
    {
        let f = self.pass();
        let t = f.tightened(f.n);
        let g = self.round(true).grid;
        f.lemma_tightened(f.n);
        f.lemma_tightened_small();
        Grid::lemma_square(self.n);
        t.lemma_halved(self.n * self.n);
        t.lemma_halved_cells(self.n * self.n);
        t.lemma_halved_bounded();
        assert(g == t.halved_all());
        assert forall|i: int, j: int| g.has(i, j) implies #[trigger] g.at(i, j) <= f.at(i, j) by {
            assert(t.has(i, j));
            assert(g.at(i, j) <= t.at(i, j));
            assert(t.at(i, j) <= f.at(i, j));
        }
        assert forall|i: int| 0 <= i < f.n implies #[trigger] f.at(i, i) >= 0 by {
            assert(g.has(i, i));
            assert(g.at(i, i) >= 0);
            assert(g.at(i, i) <= f.at(i, i));
        }
        assert forall|i: int, j: int| g.has(i, j) implies exact::fits(
            #[trigger] g.at(i, j),
            2 * ROOM,
        ) by {
            self.lemma_exact_cell(i, j);
        }
        assert forall|i: int| 0 <= i < g.n implies #[trigger] g.at(i, arith::mirror(i)) == DBM_INF
            || g.at(i, arith::mirror(i)) % 4 == 0 by {
            self.lemma_exact_cell(i, arith::mirror(i));
        }
        assert forall|x: int| 0 <= x < g.n / 2 implies #[trigger] arith::oplus(
            g.at(2 * x, 2 * x + 1),
            g.at(2 * x + 1, 2 * x),
        ) >= 0 by {
            assert(arith::mirror(2 * x) == 2 * x + 1 && arith::mirror(2 * x + 1) == 2 * x);
            assert(g.at(2 * x, arith::mirror(2 * x)) == t.at(2 * x, arith::mirror(2 * x)));
            assert(g.at(2 * x + 1, arith::mirror(2 * x + 1)) == t.at(
                2 * x + 1,
                arith::mirror(2 * x + 1),
            ));
            assert(arith::oplus(t.at(2 * x, 2 * x + 1), t.at(2 * x + 1, 2 * x)) >= 0);
        }
        reveal(is_tail);
        let (w, m) = (as_wide(f), as_wide(g));
        assert forall|i: int, j: int| m.has(i, j) implies #[trigger] is_cell(w, m, true, i, j) by {
            self.lemma_exact_cell(i, j);
            self.lemma_exact_cell(i, arith::mirror(i));
            self.lemma_exact_cell(arith::mirror(j), arith::mirror(arith::mirror(j)));
        }
    }

    /// One cell of the end of an integer round.
    #[verifier::spinoff_prover]
    proof fn lemma_exact_cell(self, i: int, j: int)
        requires
            self.ends_mirrored(true),
            self.pass().wf(),
            self.pass().n == self.n,
            self.pass().small(ROOM as int),
            0 <= i < self.n,
            0 <= j < self.n,
        ensures
            ({
                let f = self.pass();
                let g = self.round(true).grid;
                let (ii, jj) = (g.at(i, arith::mirror(i)), g.at(arith::mirror(j), j));
                &&& exact::fits(g.at(i, j), ROOM + 4)
                &&& g.at(i, j) != DBM_INF ==> g.at(i, j) == f.at(i, j) || (ii != DBM_INF && jj
                    != DBM_INF && 2 * g.at(i, j) >= ii + jj)
                &&& g.at(i, j) != DBM_INF ==> g.at(i, j) % 2 == 0
                &&& j == arith::mirror(i) ==> {
                    &&& g.at(i, j) == DBM_INF <==> f.at(i, j) == DBM_INF
                    &&& g.at(i, j) != DBM_INF ==> g.at(i, j) % 4 == 0 && f.at(i, j) - 4 < g.at(
                        i,
                        j,
                    ) <= f.at(i, j)
                }
            }),
    {
        let f = self.pass();
        let t = f.tightened(f.n);
        let g = self.round(true).grid;
        let (ib, jb) = (arith::mirror(i), arith::mirror(j));
        assert(arith::mirror(jb) == j && arith::mirror(ib) == i);
        f.lemma_tightened(f.n);
        f.lemma_tightened_small();
        Grid::lemma_square(self.n);
        Grid::lemma_index(self.n, i, j);
        t.lemma_halved_cells(self.n * self.n);
        assert(g == t.halved_all());
        assert(f.has(i, j) && f.has(i, ib) && f.has(jb, j) && g.has(i, j));
        assert(exact::fits(f.at(i, j), ROOM as int));
        assert(exact::fits(f.at(i, ib), ROOM as int));
        assert(exact::fits(f.at(jb, j), ROOM as int));
        assert(g.at(i, ib) == t.at(i, ib));
        assert(g.at(jb, arith::mirror(jb)) == t.at(jb, arith::mirror(jb)));
        assert(t.at(i, ib) == (if f.at(i, ib) != DBM_INF && f.at(i, ib) % 4 != 0 {
            arith::spec_floor4(f.at(i, ib))
        } else {
            f.at(i, ib)
        }));
        assert(t.at(jb, arith::mirror(jb)) == (if f.at(jb, j) != DBM_INF && f.at(jb, j) % 4 != 0 {
            arith::spec_floor4(f.at(jb, j))
        } else {
            f.at(jb, j)
        }));
        assert(g.at(i, j) == grid::min2(t.at(i, j), t.half_sum(i, j)));
        if j != ib {
            assert(t.at(i, j) == f.at(i, j));
        }
    }

    /// A matrix that mirrors itself and the paths above it are a setting.
    #[verifier::spinoff_prover]
    proof fn lemma_round_setting(self, t: Wide, lo: int)
        requires
            self.wf(),
            self.small(2 * ROOM),
            self.coherent(),
            self.half_bounded(),
            self.nonnegative_diagonal(),
            lo % 2 == 0,
            2 <= lo <= self.n,
            as_wide(self).below(t),
            forall|q: int| lo <= q < self.n ==> #[trigger] self.closed_at(q),
            forall|q: int| lo - 2 <= q < self.n ==> #[trigger] t.closed_at(q),
        ensures
            is_setting(as_wide(self), t, lo),
    {
        let m = as_wide(self);
        self.lemma_small_thrice();
        assert forall|i: int, j: int| m.has(i, j) implies #[trigger] m.at(i, j) == m.at(
            arith::mirror(j),
            arith::mirror(i),
        ) by {
            assert(self.has(i, j));
        }
        assert forall|i: int, j: int| m.has(i, j) implies #[trigger] halves(m, i, j) by {
            self.lemma_wide_halves(i, j);
        }
        assert forall|i: int| 0 <= i < m.n implies at_most(Some(0), #[trigger] m.at(i, i)) by {
            assert(self.at(i, i) >= 0);
        }
        assert forall|q: int| lo <= q < m.n implies #[trigger] m.closed_at(q) by {
            self.lemma_wide_closed(q);
        }
        reveal(is_setting);
    }

    proof fn lemma_wide_halves(self, i: int, j: int)
        requires
            self.wf(),
            self.small(2 * ROOM),
            self.half_bounded(),
            self.has(i, j),
        ensures
            halves(as_wide(self), i, j),
    {
        let (ib, jb) = (arith::mirror(i), arith::mirror(j));
        assert(self.has(i, ib) && self.has(jb, j));
        assert(exact::fits(self.at(i, ib), 2 * ROOM));
        assert(exact::fits(self.at(jb, j), 2 * ROOM));
        assert(self.at(i, j) <= self.half_sum(i, j));
    }

    proof fn lemma_small_thrice(self)
        requires
            self.small(2 * ROOM),
        ensures
            self.small(3 * ROOM),
    {
        assert forall|i: int, j: int| self.has(i, j) implies exact::fits(
            #[trigger] self.at(i, j),
            3 * ROOM,
        ) by {
            assert(exact::fits(self.at(i, j), 2 * ROOM));
        }
    }

    /// The paths after a pivot pair are closed from that pair on.
    #[verifier::spinoff_prover]
    proof fn lemma_round_end(self, exact: bool, p: int)
        requires
            self.ends_mirrored(exact),
            0 <= p < self.n / 2,
            forall|c: int|
                2 * p + 2 <= c < self.n ==> #[trigger] self.round(exact).grid.closed_at(c),
        ensures
            is_end(self, as_wide(self.round(exact).grid), p),
    {
        let f = self.pass();
        let g = self.round(exact).grid;
        let m = as_wide(g);
        let t = self.traced(p, self.n / 2);
        let o = self.opened(p);
        let k = 2 * p;
        let lo = k + 2;
        self.lemma_round_shape(exact);
        self.lemma_opened(p);
        self.lemma_traced(p, self.n / 2);
        g.lemma_wide_below(f);
        lemma_below_chain(m, as_wide(f), t);
        as_wide(o).lemma_paths_size(lo, self.n);
        assert(t.nonnegative_diagonal()) by {
            assert forall|i: int| 0 <= i < t.n && (#[trigger] t.at(i, i)) is Some implies t.at(
                i,
                i,
            )->0 >= 0 by {
                assert(m.has(i, i));
                assert(at_most(m.at(i, i), t.at(i, i)));
                assert(g.at(i, i) >= 0);
            }
        }
        as_wide(o).lemma_paths(lo, self.n);
        o.lemma_wide_closed(k);
        o.lemma_wide_closed(k + 1);
        assert forall|q: int| lo - 2 <= q < m.n implies #[trigger] t.closed_at(q) by {}
        g.lemma_round_setting(t, lo);
        reveal(is_end);
    }

    /// The bounds on the variable of a pivot pair leave it a value.
    proof fn lemma_round_meets(self, exact: bool, p: int, c: int)
        requires
            self.ends_mirrored(exact),
            0 <= p < self.n / 2,
            2 * p <= c < 2 * p + 2,
            is_end(self, as_wide(self.round(exact).grid), p),
        ensures
            meets(as_wide(self.round(exact).grid), c),
    {
        let g = self.round(exact).grid;
        self.lemma_round_shape(exact);
        if exact {
            assert(arith::oplus(g.at(2 * p, 2 * p + 1), g.at(2 * p + 1, 2 * p)) >= 0);
            assert(g.has(2 * p, 2 * p + 1) && g.has(2 * p + 1, 2 * p));
            assert(exact::fits(g.at(2 * p, 2 * p + 1), 2 * ROOM));
            assert(exact::fits(g.at(2 * p + 1, 2 * p), 2 * ROOM));
        } else {
            lemma_end_meets(self, p, c);
        }
    }

    /// The end of the round is closed from each pivot pair on.
    #[verifier::spinoff_prover]
    proof fn lemma_round_pairs(self, exact: bool, p: int)
        requires
            self.ends_mirrored(exact),
            0 <= p <= self.n / 2,
        ensures
            forall|c: int| 2 * p <= c < self.n ==> #[trigger] self.round(exact).grid.closed_at(c),
        decreases self.n / 2 - p,
    {
        if p < self.n / 2 {
            let g = self.round(exact).grid;
            let m = as_wide(g);
            let k = 2 * p;
            self.lemma_round_pairs(exact, p + 1);
            self.lemma_round_shape(exact);
            self.lemma_round_end(exact, p);
            self.lemma_round_meets(exact, p, k);
            self.lemma_round_meets(exact, p, k + 1);
            assert(m.closed_at(k) && m.closed_at(k + 1)) by {
                reveal(Wide::closed_at);
                assert forall|i: int, j: int|
                    #![trigger m.at(i, k), m.at(k, j)]
                    m.has(i, j) implies at_most(m.at(i, j), joined(m.at(i, k), m.at(k, j))) by {
                    lemma_pair_cell(self, m, p, exact, k, i, j);
                }
                assert forall|i: int, j: int|
                    #![trigger m.at(i, k + 1), m.at(k + 1, j)]
                    m.has(i, j) implies at_most(
                    m.at(i, j),
                    joined(m.at(i, k + 1), m.at(k + 1, j)),
                ) by {
                    lemma_pair_cell(self, m, p, exact, k + 1, i, j);
                }
            }
            g.lemma_small_thrice();
            g.lemma_wide_closed(k);
            g.lemma_wide_closed(k + 1);
        }
    }

    /// Where a first round ends in bounds that mirror each other, they are closed,
    /// whether or not it started from such bounds.
    pub proof fn law_mirrored_end_is_closed(self, exact: bool)
        requires
            self.ends_mirrored(exact),
        ensures
            self.round(exact).grid.wf(),
            self.round(exact).grid.n == self.n,
            self.round(exact).grid.small(2 * ROOM),
            self.round(exact).grid.half_bounded(),
            exact ==> self.round(exact).grid.rounded(),
            forall|c: int| 0 <= c < self.n ==> #[trigger] self.round(exact).grid.closed_at(c),
    {
        self.lemma_round_shape(exact);
        self.lemma_round_pairs(exact, 0);
    }
}

} // verus!
