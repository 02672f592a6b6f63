//! Bounds that are met: in a strongly closed matrix no bound can be lowered
//! without losing a point, and so a join is as small as it can be.
use vstd::prelude::*;
use crate::octagon::arith;
use crate::octagon::arith::DBM_INF;
use crate::octagon::exact;
use crate::octagon::exact::ROOM;
use crate::octagon::grid;
use crate::octagon::grid::Grid;

verus! {

/// The node that stands where node `i` stood once the variables `x` and `y`
/// have changed places.
pub open spec fn exchanged(x: int, y: int, i: int) -> int {
    if i / 2 == x {
        2 * y + i % 2
    } else if i / 2 == y {
        2 * x + i % 2
    } else {
        i
    }
}

/// The coordinates with two of them exchanged.
pub open spec fn point_exchanged(v: Seq<int>, x: int, y: int) -> Seq<int> {
    v.update(x, v[y]).update(y, v[x])
}

/// The bounds on two nodes with the difference `m` do not contradict each
/// other: `c` and `e` bound their sum, `a` and `a2` twice the first, `b` and
/// `b2` twice the second, each from above and from below.
spec fn meets(
    m: int,
    has_c: bool,
    c: int,
    has_e: bool,
    e: int,
    has_a: bool,
    a: int,
    has_a2: bool,
    a2: int,
    has_b: bool,
    b: int,
    has_b2: bool,
    b2: int,
) -> bool {
    &&& has_e && has_c ==> 0 <= c + e
    &&& has_e && has_c && c + e == 0 ==> (c - m) % 2 == 0
    &&& has_e && has_a ==> m <= a + e
    &&& has_e && has_b ==> -m <= b + e
    &&& has_a2 && has_c ==> -m <= c + a2
    &&& has_a2 && has_a ==> 0 <= a + a2
    &&& has_a2 && has_b ==> -2 * m <= a2 + b
    &&& has_b2 && has_c ==> m <= c + b2
    &&& has_b2 && has_a ==> 2 * m <= a + b2
    &&& has_b2 && has_b ==> 0 <= b + b2
    &&& has_a ==> a % 2 == 0
    &&& has_a2 ==> a2 % 2 == 0
    &&& has_b ==> b % 2 == 0
    &&& has_b2 ==> b2 % 2 == 0
}

/// A second node that meets the bounds, with a first one `m` above it.
proof fn lemma_choose(
    m: int,
    has_c: bool,
    c: int,
    has_e: bool,
    e: int,
    has_a: bool,
    a: int,
    has_a2: bool,
    a2: int,
    has_b: bool,
    b: int,
    has_b2: bool,
    b2: int,
) -> (q: int)
    requires
        meets(m, has_c, c, has_e, e, has_a, a, has_a2, a2, has_b, b, has_b2, b2),
    ensures
        has_c ==> 2 * q + m <= c,
        has_a ==> 2 * q + 2 * m <= a,
        has_b ==> 2 * q <= b,
        has_e ==> -2 * q - m <= e,
        has_a2 ==> -2 * q - 2 * m <= a2,
        has_b2 ==> -2 * q <= b2,
{
    let has_hi = |k: int|
        if k == 0 {
            has_c
        } else if k == 1 {
            has_a
        } else {
            has_b
        };
    let hi = |k: int|
        if k == 0 {
            (c - m) / 2
        } else if k == 1 {
            a / 2 - m
        } else {
            b / 2
        };
    let has_lo = |k: int|
        if k == 0 {
            has_e
        } else if k == 1 {
            has_a2
        } else {
            has_b2
        };
    let lo = |k: int|
        if k == 0 {
            -((e + m) / 2)
        } else if k == 1 {
            -(a2 / 2) - m
        } else {
            -(b2 / 2)
        };
    assert forall|p: int, q: int|
        0 <= p < 3 && 0 <= q < 3 && #[trigger] has_lo(p) && #[trigger] has_hi(q) implies lo(p)
        <= hi(q) by {}
    let q = exact::lemma_between(has_lo, lo, has_hi, hi, 3);
    assert(has_lo(0) ==> lo(0) <= q);
    assert(has_lo(1) ==> lo(1) <= q);
    assert(has_lo(2) ==> lo(2) <= q);
    assert(has_hi(0) ==> q <= hi(0));
    assert(has_hi(1) ==> q <= hi(1));
    assert(has_hi(2) ==> q <= hi(2));
    q
}

impl Grid {
    /// What the laws below ask of a matrix: it is strongly closed, its bounds
    /// are small, and twice the bound of a single variable is whole; over the
    /// integers, it is in normal form.
    #[verifier::opaque]
    pub open spec fn is_tight(self, d: int) -> bool {
        &&& self.wf()
        &&& self.strongly_closed()
        &&& self.small(2 * ROOM)
        &&& self.singles_even()
        &&& d == 1 || d == 4
        &&& d == 1 ==> self.rounded() && self.even()
    }

    /// The matrix with two variables exchanged.
    spec fn with_exchanged(self, x: int, y: int) -> Grid {
        Grid {
            n: self.n,
            cells: Seq::new(
                self.cells.len(),
                |t: int|
                    self.at(
                        exchanged(x, y, t / self.n),
                        exchanged(x, y, t % self.n),
                    ) as i128,
            ),
        }
    }

    proof fn lemma_exchanged_at(self, x: int, y: int, i: int, j: int)
        requires
            self.wf(),
            0 <= x < self.n / 2,
            0 <= y < self.n / 2,
            self.has(i, j),
        ensures
            self.has(exchanged(x, y, i), exchanged(x, y, j)),
            self.with_exchanged(x, y).at(i, j) == self.at(
                exchanged(x, y, i),
                exchanged(x, y, j),
            ),
    {
        Grid::lemma_index(self.n, i, j);
        self.lemma_cell(exchanged(x, y, i), exchanged(x, y, j));
    }

    proof fn lemma_exchanged(self, x: int, y: int, d: int)
        requires
            self.is_tight(d),
            0 <= x < self.n / 2,
            0 <= y < self.n / 2,
        ensures
            self.with_exchanged(x, y).n == self.n,
            self.with_exchanged(x, y).is_tight(d),
    {
        reveal(Grid::is_tight);
        let g = self.with_exchanged(x, y);
        assert forall|t: int| 0 <= t < g.cells.len() implies #[trigger] g.cells[t] <= DBM_INF by {
            Grid::lemma_unindex(self.n, t);
            self.lemma_exchanged_at(x, y, t / self.n, t % self.n);
            self.lemma_cell(exchanged(x, y, t / self.n), exchanged(x, y, t % self.n));
        }
        assert forall|i: int, j: int| g.has(i, j) implies exact::fits(
            #[trigger] g.at(i, j),
            2 * ROOM,
        ) && (d == 1 ==> g.at(i, j) == DBM_INF || g.at(i, j) % 2 == 0) by {
            self.lemma_exchanged_at(x, y, i, j);
            let a = self.at(exchanged(x, y, i), exchanged(x, y, j));
            assert(exact::fits(a, 2 * ROOM));
            assert(d == 1 ==> a == DBM_INF || a % 2 == 0);
        }
        assert forall|i: int| 0 <= i < g.n implies #[trigger] g.at(i, i) == 0 by {
            self.lemma_exchanged_at(x, y, i, i);
            assert(self.at(exchanged(x, y, i), exchanged(x, y, i)) == 0);
        }
        assert forall|i: int| 0 <= i < g.n implies exchanged(x, y, #[trigger] arith::mirror(i))
            == arith::mirror(exchanged(x, y, i)) by {}
        assert forall|i: int, j: int| #[trigger] g.has(i, j) implies g.at(i, j) == g.at(
            arith::mirror(j),
            arith::mirror(i),
        ) by {
            self.lemma_exchanged_at(x, y, i, j);
            assert(g.has(arith::mirror(j), arith::mirror(i)));
            self.lemma_exchanged_at(x, y, arith::mirror(j), arith::mirror(i));
            assert(self.has(exchanged(x, y, i), exchanged(x, y, j)));
        }
        assert forall|i: int, j: int| g.has(i, j) implies g.at(i, j) <= #[trigger] g.half_sum(
            i,
            j,
        ) by {
            let (ib, jb) = (arith::mirror(i), arith::mirror(j));
            assert(g.has(i, ib) && g.has(jb, j));
            self.lemma_exchanged_at(x, y, i, j);
            self.lemma_exchanged_at(x, y, i, ib);
            self.lemma_exchanged_at(x, y, jb, j);
            let (a, b) = (exchanged(x, y, i), exchanged(x, y, j));
            assert(self.at(a, b) <= self.half_sum(a, b));
        }
        assert forall|i: int, k: int, j: int|
            #![trigger g.at(i, k), g.at(k, j)]
            g.has(i, k) && g.has(k, j) implies g.at(i, j) <= arith::oplus(
            g.at(i, k),
            g.at(k, j),
        ) by {
            self.lemma_exchanged_at(x, y, i, k);
            self.lemma_exchanged_at(x, y, k, j);
            self.lemma_exchanged_at(x, y, i, j);
            let (a, b, c) = (exchanged(x, y, i), exchanged(x, y, k), exchanged(x, y, j));
            assert(self.at(a, c) <= arith::oplus(self.at(a, b), self.at(b, c)));
        }
        assert forall|i: int| 0 <= i < g.n implies #[trigger] g.at(i, arith::mirror(i)) == DBM_INF
            || g.at(i, arith::mirror(i)) % 2 == 0 by {
            self.lemma_exchanged_at(x, y, i, arith::mirror(i));
            let a = exchanged(x, y, i);
            assert(self.at(a, arith::mirror(a)) == DBM_INF || self.at(a, arith::mirror(a)) % 2
                == 0);
        }
        if d == 1 {
            assert forall|i: int| 0 <= i < g.n implies #[trigger] g.at(i, arith::mirror(i))
                == DBM_INF || g.at(i, arith::mirror(i)) % 4 == 0 by {
                self.lemma_exchanged_at(x, y, i, arith::mirror(i));
                let a = exchanged(x, y, i);
                assert(self.at(a, arith::mirror(a)) == DBM_INF || self.at(a, arith::mirror(a)) % 4
                    == 0);
            }
        }
    }

    /// A point of the exchanged matrix, exchanged, is a point of the matrix.
    proof fn lemma_exchanged_back(self, x: int, y: int, v: Seq<int>, d: int)
        requires
            self.wf(),
            0 <= x < self.n / 2,
            0 <= y < self.n / 2,
            v.len() == self.n / 2,
            self.with_exchanged(x, y).admits(v, d),
        ensures
            point_exchanged(v, x, y).len() == self.n / 2,
            self.admits(point_exchanged(v, x, y), d),
            forall|i: int|
                0 <= i < self.n ==> #[trigger] grid::node(point_exchanged(v, x, y), i)
                    == grid::node(v, exchanged(x, y, i)),
    {
        let g = self.with_exchanged(x, y);
        let w = point_exchanged(v, x, y);
        assert forall|i: int| 0 <= i < self.n implies #[trigger] grid::node(w, i) == grid::node(
            v,
            exchanged(x, y, i),
        ) by {}
        assert forall|i: int, j: int|
            self.has(i, j) && #[trigger] self.at(i, j) != DBM_INF implies 2 * (grid::node(w, i)
            - grid::node(w, j)) <= d * self.at(i, j) by {
            let (a, b) = (exchanged(x, y, i), exchanged(x, y, j));
            assert(self.has(a, b));
            self.lemma_exchanged_at(x, y, a, b);
            assert(exchanged(x, y, a) == i && exchanged(x, y, b) == j);
            assert(g.at(a, b) == self.at(i, j));
            assert(grid::node(w, i) == grid::node(v, a));
            assert(grid::node(w, j) == grid::node(v, b));
        }
    }

    /// Coordinates that meet the bounds among them can be completed.
    proof fn lemma_complete(self, d: int, v: Seq<int>, x: int) -> (w: Seq<int>)
        requires
            self.is_tight(d),
            0 <= x <= self.n / 2,
            self.admits_prefix(v, d, x),
        ensures
            w.len() == self.n / 2,
            self.admits(w, d),
            forall|i: int| 0 <= i < x ==> #[trigger] w[i] == v[i],
        decreases self.n / 2 - x,
    {
        reveal(Grid::is_tight);
        if x < self.n / 2 {
            let u = self.lemma_extend(d, v, x);
            let w = self.lemma_complete(d, u, x + 1);
            assert forall|i: int| 0 <= i < x implies #[trigger] w[i] == v[i] by {
                assert(w[i] == u[i]);
            }
            w
        } else {
            assert forall|i: int, j: int|
                self.has(i, j) && #[trigger] self.at(i, j) != DBM_INF implies 2 * (grid::node(v, i)
                - grid::node(v, j)) <= d * self.at(i, j) by {
                assert(grid::node(v, i) - grid::node(v, j) <= self.weight(d, i, j));
                if d == 1 {
                    assert(1 * self.at(i, j) == self.at(i, j));
                } else {
                    assert(4 * self.at(i, j) == 2 * (2 * self.at(i, j)));
                }
            }
            v
        }
    }

    /// There is a bound on the difference of two nodes.
    #[verifier::opaque]
    spec fn bounds(self, i: int, j: int) -> bool {
        self.at(i, j) != DBM_INF
    }

    /// The bound, in units of one `d`-th.
    #[verifier::opaque]
    spec fn span(self, d: int, i: int, j: int) -> int {
        self.weight(d, i, j)
    }

    /// What is known of one cell.
    proof fn lemma_fact(self, d: int, i: int, j: int)
        requires
            self.is_tight(d),
            self.has(i, j),
        ensures
            d == 1 || d == 4,
            self.has(arith::mirror(j), arith::mirror(i)),
            self.bounds(i, j) == self.bounds(arith::mirror(j), arith::mirror(i)),
            self.span(d, i, j) == self.span(d, arith::mirror(j), arith::mirror(i)),
            self.bounds(i, i) && self.span(d, i, i) == 0,
            d == 4 ==> self.span(d, i, j) % 2 == 0,
            j == arith::mirror(i) && self.bounds(i, j) ==> self.span(d, i, j) % 2 == 0,
    {
        reveal(Grid::is_tight);
        reveal(Grid::bounds);
        reveal(Grid::span);
        assert(self.at(i, i) == 0);
        if j == arith::mirror(i) {
            assert(d == 1 ==> self.at(i, arith::mirror(i)) == DBM_INF || self.at(
                i,
                arith::mirror(i),
            ) % 4 == 0);
        }
    }

    /// Bounds add up along paths.
    proof fn lemma_path(self, d: int, i: int, k: int, j: int)
        requires
            self.is_tight(d),
            self.has(i, k),
            self.has(k, j),
            self.bounds(i, k),
            self.bounds(k, j),
        ensures
            self.bounds(i, j),
            self.span(d, i, j) <= self.span(d, i, k) + self.span(d, k, j),
    {
        reveal(Grid::is_tight);
        reveal(Grid::bounds);
        reveal(Grid::span);
        self.lemma_weight_path(d, i, k, j);
    }

    /// Twice a bound does not exceed the two bounds of single variables.
    proof fn lemma_half(self, d: int, i: int, j: int)
        requires
            self.is_tight(d),
            self.has(i, j),
            self.bounds(i, arith::mirror(i)),
            self.bounds(arith::mirror(j), j),
        ensures
            self.bounds(i, j),
            2 * self.span(d, i, j) <= self.span(d, i, arith::mirror(i)) + self.span(
                d,
                arith::mirror(j),
                j,
            ),
    {
        reveal(Grid::is_tight);
        reveal(Grid::bounds);
        reveal(Grid::span);
        let (ib, jb) = (arith::mirror(i), arith::mirror(j));
        assert(self.has(i, ib) && self.has(jb, j));
        assert(exact::fits(self.at(i, ib), 2 * ROOM) && exact::fits(self.at(jb, j), 2 * ROOM));
        assert(self.at(i, j) <= self.half_sum(i, j));
        assert(arith::mirror(jb) == j);
        assert(self.at(i, arith::mirror(i)) % 2 == 0 && self.at(jb, arith::mirror(jb)) % 2 == 0);
        assert(exact::fits(self.at(i, j), 2 * ROOM));
        assert(d == 1 ==> self.at(i, arith::mirror(i)) % 4 == 0 && self.at(
            jb,
            arith::mirror(jb),
        ) % 4 == 0);
    }

    /// The difference `m` lies within the bounds of the two cells; over the
    /// integers, it is the upper one or has the parity of the sum.
    spec fn allows(self, d: int, i: int, j: int, m: int) -> bool {
        &&& self.bounds(i, j) ==> m <= self.span(d, i, j)
        &&& self.bounds(j, i) ==> -m <= self.span(d, j, i)
        &&& d == 1 ==> {
            ||| self.bounds(i, j) && m == self.span(d, i, j)
            ||| self.bounds(i, arith::mirror(j)) ==> (m - self.span(d, i, arith::mirror(j))) % 2 == 0
        }
        &&& d == 4 ==> m % 2 == 0
    }

    /// Two coordinates with a given difference of nodes.
    #[verifier::spinoff_prover]
    proof fn lemma_two(self, d: int, i: int, j: int, m: int) -> (v: Seq<int>)
        requires
            self.is_tight(d),
            self.n >= 4,
            i == 0 || i == 1,
            j == 2 || j == 3,
            self.allows(d, i, j, m),
        ensures
            self.admits_prefix(v, d, 2),
            grid::node(v, i) - grid::node(v, j) == m,
    {
        let (ib, jb) = (arith::mirror(i), arith::mirror(j));
        self.lemma_two_relate(d, i, j, ib, jb, m);
        let q = lemma_choose(
            m,
            self.bounds(i, jb),
            self.span(d, i, jb),
            self.bounds(ib, j),
            self.span(d, ib, j),
            self.bounds(i, ib),
            self.span(d, i, ib),
            self.bounds(ib, i),
            self.span(d, ib, i),
            self.bounds(j, jb),
            self.span(d, j, jb),
            self.bounds(jb, j),
            self.span(d, jb, j),
        );
        let p = q + m;
        let v = seq![
            if i == 0 {
                p
            } else {
                -p
            },
            if j == 2 {
                q
            } else {
                -q
            },
        ];
        assert(grid::node(v, i) == p && grid::node(v, ib) == -p);
        assert(grid::node(v, j) == q && grid::node(v, jb) == -q);
        assert forall|x: int, y: int|
            0 <= x < 4 && 0 <= y < 4 && #[trigger] self.at(x, y) != DBM_INF implies grid::node(
            v,
            x,
        ) - grid::node(v, y) <= self.weight(d, x, y) by {
            assert(self.bounds(x, y)) by {
                reveal(Grid::bounds);
            }
            self.lemma_two_cell(d, i, j, ib, jb, m, q, v, x, y);
            assert(self.span(d, x, y) == self.weight(d, x, y)) by {
                reveal(Grid::span);
            }
        }
        v
    }

    /// A bound on the two coordinates is met.
    #[verifier::spinoff_prover]
    proof fn lemma_two_cell(
        self,
        d: int,
        i: int,
        j: int,
        ib: int,
        jb: int,
        m: int,
        q: int,
        v: Seq<int>,
        x: int,
        y: int,
    )
        requires
            self.is_tight(d),
            self.n >= 4,
            i == 0 || i == 1,
            j == 2 || j == 3,
            ib == arith::mirror(i),
            jb == arith::mirror(j),
            self.allows(d, i, j, m),
            grid::node(v, i) == q + m,
            grid::node(v, ib) == -(q + m),
            grid::node(v, j) == q,
            grid::node(v, jb) == -q,
            self.bounds(i, jb) ==> 2 * q + m <= self.span(d, i, jb),
            self.bounds(i, ib) ==> 2 * q + 2 * m <= self.span(d, i, ib),
            self.bounds(j, jb) ==> 2 * q <= self.span(d, j, jb),
            self.bounds(ib, j) ==> -2 * q - m <= self.span(d, ib, j),
            self.bounds(ib, i) ==> -2 * q - 2 * m <= self.span(d, ib, i),
            self.bounds(jb, j) ==> -2 * q <= self.span(d, jb, j),
            0 <= x < 4,
            0 <= y < 4,
            self.bounds(x, y),
        ensures
            grid::node(v, x) - grid::node(v, y) <= self.span(d, x, y),
    {
        self.lemma_fact(d, x, y);
        assert(x == i || x == ib || x == j || x == jb);
        assert(y == i || y == ib || y == j || y == jb);
        assert(arith::mirror(ib) == i && arith::mirror(jb) == j);
    }

    /// How the bounds on two variables relate where they are there.
    #[verifier::spinoff_prover]
    proof fn lemma_two_relate(self, d: int, i: int, j: int, ib: int, jb: int, m: int)
        requires
            self.is_tight(d),
            self.has(i, j),
            self.has(ib, jb),
            ib == arith::mirror(i),
            jb == arith::mirror(j),
            self.allows(d, i, j, m),
        ensures
            meets(
                m,
                self.bounds(i, jb),
                self.span(d, i, jb),
                self.bounds(ib, j),
                self.span(d, ib, j),
                self.bounds(i, ib),
                self.span(d, i, ib),
                self.bounds(ib, i),
                self.span(d, ib, i),
                self.bounds(j, jb),
                self.span(d, j, jb),
                self.bounds(jb, j),
                self.span(d, jb, j),
            ),
    {
        assert(arith::mirror(ib) == i && arith::mirror(jb) == j);
        self.lemma_fact(d, i, j);
        self.lemma_fact(d, j, i);
        self.lemma_fact(d, i, jb);
        self.lemma_fact(d, ib, j);
        self.lemma_fact(d, i, ib);
        self.lemma_fact(d, ib, i);
        self.lemma_fact(d, j, jb);
        self.lemma_fact(d, jb, j);
        if self.bounds(ib, j) && self.bounds(i, jb) {
            self.lemma_path(d, i, jb, i);
            if d == 1 && self.span(d, i, jb) + self.span(d, ib, j) == 0 && self.bounds(i, j)
                && m == self.span(d, i, j) {
                // The sum of the two nodes is fixed. Were it of the other parity
                // than the difference, the bounds of single variables were lower.
                self.lemma_path(d, i, j, ib);
                self.lemma_path(d, jb, i, j);
                self.lemma_half(d, i, j);
                assert(self.span(d, i, ib) <= m + self.span(d, i, jb));
                assert(self.span(d, jb, j) <= self.span(d, ib, j) + m);
                assert(self.span(d, i, ib) == m + self.span(d, i, jb));
            }
        }
        if self.bounds(ib, j) && self.bounds(i, ib) {
            self.lemma_path(d, i, ib, j);
        }
        if self.bounds(ib, j) && self.bounds(j, jb) {
            self.lemma_path(d, j, jb, i);
        }
        if self.bounds(ib, i) && self.bounds(i, jb) {
            self.lemma_path(d, j, ib, i);
        }
        if self.bounds(ib, i) && self.bounds(i, ib) {
            self.lemma_path(d, i, ib, i);
        }
        if self.bounds(ib, i) && self.bounds(j, jb) {
            self.lemma_half(d, j, i);
        }
        if self.bounds(jb, j) && self.bounds(i, jb) {
            self.lemma_path(d, i, jb, j);
        }
        if self.bounds(jb, j) && self.bounds(i, ib) {
            self.lemma_half(d, i, j);
        }
        if self.bounds(jb, j) && self.bounds(j, jb) {
            self.lemma_path(d, j, jb, j);
        }
    }

    /// One coordinate with a given difference of its nodes.
    proof fn lemma_one(self, d: int, i: int, m: int) -> (v: Seq<int>)
        requires
            self.is_tight(d),
            self.n >= 2,
            i == 0 || i == 1,
            self.allows(d, i, arith::mirror(i), m),
            m % 2 == 0,
        ensures
            self.admits_prefix(v, d, 1),
            grid::node(v, i) - grid::node(v, arith::mirror(i)) == m,
    {
        reveal(Grid::is_tight);
        let v = seq![
            if i == 0 {
                m / 2
            } else {
                -(m / 2)
            },
        ];
        assert(self.at(0, 0) == 0 && self.at(1, 1) == 0);
        assert forall|x: int, y: int|
            0 <= x < 2 && 0 <= y < 2 && #[trigger] self.at(x, y) != DBM_INF implies grid::node(
            v,
            x,
        ) - grid::node(v, y) <= self.weight(d, x, y) by {
            reveal(Grid::bounds);
            reveal(Grid::span);
        }
        v
    }

    /// What the matrix allows, the exchanged one allows of the exchanged nodes.
    proof fn lemma_exchanged_allows(self, x: int, y: int, d: int, i: int, j: int, m: int)
        requires
            self.wf(),
            0 <= x < self.n / 2,
            0 <= y < self.n / 2,
            self.has(i, j),
            self.allows(d, exchanged(x, y, i), exchanged(x, y, j), m),
        ensures
            self.with_exchanged(x, y).allows(d, i, j, m),
    {
        reveal(Grid::bounds);
        reveal(Grid::span);
        self.lemma_exchanged_at(x, y, i, j);
        self.lemma_exchanged_at(x, y, j, i);
        self.lemma_exchanged_at(x, y, i, arith::mirror(j));
        assert(exchanged(x, y, arith::mirror(j)) == arith::mirror(exchanged(x, y, j)));
    }

    /// A point with a given difference of two nodes.
    #[verifier::spinoff_prover]
    proof fn lemma_reaches(self, d: int, i: int, j: int, m: int) -> (v: Seq<int>)
        requires
            self.is_tight(d),
            self.has(i, j),
            i != j,
            self.allows(d, i, j, m),
        ensures
            v.len() == self.n / 2,
            self.admits(v, d),
            grid::node(v, i) - grid::node(v, j) == m,
    {
        let (a, b) = (i / 2, j / 2);
        self.lemma_fact(d, i, j);
        assert(self.wf()) by {
            reveal(Grid::is_tight);
        }
        let g = self.with_exchanged(0, a);
        self.lemma_exchanged(0, a, d);
        let (i1, j1) = (exchanged(0, a, i), exchanged(0, a, j));
        assert(exchanged(0, a, i1) == i && exchanged(0, a, j1) == j);
        self.lemma_exchanged_allows(0, a, d, i1, j1, m);
        let w = if a == b {
            assert(j == arith::mirror(i) && j1 == arith::mirror(i1));
            let u = g.lemma_one(d, i1, m);
            let w = g.lemma_complete(d, u, 1);
            assert(w[0] == u[0]);
            w
        } else {
            let b1 = j1 / 2;
            assert(0 < b1 < self.n / 2);
            g.lemma_fact(d, i1, j1);
            let h = g.with_exchanged(1, b1);
            g.lemma_exchanged(1, b1, d);
            assert(g.wf()) by {
                reveal(Grid::is_tight);
            }
            let (i2, j2) = (exchanged(1, b1, i1), exchanged(1, b1, j1));
            assert(exchanged(1, b1, i2) == i1 && exchanged(1, b1, j2) == j1);
            g.lemma_exchanged_allows(1, b1, d, i2, j2, m);
            let u = h.lemma_two(d, i2, j2, m);
            let w = h.lemma_complete(d, u, 2);
            assert(w[0] == u[0] && w[1] == u[1]);
            g.lemma_exchanged_back(1, b1, w, d);
            let x = point_exchanged(w, 1, b1);
            assert(grid::node(x, i1) == grid::node(w, i2));
            assert(grid::node(x, j1) == grid::node(w, j2));
            x
        };
        self.lemma_exchanged_back(0, a, w, d);
        let v = point_exchanged(w, 0, a);
        assert(grid::node(v, i) == grid::node(w, i1));
        assert(grid::node(v, j) == grid::node(w, j1));
        v
    }

    /// Closing integer bounds, where nothing is clipped, gives a matrix to which
    /// the laws below apply: strong closing over the rationals, integer closing
    /// over the integers.
    pub proof fn law_closing_is_tight(self, exact: bool)
        requires
            self.wf(),
            self.coherent(),
            self.even(),
            self.closes_exactly(exact),
            self.closed_form(exact).ok,
        ensures
            self.closed_form(exact).grid.is_tight(
                if exact {
                    1
                } else {
                    4
                },
            ),
    {
        reveal(Grid::is_tight);
        self.law_closing_closes(exact);
        self.lemma_closed_form(exact);
        let g = self.closed_form(exact).grid;
        if exact {
            assert forall|i: int| 0 <= i < g.n implies #[trigger] g.at(i, arith::mirror(i))
                == DBM_INF || g.at(i, arith::mirror(i)) % 2 == 0 by {
                assert(g.has(i, arith::mirror(i)));
            }
        } else {
            assert forall|i: int| 0 <= i < self.n implies #[trigger] self.at(i, arith::mirror(i))
                == DBM_INF || self.at(i, arith::mirror(i)) % 2 == 0 by {
                assert(self.has(i, arith::mirror(i)));
            }
            self.lemma_closing_singles();
        }
    }

    /// Every bound of a strongly closed matrix is met by a point: no bound can
    /// be lowered without losing one. In the integer normal form the point is an
    /// integer one.
    pub proof fn law_bound_is_attained(self, d: int, i: int, j: int) -> (v: Seq<int>)
        requires
            self.is_tight(d),
            self.has(i, j),
            self.at(i, j) != DBM_INF,
        ensures
            v.len() == self.n / 2,
            self.admits(v, d),
            2 * (grid::node(v, i) - grid::node(v, j)) == d * self.at(i, j),
    {
        reveal(Grid::is_tight);
        reveal(Grid::bounds);
        reveal(Grid::span);
        if i == j {
            let v = self.law_closed_has_points(d);
            assert(self.at(i, i) == 0);
            assert(d * 0 == 0) by (nonlinear_arith);
            v
        } else {
            let m = self.weight(d, i, j);
            assert(d == 1 ==> self.at(i, j) % 2 == 0);
            assert(self.at(i, i) == 0);
            if self.at(j, i) != DBM_INF {
                self.lemma_weight_path(d, i, j, i);
            }
            let v = self.lemma_reaches(d, i, j, m);
            if d == 1 {
                assert(1 * self.at(i, j) == self.at(i, j));
            } else {
                assert(4 * self.at(i, j) == 2 * (2 * self.at(i, j)));
            }
            v
        }
    }

    /// Where a strongly closed matrix has no bound, there are points as far out
    /// as one likes, in the integer normal form integer ones.
    pub proof fn law_unbounded_goes_on(self, d: int, i: int, j: int, far: int) -> (v: Seq<int>)
        requires
            self.is_tight(d),
            self.has(i, j),
            self.at(i, j) == DBM_INF,
        ensures
            v.len() == self.n / 2,
            self.admits(v, d),
            grid::node(v, i) - grid::node(v, j) >= far,
    {
        self.lemma_fact(d, i, j);
        self.lemma_fact(d, i, arith::mirror(j));
        assert(!self.bounds(i, j)) by {
            reveal(Grid::bounds);
        }
        let w = self.span(d, j, i);
        let m = 2 * (if far > 0 {
            far
        } else {
            0
        } + if w < 0 {
            -w
        } else {
            0
        }) + self.span(d, i, arith::mirror(j)) % 2;
        self.lemma_reaches(d, i, j, m)
    }

    /// A join is the least matrix that has the points of both operands: any
    /// matrix that has them all has no lower bound anywhere. In the integer
    /// normal form this holds of the integer points.
    pub proof fn law_join_is_best(self, other: Grid, above: Grid, d: int)
        requires
            self.is_tight(d),
            other.is_tight(d),
            above.wf(),
            self.n == other.n,
            above.n == self.n,
            forall|v: Seq<int>| #[trigger] self.admits(v, d) ==> above.admits(v, d),
            forall|v: Seq<int>| #[trigger] other.admits(v, d) ==> above.admits(v, d),
        ensures
            self.max_with(other).below(above),
    {
        assert(self.wf() && other.wf()) by {
            reveal(Grid::is_tight);
        }
        self.lemma_max_with(other);
        let m = self.max_with(other);
        assert forall|i: int, j: int| m.has(i, j) implies #[trigger] m.at(i, j) <= above.at(
            i,
            j,
        ) by {
            assert(self.has(i, j) && other.has(i, j) && above.has(i, j));
            self.law_tight_is_least(above, d, i, j);
            other.law_tight_is_least(above, d, i, j);
            assert(self.at(i, i) == 0) by {
                reveal(Grid::is_tight);
            }
        }
    }

    /// A strongly closed matrix is the least with its points: any matrix that
    /// has them all has no lower bound anywhere.
    pub proof fn law_tight_is_least(self, above: Grid, d: int, i: int, j: int)
        requires
            self.is_tight(d),
            above.wf(),
            above.n == self.n,
            self.has(i, j),
            forall|v: Seq<int>| #[trigger] self.admits(v, d) ==> above.admits(v, d),
        ensures
            self.at(i, j) <= above.at(i, j),
    {
        reveal(Grid::is_tight);
        self.lemma_cell(i, j);
        above.lemma_cell(i, j);
        assert(above.has(i, j));
        assert(d == 1 || d == 4);
        if above.at(i, j) != DBM_INF {
            let v = if self.at(i, j) == DBM_INF {
                let a = above.at(i, j);
                self.law_unbounded_goes_on(
                    d,
                    i,
                    j,
                    if a > 0 {
                        2 * a + 1
                    } else {
                        1
                    },
                )
            } else {
                self.law_bound_is_attained(d, i, j)
            };
            assert(above.admits(v, d));
            assert(2 * (grid::node(v, i) - grid::node(v, j)) <= d * above.at(i, j));
            if d == 1 {
                assert(1 * above.at(i, j) == above.at(i, j) && 1 * self.at(i, j) == self.at(i, j));
            } else {
                assert(4 * above.at(i, j) == 2 * (2 * above.at(i, j)));
                assert(4 * self.at(i, j) == 2 * (2 * self.at(i, j)));
            }
        }
    }
}

// ---------------------------------------------------------------------------
// Any strongly closed matrix
// ---------------------------------------------------------------------------

impl Grid {
    /// Every bound doubled.
    spec fn doubled(self) -> Grid {
        Grid {
            n: self.n,
            cells: Seq::new(
                self.cells.len(),
                |t: int|
                    if self.cells[t] == DBM_INF {
                        DBM_INF
                    } else {
                        (2 * self.cells[t]) as i128
                    },
            ),
        }
    }

    proof fn lemma_doubled(self)
        requires
            self.wf(),
            self.strongly_closed(),
            self.small(ROOM as int),
        ensures
            self.doubled().wf(),
            self.doubled().n == self.n,
            forall|i: int, j: int|
                self.has(i, j) ==> #[trigger] self.doubled().at(i, j) == (if self.at(i, j)
                    == DBM_INF {
                    DBM_INF as int
                } else {
                    2 * self.at(i, j)
                }),
            self.doubled().coherent(),
            self.doubled().zero_diagonal(),
            self.doubled().small(2 * ROOM),
            forall|c: int| 0 <= c < self.n ==> #[trigger] self.doubled().closed_at(c),
    {
        let g = self.doubled();
        assert forall|i: int, j: int| self.has(i, j) implies #[trigger] g.at(i, j) == (if self.at(
            i,
            j,
        ) == DBM_INF {
            DBM_INF as int
        } else {
            2 * self.at(i, j)
        }) && exact::fits(g.at(i, j), 2 * ROOM) by {
            Grid::lemma_index(self.n, i, j);
            assert(exact::fits(self.at(i, j), ROOM as int));
        }
        assert forall|t: int| 0 <= t < g.cells.len() implies #[trigger] g.cells[t] <= DBM_INF by {
            Grid::lemma_unindex(self.n, t);
            assert(g.at(t / g.n, t % g.n) == g.cells[t]);
            assert(self.has(t / g.n, t % g.n));
        }
        assert forall|i: int, j: int| #[trigger] g.has(i, j) implies g.at(i, j) == g.at(
            arith::mirror(j),
            arith::mirror(i),
        ) by {
            assert(self.has(i, j) && self.has(arith::mirror(j), arith::mirror(i)));
        }
        assert forall|i: int| 0 <= i < g.n implies #[trigger] g.at(i, i) == 0 by {
            assert(self.has(i, i));
            assert(self.at(i, i) == 0);
        }
        assert forall|c: int| 0 <= c < self.n implies #[trigger] g.closed_at(c) by {
            assert forall|i: int, j: int|
                #![trigger g.at(i, c), g.at(c, j)]
                g.has(i, c) && g.has(c, j) implies g.at(i, j) <= arith::oplus(
                g.at(i, c),
                g.at(c, j),
            ) by {
                assert(self.has(i, c) && self.has(c, j) && self.has(i, j));
                assert(self.at(i, j) <= arith::oplus(self.at(i, c), self.at(c, j)));
                assert(exact::fits(self.at(i, c), ROOM as int));
                assert(exact::fits(self.at(c, j), ROOM as int));
                assert(exact::fits(self.at(i, j), ROOM as int));
            }
        }
    }

    /// With its bounds doubled and the half-sums taken again, a strongly closed
    /// matrix is tight: no half-sum is rounded.
    proof fn lemma_doubled_is_tight(self)
        requires
            self.wf(),
            self.strongly_closed(),
            self.small(ROOM as int),
        ensures
            self.doubled().halved_all().n == self.n,
            self.doubled().halved_all().is_tight(4),
            forall|i: int, j: int|
                self.has(i, j) ==> #[trigger] self.doubled().halved_all().at(i, j) == grid::min2(
                    self.doubled().at(i, j),
                    self.doubled().half_sum(i, j),
                ),
    {
        let g = self.doubled();
        let n = self.n;
        self.lemma_doubled();
        assert(g.small(3 * ROOM)) by {
            assert forall|i: int, j: int| g.has(i, j) implies exact::fits(
                #[trigger] g.at(i, j),
                3 * ROOM,
            ) by {
                assert(exact::fits(g.at(i, j), 2 * ROOM));
            }
        }
        assert(g.nonnegative_diagonal()) by {
            assert forall|i: int| 0 <= i < g.n implies #[trigger] g.at(i, i) >= 0 by {}
        }
        let h = g.halved_all();
        Grid::lemma_square(n);
        g.lemma_halved_cells(n * n);
        g.lemma_halved_shape();
        assert forall|i: int, j: int| self.has(i, j) implies #[trigger] h.at(i, j) == grid::min2(
            g.at(i, j),
            g.half_sum(i, j),
        ) by {
            Grid::lemma_index(n, i, j);
        }
        assert forall|i: int, j: int| h.has(i, j) implies exact::fits(
            #[trigger] h.at(i, j),
            2 * ROOM,
        ) by {
            let (ib, jb) = (arith::mirror(i), arith::mirror(j));
            assert(g.has(i, j) && g.has(i, ib) && g.has(jb, j) && self.has(i, j));
            assert(exact::fits(g.at(i, j), 2 * ROOM));
            assert(exact::fits(g.at(i, ib), 2 * ROOM) && exact::fits(g.at(jb, j), 2 * ROOM));
        }
        assert forall|i: int| 0 <= i < h.n implies #[trigger] h.at(i, i) == 0 by {
            let ib = arith::mirror(i);
            assert(g.has(i, i) && g.has(i, ib) && g.has(ib, i) && self.has(i, i));
            assert(g.closed_at(ib));
            assert(g.at(i, i) <= arith::oplus(g.at(i, ib), g.at(ib, i)));
            assert(g.at(i, i) == 0);
            assert(exact::fits(g.at(i, ib), 2 * ROOM) && exact::fits(g.at(ib, i), 2 * ROOM));
        }
        assert forall|i: int, k: int, j: int|
            #![trigger h.at(i, k), h.at(k, j)]
            h.has(i, k) && h.has(k, j) implies h.at(i, j) <= arith::oplus(
            h.at(i, k),
            h.at(k, j),
        ) by {
            assert(g.closed_at(k) && g.closed_at(arith::mirror(k)));
            g.lemma_halved_keeps(k);
            assert(h.closed_at(k));
        }
        assert forall|i: int| 0 <= i < h.n implies #[trigger] h.at(i, arith::mirror(i)) == DBM_INF
            || h.at(i, arith::mirror(i)) % 2 == 0 by {
            assert(self.has(i, arith::mirror(i)));
            assert(h.at(i, arith::mirror(i)) == g.at(i, arith::mirror(i)));
        }
        reveal(Grid::is_tight);
    }

    /// Any strongly closed matrix is the least with its points, though half-sums
    /// are rounded up: a matrix that has them all, in eighths, has no lower bound
    /// anywhere.
    pub proof fn law_closed_is_least(self, above: Grid, i: int, j: int)
        requires
            self.wf(),
            self.strongly_closed(),
            self.small(ROOM as int),
            above.wf(),
            above.n == self.n,
            self.has(i, j),
            forall|v: Seq<int>| #[trigger] self.admits(v, 8) ==> above.admits(v, 8),
        ensures
            self.at(i, j) <= above.at(i, j),
    {
        let g = self.doubled();
        let h = g.halved_all();
        let (ib, jb) = (arith::mirror(i), arith::mirror(j));
        self.lemma_doubled();
        self.lemma_doubled_is_tight();
        self.lemma_cell(i, j);
        above.lemma_cell(i, j);
        assert(above.has(i, j) && self.has(i, ib) && self.has(jb, j));
        assert(self.at(i, j) <= self.half_sum(i, j));
        assert(exact::fits(self.at(i, j), ROOM as int));
        assert(exact::fits(self.at(i, ib), ROOM as int));
        assert(exact::fits(self.at(jb, j), ROOM as int));
        assert(g.at(i, ib) == if self.at(i, ib) == DBM_INF {
            DBM_INF as int
        } else {
            2 * self.at(i, ib)
        });
        assert(g.at(jb, j) == if self.at(jb, j) == DBM_INF {
            DBM_INF as int
        } else {
            2 * self.at(jb, j)
        });
        if above.at(i, j) != DBM_INF {
            let a = above.at(i, j);
            let v = if h.at(i, j) == DBM_INF {
                h.law_unbounded_goes_on(
                    4,
                    i,
                    j,
                    if a > 0 {
                        4 * a + 1
                    } else {
                        1
                    },
                )
            } else {
                h.law_bound_is_attained(4, i, j)
            };
            self.lemma_doubled_points(v);
            assert(above.admits(v, 8));
            assert(2 * (grid::node(v, i) - grid::node(v, j)) <= 8 * a);
        }
    }

    proof fn lemma_doubled_points(self, v: Seq<int>)
        requires
            self.wf(),
            self.strongly_closed(),
            self.small(ROOM as int),
            self.doubled().halved_all().admits(v, 4),
        ensures
            self.admits(v, 8),
    {
        let g = self.doubled();
        let h = g.halved_all();
        self.lemma_doubled();
        self.lemma_doubled_is_tight();
        assert forall|a: int, b: int|
            self.has(a, b) && #[trigger] self.at(a, b) != DBM_INF implies 2 * (grid::node(v, a)
            - grid::node(v, b)) <= 8 * self.at(a, b) by {
            assert(h.has(a, b));
            assert(g.at(a, b) == 2 * self.at(a, b));
            assert(h.at(a, b) <= g.at(a, b));
            assert(exact::fits(self.at(a, b), ROOM as int));
            assert(2 * (grid::node(v, a) - grid::node(v, b)) <= 4 * h.at(a, b));
        }
    }

    /// The join of any two strongly closed matrices is the least matrix that has
    /// the rational points of both.
    pub proof fn law_join_is_least(self, other: Grid, above: Grid)
        requires
            self.wf(),
            self.strongly_closed(),
            self.small(ROOM as int),
            other.wf(),
            other.strongly_closed(),
            other.small(ROOM as int),
            above.wf(),
            self.n == other.n,
            above.n == self.n,
            forall|v: Seq<int>| #[trigger] self.admits(v, 8) ==> above.admits(v, 8),
            forall|v: Seq<int>| #[trigger] other.admits(v, 8) ==> above.admits(v, 8),
        ensures
            self.max_with(other).below(above),
    {
        self.lemma_max_with(other);
        let m = self.max_with(other);
        assert forall|i: int, j: int| m.has(i, j) implies #[trigger] m.at(i, j) <= above.at(
            i,
            j,
        ) by {
            assert(self.has(i, j) && other.has(i, j) && above.has(i, j));
            self.law_closed_is_least(above, i, j);
            other.law_closed_is_least(above, i, j);
            assert(self.at(i, i) == 0);
        }
    }
}

} // verus!
