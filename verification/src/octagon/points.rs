//! Solutions that lie close: where the bounds are small and there is a solution,
//! there is one with small coordinates.
use vstd::prelude::*;
use crate::octagon::arith::DBM_INF;
use crate::octagon::exact;
use crate::octagon::grid;
use crate::octagon::grid::Grid;

verus! {

/// The magnitude of a number.
pub open spec fn magnitude(x: int) -> int {
    if x < 0 {
        -x
    } else {
        x
    }
}

/// The magnitudes of the coordinates, added up.
pub open spec fn total(v: Seq<int>) -> int
    decreases v.len(),
{
    if v.len() == 0 {
        0
    } else {
        total(v.drop_last()) + magnitude(v.last())
    }
}

/// How many coordinates are of at most this magnitude.
spec fn inside(v: Seq<int>, b: int) -> int
    decreases v.len(),
{
    if v.len() == 0 {
        0
    } else {
        inside(v.drop_last(), b) + if magnitude(v.last()) <= b {
            1int
        } else {
            0
        }
    }
}

proof fn lemma_total_less(v: Seq<int>, w: Seq<int>, y: int)
    requires
        v.len() == w.len(),
        forall|x: int| 0 <= x < v.len() ==> magnitude(#[trigger] w[x]) <= magnitude(v[x]),
        0 <= y <= v.len(),
        y < v.len() ==> magnitude(w[y]) < magnitude(v[y]),
    ensures
        0 <= total(w) <= total(v),
        y < v.len() ==> total(w) < total(v),
    decreases v.len(),
{
    if v.len() > 0 {
        let (a, b) = (v.drop_last(), w.drop_last());
        assert forall|x: int| 0 <= x < a.len() implies magnitude(#[trigger] b[x]) <= magnitude(
            a[x],
        ) by {
            assert(b[x] == w[x]);
        }
        lemma_total_less(
            a,
            b,
            if y < a.len() {
                y
            } else {
                a.len() as int
            },
        );
        assert(magnitude(w[w.len() - 1]) <= magnitude(v[v.len() - 1]));
    }
}

/// A wider bound holds as many, and one more where one lies in between.
proof fn lemma_inside_grows(v: Seq<int>, a: int, b: int, y: int)
    requires
        a <= b,
        0 <= y <= v.len(),
        y < v.len() ==> a < magnitude(v[y]) <= b,
    ensures
        0 <= inside(v, a) <= inside(v, b) <= v.len(),
        y < v.len() ==> inside(v, a) < inside(v, b),
    decreases v.len(),
{
    if v.len() > 0 {
        let w = v.drop_last();
        lemma_inside_grows(
            w,
            a,
            b,
            if y < w.len() {
                y
            } else {
                w.len() as int
            },
        );
    }
}

proof fn lemma_not_all_inside(v: Seq<int>, b: int, y: int)
    requires
        0 <= y < v.len(),
        magnitude(v[y]) > b,
    ensures
        inside(v, b) < v.len(),
    decreases v.len(),
{
    let w = v.drop_last();
    lemma_inside_grows(w, b, b, w.len() as int);
    if y < w.len() {
        lemma_not_all_inside(w, b, y);
    }
}

/// No coordinate lies in this band.
spec fn is_empty_band(v: Seq<int>, g: int, m: int) -> bool {
    forall|x: int|
        0 <= x < v.len() ==> magnitude(#[trigger] v[x]) <= m * g || magnitude(v[x]) > (m + 1) * g
}

/// One of the first `b` bands is empty, or each holds a coordinate.
proof fn lemma_bands(v: Seq<int>, g: int, b: int) -> (found: Option<int>)
    requires
        g > 0,
        0 <= b,
    ensures
        match found {
            Some(m) => 0 <= m < b && is_empty_band(v, g, m),
            None => inside(v, b * g) >= b,
        },
    decreases b,
{
    if b == 0 {
        lemma_inside_grows(v, 0, 0, v.len() as int);
        None
    } else {
        let found = lemma_bands(v, g, b - 1);
        assert(b * g == (b - 1) * g + g) by (nonlinear_arith);
        if found is Some {
            found
        } else if is_empty_band(v, g, b - 1) {
            Some(b - 1)
        } else {
            let y = choose|y: int|
                0 <= y < v.len() && !(magnitude(#[trigger] v[y]) <= (b - 1) * g || magnitude(v[y])
                    > (b - 1 + 1) * g);
            lemma_inside_grows(v, (b - 1) * g, b * g, y);
            None
        }
    }
}

/// The coordinates beyond a magnitude pulled in by one.
spec fn pulled(v: Seq<int>, theta: int) -> Seq<int> {
    Seq::new(
        v.len(),
        |x: int|
            if v[x] > theta {
                v[x] - 1
            } else if v[x] < -theta {
                v[x] + 1
            } else {
                v[x]
            },
    )
}

impl Grid {
    /// Where no coordinate lies just beyond the magnitude, pulling in those
    /// beyond it keeps a solution.
    proof fn lemma_pulled(self, v: Seq<int>, r: int, theta: int)
        requires
            self.n % 2 == 0,
            v.len() == self.n / 2,
            self.small(r),
            0 <= r,
            0 <= theta,
            self.admits(v, 4),
            forall|x: int|
                0 <= x < v.len() ==> magnitude(#[trigger] v[x]) <= theta || magnitude(v[x]) > theta
                    + 2 * r + 1,
        ensures
            self.admits(pulled(v, theta), 4),
    {
        let w = pulled(v, theta);
        assert forall|i: int, j: int|
            self.has(i, j) && #[trigger] self.at(i, j) != DBM_INF implies 2 * (grid::node(w, i)
            - grid::node(w, j)) <= 4 * self.at(i, j) by {
            assert(exact::fits(self.at(i, j), r));
            assert(2 * (grid::node(v, i) - grid::node(v, j)) <= 4 * self.at(i, j));
            let (x, y) = (i / 2, j / 2);
            assert(0 <= x < v.len() && 0 <= y < v.len());
            assert(magnitude(v[x]) <= theta || magnitude(v[x]) > theta + 2 * r + 1);
            assert(magnitude(v[y]) <= theta || magnitude(v[y]) > theta + 2 * r + 1);
        }
    }

    /// Where there is a solution, there is one with small coordinates.
    pub proof fn law_solutions_lie_close(self, v: Seq<int>, r: int) -> (w: Seq<int>)
        requires
            self.n % 2 == 0,
            v.len() == self.n / 2,
            self.small(r),
            0 <= r,
            self.admits(v, 4),
        ensures
            w.len() == self.n / 2,
            self.admits(w, 4),
            forall|x: int|
                0 <= x < w.len() ==> magnitude(#[trigger] w[x]) <= (self.n / 2) * (2 * r + 1),
        decreases total(v),
    {
        let g = 2 * r + 1;
        let m = v.len() as int;
        if forall|x: int| 0 <= x < v.len() ==> magnitude(#[trigger] v[x]) <= m * g {
            v
        } else {
            let y = choose|y: int| 0 <= y < v.len() && !(magnitude(#[trigger] v[y]) <= m * g);
            lemma_not_all_inside(v, m * g, y);
            let found = lemma_bands(v, g, m);
            let b = found->Some_0;
            let theta = b * g;
            assert((b + 1) * g == theta + g) by (nonlinear_arith)
                requires
                    theta == b * g,
            ;
            assert(0 <= theta && theta < m * g) by (nonlinear_arith)
                requires
                    theta == b * g,
                    0 <= b < m,
                    g > 0,
            ;
            self.lemma_pulled(v, r, theta);
            let w = pulled(v, theta);
            lemma_total_less(v, w, y);
            self.law_solutions_lie_close(w, r)
        }
    }
}

} // verus!
