//! Difference-bound matrices and their lattice and transfer operations.
use vstd::prelude::*;
use crate::octagon::arith;
use crate::octagon::arith::{
    half_floor, mirror_index, sat_add, sat_mul2, sat_mul2_bound, sat_neg, sat_sub, DBM_INF,
};
use crate::octagon::closure;
use crate::octagon::closure::{close_cells, load, store};
use crate::octagon::expr::OctExpr;
use crate::octagon::grid;
use crate::octagon::grid::Grid;

verus! {

/// Stored bounds at or below this one can add up to less than the lowest
/// bound that closing writes.
pub const CORNER: i128 = -0x3FFF_FFFF_FFFF_FFFF_FFFF_FFFF_FFFF_FFFF;

/// How to close: over the rationals, or over the integers only.
#[derive(Clone, Copy, PartialEq, Eq, Debug, Structural)]
pub enum ClosureMode {
    /// Strong closure, sound over rationals and integers.
    Strong,
    /// Strong closure followed by integer tightening, sound over integers.
    IntegerExact,
}

/// A set of octagonal constraints over `size / 2` variables.
#[derive(Debug)]
pub struct Dbm {
    /// Twice the number of variables.
    pub size: usize,
    /// The `size * size` cells, row by row; each holds twice the bound.
    pub m: Vec<i128>,
    /// Whether the constraints are known to contradict each other.
    pub bottom: bool,
    /// Whether the matrix was closed after the last bound was added.
    pub closed: bool,
}

/// The mathematical content of a `Dbm`.
#[verifier::ext_equal]
pub struct Oct {
    pub grid: Grid,
    pub bottom: bool,
    pub closed: bool,
}

impl View for Dbm {
    type V = Oct;

    open spec fn view(&self) -> Oct {
        Oct {
            grid: closure::grid_of(self.m, self.size),
            bottom: self.bottom,
            closed: self.closed,
        }
    }
}

impl Grid {
    /// The cell `(i, j)` lowered to the stored bound `s`.
    pub open spec fn lowered(self, i: int, j: int, s: int) -> Grid {
        self.put(i, j, grid::min2(self.at(i, j), s))
    }

    /// The constraint `node i - node j <= c` and its mirror added.
    pub open spec fn bounded(self, i: int, j: int, c: int) -> Grid {
        let s = arith::spec_sat_mul2_bound(c);
        self.lowered(i, j, s).lowered(arith::mirror(j), arith::mirror(i), s)
    }

    /// The matrix without a constraint over `n` nodes.
    pub open spec fn free(n: int) -> Grid {
        Grid {
            n,
            cells: Seq::new(
                (n * n) as nat,
                |t: int|
                    if t / n == t % n {
                        0i128
                    } else {
                        DBM_INF
                    },
            ),
        }
    }

    /// Every constraint on the variable `x` dropped.
    pub open spec fn dropped(self, x: int) -> Grid {
        Grid {
            n: self.n,
            cells: Seq::new(
                self.cells.len(),
                |t: int|
                    if (t / self.n) / 2 == x || (t % self.n) / 2 == x {
                        if t / self.n == t % self.n {
                            0i128
                        } else {
                            DBM_INF
                        }
                    } else {
                        self.cells[t]
                    },
            ),
        }
    }

    /// Cell by cell, the tighter of two matrices.
    pub open spec fn min_with(self, other: Grid) -> Grid {
        Grid {
            n: self.n,
            cells: Seq::new(
                self.cells.len(),
                |t: int|
                    if other.cells[t] < self.cells[t] {
                        other.cells[t]
                    } else {
                        self.cells[t]
                    },
            ),
        }
    }

    /// Cell by cell, the looser of two matrices, with a zero diagonal.
    pub open spec fn max_with(self, other: Grid) -> Grid {
        Grid {
            n: self.n,
            cells: Seq::new(
                self.cells.len(),
                |t: int|
                    if t / self.n == t % self.n {
                        0i128
                    } else if other.cells[t] > self.cells[t] {
                        other.cells[t]
                    } else {
                        self.cells[t]
                    },
            ),
        }
    }

    /// The bounds of `self` that `other` keeps; the others are lost.
    pub open spec fn widened(self, other: Grid) -> Grid {
        Grid {
            n: self.n,
            cells: Seq::new(
                self.cells.len(),
                |t: int|
                    if other.cells[t] <= self.cells[t] {
                        self.cells[t]
                    } else {
                        DBM_INF
                    },
            ),
        }
    }

    /// Some finite cell is low enough for a path sum to leave the range.
    pub open spec fn has_corner(self) -> bool {
        exists|i: int, j: int|
            self.has(i, j) && #[trigger] self.at(i, j) != DBM_INF && self.at(i, j) <= CORNER
    }

    /// The cell `(i, j)` when `delta`, in stored units, is added to `x`.
    pub open spec fn shifted_cell(self, x: int, delta: int, i: int, j: int) -> int {
        let a = self.at(i, j);
        let b = if i == 2 * x {
            arith::spec_sat_add(a, delta)
        } else {
            a
        };
        let c = if j == 2 * x {
            arith::spec_sat_sub(b, delta)
        } else {
            b
        };
        let d = if i == 2 * x + 1 {
            arith::spec_sat_sub(c, delta)
        } else {
            c
        };
        if j == 2 * x + 1 {
            arith::spec_sat_add(d, delta)
        } else {
            d
        }
    }

    /// Whether shifting the cell `(i, j)` runs into one of the two markers.
    pub open spec fn shift_clips(self, x: int, delta: int, i: int, j: int) -> bool {
        let a = self.at(i, j);
        let b = if i == 2 * x {
            arith::spec_sat_add(a, delta)
        } else {
            a
        };
        let c = if j == 2 * x {
            arith::spec_sat_sub(b, delta)
        } else {
            b
        };
        let d = if i == 2 * x + 1 {
            arith::spec_sat_sub(c, delta)
        } else {
            c
        };
        let e = if j == 2 * x + 1 {
            arith::spec_sat_add(d, delta)
        } else {
            d
        };
        clipped(a, b) || clipped(b, c) || clipped(c, d) || clipped(d, e)
    }

    /// Every cell shifted by adding `delta`, in stored units, to `x`.
    pub open spec fn shifted(self, x: int, delta: int) -> Grid {
        Grid {
            n: self.n,
            cells: Seq::new(
                self.cells.len(),
                |t: int|
                    if t / self.n == t % self.n && (t / self.n) / 2 == x {
                        0i128
                    } else {
                        self.shifted_cell(x, delta, t / self.n, t % self.n) as i128
                    },
            ),
        }
    }

    /// Whether the shift is not exact everywhere.
    pub open spec fn shift_saturates(self, x: int, delta: int) -> bool {
        self.has_corner() || exists|i: int, j: int|
            self.has(i, j) && #[trigger] self.shift_clips(x, delta, i, j)
    }
}

/// A value that moved onto one of the two markers.
pub open spec fn clipped(before: int, after: int) -> bool {
    (after == DBM_INF && before != DBM_INF) || (after == i128::MIN && before != i128::MIN)
}

/// Whether four times `c`, with either sign, can be stored exactly.
pub open spec fn quadruple_fits(c: int) -> bool {
    i128::MIN < 4 * c < DBM_INF
}

impl Oct {
    /// The contradiction.
    pub open spec fn contradiction() -> Oct {
        Oct { grid: Grid { n: 0, cells: Seq::empty() }, bottom: true, closed: true }
    }

    /// The strong closure of a matrix, or the contradiction.
    pub open spec fn settled(g: Grid) -> Oct {
        let v = g.closed_form(false);
        if v.ok {
            Oct { grid: v.grid, bottom: false, closed: true }
        } else {
            Oct::contradiction()
        }
    }

    /// The octagon whose matrix is `g`, closed; the contradiction stays one.
    pub open spec fn refined(self, g: Grid) -> Oct {
        if self.bottom {
            Oct::contradiction()
        } else {
            Oct::settled(g)
        }
    }

    /// The result of dropping every constraint on `x`.
    pub open spec fn forgotten(self, x: int) -> Oct {
        self.refined(self.grid.dropped(x))
    }

    /// The result of adding `c` to the variable `x`.
    pub open spec fn added(self, x: int, c: int) -> Oct {
        let delta = arith::spec_sat_mul2(c);
        if self.bottom {
            Oct::contradiction()
        } else if delta == DBM_INF || delta == i128::MIN {
            self.forgotten(x)
        } else if self.grid.shift_saturates(x, delta) {
            Oct::settled(self.grid.shifted(x, delta))
        } else {
            Oct { grid: self.grid.shifted(x, delta), bottom: false, closed: true }
        }
    }

    /// The result of giving `x` values between `lo` and `hi`, where those can
    /// be stored, and forgetting what was known of it.
    pub open spec fn boxed(self, x: int, lo: Option<int>, hi: Option<int>) -> Oct {
        let g0 = self.grid.dropped(x);
        let g1 = match hi {
            Some(h) => g0.bounded(2 * x, 2 * x + 1, arith::spec_sat_mul2(h)),
            None => g0,
        };
        let g2 = match lo {
            Some(l) => g1.bounded(
                2 * x + 1,
                2 * x,
                arith::spec_sat_mul2(arith::spec_sat_neg(l)),
            ),
            None => g1,
        };
        self.refined(g2)
    }

    /// The result of `x := y + c` for two different variables.
    pub open spec fn copied(self, x: int, y: int, c: int) -> Oct {
        self.refined(
            self.grid.dropped(x).bounded(2 * x, 2 * y, c).bounded(
                2 * y,
                2 * x,
                arith::spec_sat_neg(c),
            ),
        )
    }

    /// The bound on `node i - node j`, rounded down to an integer.
    pub open spec fn bound(self, i: int, j: int) -> Option<int> {
        if self.bottom || !self.grid.has(i, j) || self.grid.at(i, j) == DBM_INF {
            None
        } else {
            Some(self.grid.at(i, j) / 2)
        }
    }

    /// The upper bound of the variable `x`.
    pub open spec fn upper(self, x: int) -> Option<int> {
        match self.bound(2 * x, 2 * x + 1) {
            Some(v) => Some(v / 2),
            None => None,
        }
    }

    /// The lower bound of the variable `x`, where it can be represented.
    pub open spec fn lower(self, x: int) -> Option<int> {
        match self.bound(2 * x + 1, 2 * x) {
            Some(v) => if arith::spec_sat_neg(v / 2) == DBM_INF {
                None
            } else {
                Some(arith::spec_sat_neg(v / 2))
            },
            None => None,
        }
    }
}

/// Equality compares the constraints, not the record of closing.
impl PartialEq for Dbm {
    fn eq(&self, other: &Self) -> (r: bool) {
        self.size == other.size && same_cells(&self.m, &other.m) && self.bottom == other.bottom
    }
}

impl vstd::std_specs::cmp::PartialEqSpecImpl for Dbm {
    open spec fn obeys_eq_spec() -> bool {
        true
    }

    open spec fn eq_spec(&self, other: &Self) -> bool {
        self.size == other.size && self.m@ == other.m@ && self.bottom == other.bottom
    }
}

/// Whether two vectors hold the same cells.
fn same_cells(a: &Vec<i128>, b: &Vec<i128>) -> (r: bool)
    ensures
        r == (a@ == b@),
{
    if a.len() != b.len() {
        return false;
    }
    let mut t: usize = 0;
    while t < a.len()
        invariant
            a@.len() == b@.len(),
            0 <= t <= a@.len(),
            forall|u: int| 0 <= u < t ==> #[trigger] a@[u] == b@[u],
        decreases a.len() - t,
    {
        if a[t] != b[t] {
            assert(a@[t as int] != b@[t as int]);
            return false;
        }
        t += 1;
    }
    assert(a@ =~= b@);
    true
}

impl Clone for Dbm {
    fn clone(&self) -> (r: Self)
        ensures
            r@ == self@,
    {
        let mut m: Vec<i128> = Vec::new();
        let mut t: usize = 0;
        while t < self.m.len()
            invariant
                0 <= t <= self.m@.len(),
                m@ =~= self.m@.subrange(0, t as int),
            decreases self.m.len() - t,
        {
            m.push(self.m[t]);
            t += 1;
        }
        assert(m@ =~= self.m@);
        Dbm { size: self.size, m, bottom: self.bottom, closed: self.closed }
    }
}

/// The integer that an optional bound holds.
pub open spec fn bound_value(b: Option<i128>) -> Option<int> {
    match b {
        Some(v) => Some(v as int),
        None => None,
    }
}

/// Adds the constraint `node i - node j <= c` and its mirror to raw cells.
fn set_mirrored_internal(m: &mut Vec<i128>, i: usize, j: usize, c: i128, size: usize)
    requires
        closure::grid_of(*old(m), size).wf(),
        i < size,
        j < size,
    ensures
        closure::grid_of(*final(m), size) == closure::grid_of(*old(m), size).bounded(
            i as int,
            j as int,
            c as int,
        ),
        closure::grid_of(*final(m), size).wf(),
{
    let stored: i128 = sat_mul2_bound(c);
    lower(m, size, i, j, stored);
    let ib: usize = mirror_index(i);
    let jb: usize = mirror_index(j);
    lower(m, size, jb, ib, stored);
}

/// Lowers one cell to a stored bound.
fn lower(m: &mut Vec<i128>, size: usize, i: usize, j: usize, s: i128) -> (changed: bool)
    requires
        closure::grid_of(*old(m), size).wf(),
        i < size,
        j < size,
    ensures
        closure::grid_of(*final(m), size) == closure::grid_of(*old(m), size).lowered(
            i as int,
            j as int,
            s as int,
        ),
        closure::grid_of(*final(m), size).wf(),
        changed == (s < closure::grid_of(*old(m), size).at(i as int, j as int)),
{
    let v: i128 = load(m, size, i, j);
    if s < v {
        store(m, size, i, j, s);
        true
    } else {
        proof {
            let g = closure::grid_of(*m, size);
            g.lemma_put(i as int, j as int, v as int);
            g.put(i as int, j as int, v as int).lemma_ext(g);
        }
        false
    }
}

/// The cells of the matrix without the constraints on one variable.
fn drop_cells(m: &Vec<i128>, size: usize, x: usize) -> (r: Vec<i128>)
    requires
        closure::grid_of(*m, size).wf(),
        x < size / 2,
    ensures
        closure::grid_of(r, size) == closure::grid_of(*m, size).dropped(x as int),
        closure::grid_of(r, size).wf(),
{
    let ghost n = size as int;
    let ghost goal = closure::grid_of(*m, size).dropped(x as int).cells;
    let mut r: Vec<i128> = Vec::new();
    let mut i: usize = 0;
    assert(0 * n == 0);
    while i < size
        invariant
            n == size,
            closure::grid_of(*m, size).wf(),
            goal == closure::grid_of(*m, size).dropped(x as int).cells,
            0 <= i <= size,
            r@.len() == i * n,
            forall|u: int| 0 <= u < r@.len() ==> #[trigger] r@[u] == goal[u],
        decreases size - i,
    {
        let mut j: usize = 0;
        while j < size
            invariant
                n == size,
                closure::grid_of(*m, size).wf(),
                goal == closure::grid_of(*m, size).dropped(x as int).cells,
                0 <= i < size,
                0 <= j <= size,
                r@.len() == i * n + j,
                forall|u: int| 0 <= u < r@.len() ==> #[trigger] r@[u] == goal[u],
            decreases size - j,
        {
            proof {
                Grid::lemma_index(n, i as int, j as int);
            }
            let v: i128 = load(m, size, i, j);
            if i / 2 == x || j / 2 == x {
                if i == j {
                    r.push(0);
                } else {
                    r.push(DBM_INF);
                }
            } else {
                r.push(v);
            }
            j += 1;
        }
        proof {
            Grid::lemma_index(n, i as int, 0);
        }
        i += 1;
    }
    assert(r@ =~= goal);
    r
}

/// The cells of a matrix without a constraint.
fn free_cells(size: usize) -> (r: Vec<i128>)
    requires
        size % 2 == 0,
        size * size <= usize::MAX,
    ensures
        closure::grid_of(r, size) == Grid::free(size as int),
        closure::grid_of(r, size).wf(),
{
    let ghost n = size as int;
    let ghost goal = Grid::free(n).cells;
    let mut r: Vec<i128> = Vec::new();
    let mut i: usize = 0;
    assert(0 * n == 0);
    assert(n * n >= 0) by (nonlinear_arith);
    while i < size
        invariant
            n == size,
            goal == Grid::free(n).cells,
            goal.len() == n * n,
            0 <= i <= size,
            r@.len() == i * n,
            forall|u: int| 0 <= u < r@.len() ==> #[trigger] r@[u] == goal[u],
            forall|u: int| 0 <= u < r@.len() ==> #[trigger] r@[u] <= DBM_INF,
        decreases size - i,
    {
        let mut j: usize = 0;
        while j < size
            invariant
                n == size,
                goal == Grid::free(n).cells,
                goal.len() == n * n,
                0 <= i < size,
                0 <= j <= size,
                r@.len() == i * n + j,
                forall|u: int| 0 <= u < r@.len() ==> #[trigger] r@[u] == goal[u],
                forall|u: int| 0 <= u < r@.len() ==> #[trigger] r@[u] <= DBM_INF,
            decreases size - j,
        {
            proof {
                Grid::lemma_index(n, i as int, j as int);
            }
            if i == j {
                r.push(0);
            } else {
                r.push(DBM_INF);
            }
            j += 1;
        }
        proof {
            Grid::lemma_index(n, i as int, 0);
        }
        i += 1;
    }
    assert(r@ =~= goal);
    r
}

/// Whether the step from `before` to `after` ran into a marker.
fn runs_into_marker(before: i128, after: i128) -> (r: bool)
    ensures
        r == clipped(before as int, after as int),
{
    (after == DBM_INF && before != DBM_INF) || (after == i128::MIN && before != i128::MIN)
}

/// One cell after `delta` was added to `x`, and whether that clipped it.
fn shift_cell(v: i128, x: usize, delta: i128, i: usize, j: usize, Ghost(g): Ghost<Grid>) -> (r: (
    i128,
    bool,
))
    requires
        v == g.at(i as int, j as int),
        v <= DBM_INF,
        2 * x + 1 <= usize::MAX,
    ensures
        r.0 == g.shifted_cell(x as int, delta as int, i as int, j as int),
        r.1 == g.shift_clips(x as int, delta as int, i as int, j as int),
        r.0 <= DBM_INF,
{
    let p: usize = 2 * x;
    let q: usize = 2 * x + 1;
    let b: i128 = if i == p {
        sat_add(v, delta)
    } else {
        v
    };
    let c: i128 = if j == p {
        sat_sub(b, delta)
    } else {
        b
    };
    let d: i128 = if i == q {
        sat_sub(c, delta)
    } else {
        c
    };
    let e: i128 = if j == q {
        sat_add(d, delta)
    } else {
        d
    };
    let s: bool = runs_into_marker(v, b) || runs_into_marker(b, c) || runs_into_marker(c, d)
        || runs_into_marker(d, e);
    (e, s)
}

/// The cells after `delta` was added to `x`, and whether that was not exact.
fn shift_cells(m: &Vec<i128>, size: usize, x: usize, delta: i128) -> (r: (Vec<i128>, bool))
    requires
        closure::grid_of(*m, size).wf(),
        x < size / 2,
    ensures
        closure::grid_of(r.0, size) == closure::grid_of(*m, size).shifted(x as int, delta as int),
        closure::grid_of(r.0, size).wf(),
        r.1 == closure::grid_of(*m, size).shift_saturates(x as int, delta as int),
{
    let ghost n = size as int;
    let ghost g = closure::grid_of(*m, size);
    let ghost goal = g.shifted(x as int, delta as int).cells;
    let ghost (gx, gd) = (x as int, delta as int);
    let mut r: Vec<i128> = Vec::new();
    let mut saturated: bool = false;
    let mut i: usize = 0;
    assert(0 * n == 0);
    while i < size
        invariant
            n == size,
            g == closure::grid_of(*m, size),
            g.wf(),
            x < size / 2,
            gx == x,
            gd == delta,
            goal == g.shifted(gx, gd).cells,
            0 <= i <= size,
            r@.len() == i * n,
            forall|u: int| 0 <= u < r@.len() ==> #[trigger] r@[u] == goal[u],
            forall|u: int| 0 <= u < r@.len() ==> #[trigger] r@[u] <= DBM_INF,
            saturated ==> g.shift_saturates(gx, gd),
            forall|a: int, b: int|
                0 <= a < i && 0 <= b < n && #[trigger] g.shift_clips(gx, gd, a, b) ==> saturated,
            forall|a: int, b: int|
                0 <= a < i && 0 <= b < n && #[trigger] g.at(a, b) != DBM_INF && g.at(a, b)
                    <= CORNER ==> saturated,
        decreases size - i,
    {
        let mut j: usize = 0;
        while j < size
            invariant
                n == size,
                g == closure::grid_of(*m, size),
                g.wf(),
                x < size / 2,
                gx == x,
                gd == delta,
                goal == g.shifted(gx, gd).cells,
                0 <= i < size,
                0 <= j <= size,
                r@.len() == i * n + j,
                forall|u: int| 0 <= u < r@.len() ==> #[trigger] r@[u] == goal[u],
                forall|u: int| 0 <= u < r@.len() ==> #[trigger] r@[u] <= DBM_INF,
                saturated ==> g.shift_saturates(gx, gd),
                forall|a: int, b: int|
                    0 <= a < i && 0 <= b < n && #[trigger] g.shift_clips(gx, gd, a, b)
                        ==> saturated,
                forall|b: int|
                    0 <= b < j && #[trigger] g.shift_clips(gx, gd, i as int, b) ==> saturated,
                forall|a: int, b: int|
                    0 <= a < i && 0 <= b < n && #[trigger] g.at(a, b) != DBM_INF && g.at(a, b)
                        <= CORNER ==> saturated,
                forall|b: int|
                    0 <= b < j && #[trigger] g.at(i as int, b) != DBM_INF && g.at(i as int, b)
                        <= CORNER ==> saturated,
            decreases size - j,
        {
            proof {
                Grid::lemma_index(n, i as int, j as int);
            }
            let v: i128 = load(m, size, i, j);
            let (w, s) = shift_cell(v, x, delta, i, j, Ghost(g));
            if i == j && i / 2 == x {
                r.push(0);
            } else {
                r.push(w);
            }
            if s || (v != DBM_INF && v <= CORNER) {
                saturated = true;
                assert(g.has(i as int, j as int));
            }
            j += 1;
        }
        proof {
            Grid::lemma_index(n, i as int, 0);
        }
        i += 1;
    }
    assert(r@ =~= goal);
    (r, saturated)
}

/// Whether four times `c` can be stored exactly.
fn quadruple_is_stored(c: i128) -> (r: bool)
    ensures
        r == quadruple_fits(c as int),
{
    match c.checked_mul(4) {
        Some(v) => v < DBM_INF && v > i128::MIN,
        None => false,
    }
}

/// Whether minus four times `c` can be stored exactly.
fn negated_quadruple_is_stored(c: i128) -> (r: bool)
    ensures
        r == quadruple_fits(-c),
{
    match c.checked_mul(-4) {
        Some(v) => v < DBM_INF && v > i128::MIN,
        None => false,
    }
}

impl Dbm {
    /// A well-formed matrix.
    pub open spec fn wf(self) -> bool {
        self@.grid.wf()
    }

    /// Whether `x` is a variable of the matrix.
    pub open spec fn has_var(self, x: usize) -> bool {
        x < self.size / 2
    }

    /// The matrix over `n_vars` variables without a constraint.
    pub fn new(n_vars: usize) -> (r: Dbm)
        requires
            (2 * n_vars) * (2 * n_vars) <= usize::MAX,
        ensures
            r@ == (Oct { grid: Grid::free(2 * n_vars), bottom: false, closed: true }),
            r.size == 2 * n_vars,
            r.wf(),
    {
        assert(2 * n_vars <= (2 * n_vars) * (2 * n_vars)) by (nonlinear_arith)
            requires
                n_vars >= 0,
        ;
        let size: usize = n_vars * 2;
        Dbm { size, m: free_cells(size), bottom: false, closed: true }
    }

    /// The contradiction.
    pub fn bottom() -> (r: Dbm)
        ensures
            r@ == Oct::contradiction(),
            r.wf(),
    {
        let r = Dbm { size: 0, m: Vec::new(), bottom: true, closed: true };
        assert(0int * 0int == 0);
        r
    }

    /// Adds `node i - node j <= c` without its mirror.
    pub fn set(&mut self, i: usize, j: usize, c: i128)
        requires
            old(self).wf(),
            old(self).bottom || (i < old(self).size && j < old(self).size),
        ensures
            final(self).wf(),
            final(self).size == old(self).size,
            final(self)@ == (if old(self).bottom {
                old(self)@
            } else {
                Oct {
                    grid: old(self)@.grid.lowered(
                        i as int,
                        j as int,
                        arith::spec_sat_mul2_bound(c as int),
                    ),
                    bottom: false,
                    closed: old(self).closed && arith::spec_sat_mul2_bound(c as int)
                        >= old(self)@.grid.at(i as int, j as int),
                }
            }),
    {
        if self.bottom {
            return;
        }
        let stored: i128 = sat_mul2_bound(c);
        if lower(&mut self.m, self.size, i, j, stored) {
            self.closed = false;
        }
    }

    /// Adds `node i - node j <= c` and its mirror.
    pub fn set_mirrored(&mut self, i: usize, j: usize, c: i128)
        requires
            old(self).wf(),
            old(self).bottom || (i < old(self).size && j < old(self).size),
        ensures
            final(self).wf(),
            final(self).size == old(self).size,
            final(self)@ == (if old(self).bottom {
                old(self)@
            } else {
                Oct {
                    grid: old(self)@.grid.bounded(i as int, j as int, c as int),
                    bottom: false,
                    closed: false,
                }
            }),
    {
        if self.bottom {
            return;
        }
        set_mirrored_internal(&mut self.m, i, j, c, self.size);
        self.closed = false;
    }

    /// The bound on `node i - node j`, rounded down to an integer; `None`
    /// where there is none, for the contradiction and out of range.
    pub fn node_bound(&self, i: usize, j: usize) -> (r: Option<i128>)
        requires
            self.wf(),
        ensures
            bound_value(r) == self@.bound(i as int, j as int),
    {
        if self.bottom || i >= self.size || j >= self.size {
            return None;
        }
        let v: i128 = load(&self.m, self.size, i, j);
        if v == DBM_INF {
            None
        } else {
            Some(half_floor(v))
        }
    }

    /// Closes the matrix over the rationals; false where the constraints
    /// contradict each other.
    pub fn close(&mut self) -> (ok: bool)
        requires
            old(self).wf(),
        ensures
            final(self).wf(),
            final(self).size == old(self).size,
            final(self).closed,
            ok == !final(self).bottom,
            old(self).bottom ==> !ok && final(self)@.grid == old(self)@.grid,
            !old(self).bottom ==> ok == old(self)@.grid.closed_form(false).ok
                && final(self)@.grid == old(self)@.grid.closed_form(false).grid,
    {
        self.close_with(ClosureMode::Strong)
    }

    /// Closes the matrix in the given mode; false where the constraints
    /// contradict each other.
    pub fn close_with(&mut self, mode: ClosureMode) -> (ok: bool)
        requires
            old(self).wf(),
        ensures
            final(self).wf(),
            final(self).size == old(self).size,
            final(self).closed,
            ok == !final(self).bottom,
            old(self).bottom ==> !ok && final(self)@.grid == old(self)@.grid,
            !old(self).bottom ==> ok == old(self)@.grid.closed_form(
                mode == ClosureMode::IntegerExact,
            ).ok && final(self)@.grid == old(self)@.grid.closed_form(
                mode == ClosureMode::IntegerExact,
            ).grid,
    {
        self.closed = true;
        if self.bottom {
            return false;
        }
        let exact: bool = mode == ClosureMode::IntegerExact;
        let ok: bool = close_cells(&mut self.m, self.size, exact);
        self.bottom = !ok;
        ok
    }

    /// The matrix over the same variables without a constraint.
    pub fn top(&self) -> (r: Dbm)
        requires
            self.wf(),
        ensures
            r@ == (Oct { grid: Grid::free(self.size as int), bottom: false, closed: true }),
            r.wf(),
    {
        assert(self.m@.len() == self.m.len());
        Dbm { size: self.size, m: free_cells(self.size), bottom: false, closed: true }
    }

    /// Closes a matrix that was put together; a contradiction loses its cells.
    fn settle(size: usize, m: Vec<i128>) -> (r: Dbm)
        requires
            closure::grid_of(m, size).wf(),
        ensures
            r@ == Oct::settled(closure::grid_of(m, size)),
            r.wf(),
    {
        let mut r = Dbm { size, m, bottom: false, closed: true };
        if r.close() {
            r
        } else {
            Dbm::bottom()
        }
    }

    /// Meet: all the constraints of both.
    pub fn meet(&self, other: &Dbm) -> (r: Dbm)
        requires
            self.wf(),
            other.wf(),
            self.bottom || other.bottom || self.size == other.size,
        ensures
            r@ == (if other.bottom {
                Oct::contradiction()
            } else {
                self@.refined(self@.grid.min_with(other@.grid))
            }),
            r.wf(),
    {
        if self.bottom || other.bottom {
            return Dbm::bottom();
        }
        let ghost goal = self@.grid.min_with(other@.grid).cells;
        let mut m: Vec<i128> = Vec::new();
        let mut t: usize = 0;
        while t < self.m.len()
            invariant
                self.wf(),
                other.wf(),
                self.size == other.size,
                goal == self@.grid.min_with(other@.grid).cells,
                0 <= t <= self.m@.len(),
                m@.len() == t,
                forall|u: int| 0 <= u < t ==> #[trigger] m@[u] == goal[u],
                forall|u: int| 0 <= u < t ==> #[trigger] m@[u] <= DBM_INF,
            decreases self.m.len() - t,
        {
            if other.m[t] < self.m[t] {
                m.push(other.m[t]);
            } else {
                m.push(self.m[t]);
            }
            t += 1;
        }
        assert(m@ =~= goal);
        Dbm::settle(self.size, m)
    }

    /// Whether the matrix is strongly closed; the contradiction is.
    pub fn is_strongly_closed(&self) -> (r: bool)
        requires
            self.wf(),
        ensures
            r == (self.bottom || self@.grid.strongly_closed()),
    {
        if self.bottom {
            return true;
        }
        let ghost g = self@.grid;
        let ghost n = self.size as int;
        let mut i: usize = 0;
        while i < self.size
            invariant
                self.wf(),
                !self.bottom,
                g == self@.grid,
                n == self.size,
                0 <= i <= self.size,
                forall|a: int| 0 <= a < i ==> #[trigger] g.at(a, a) == 0,
            decreases self.size - i,
        {
            if load(&self.m, self.size, i, i) != 0 {
                assert(g.at(i as int, i as int) != 0);
                return false;
            }
            i += 1;
        }
        let mut i: usize = 0;
        while i < self.size
            invariant
                self.wf(),
                !self.bottom,
                g == self@.grid,
                n == self.size,
                0 <= i <= self.size,
                forall|a: int, b: int|
                    0 <= a < i && 0 <= b < n ==> #[trigger] g.at(a, b) == g.at(
                        arith::mirror(b),
                        arith::mirror(a),
                    ),
                forall|a: int, b: int|
                    0 <= a < i && 0 <= b < n ==> g.at(a, b) <= #[trigger] g.half_sum(a, b),
                forall|a: int, k: int, b: int|
                    #![trigger g.at(a, k), g.at(k, b)]
                    0 <= a < i && 0 <= k < n && 0 <= b < n ==> g.at(a, b) <= arith::oplus(
                        g.at(a, k),
                        g.at(k, b),
                    ),
            decreases self.size - i,
        {
            let mut j: usize = 0;
            while j < self.size
                invariant
                    self.wf(),
                    !self.bottom,
                    g == self@.grid,
                    n == self.size,
                    0 <= i < self.size,
                    0 <= j <= self.size,
                    forall|a: int, b: int|
                        0 <= a < i && 0 <= b < n ==> #[trigger] g.at(a, b) == g.at(
                            arith::mirror(b),
                            arith::mirror(a),
                        ),
                    forall|b: int|
                        0 <= b < j ==> #[trigger] g.at(i as int, b) == g.at(
                            arith::mirror(b),
                            arith::mirror(i as int),
                        ),
                    forall|a: int, b: int|
                        0 <= a < i && 0 <= b < n ==> g.at(a, b) <= #[trigger] g.half_sum(a, b),
                    forall|b: int|
                        0 <= b < j ==> g.at(i as int, b) <= #[trigger] g.half_sum(i as int, b),
                    forall|a: int, k: int, b: int|
                        #![trigger g.at(a, k), g.at(k, b)]
                        0 <= a < i && 0 <= k < n && 0 <= b < n ==> g.at(a, b) <= arith::oplus(
                            g.at(a, k),
                            g.at(k, b),
                        ),
                    forall|k: int, b: int|
                        #![trigger g.at(i as int, k), g.at(k, b)]
                        0 <= k < n && 0 <= b < j ==> g.at(i as int, b) <= arith::oplus(
                            g.at(i as int, k),
                            g.at(k, b),
                        ),
                decreases self.size - j,
            {
                let ib: usize = mirror_index(i);
                let jb: usize = mirror_index(j);
                let v: i128 = load(&self.m, self.size, i, j);
                if v != load(&self.m, self.size, jb, ib) {
                    assert(g.has(i as int, j as int));
                    assert(g.at(i as int, j as int) != g.at(
                        arith::mirror(j as int),
                        arith::mirror(i as int),
                    ));
                    return false;
                }
                let sum: i128 = arith::sat_add_closed(
                    load(&self.m, self.size, i, ib),
                    load(&self.m, self.size, jb, j),
                );
                if sum != DBM_INF && arith::half_ceil(sum) < v {
                    assert(g.at(i as int, j as int) > g.half_sum(i as int, j as int));
                    return false;
                }
                let mut k: usize = 0;
                while k < self.size
                    invariant
                        self.wf(),
                        !self.bottom,
                        g == self@.grid,
                        n == self.size,
                        0 <= i < self.size,
                        0 <= j < self.size,
                        0 <= k <= self.size,
                        v == g.at(i as int, j as int),
                        forall|c: int|
                            #![trigger g.at(i as int, c), g.at(c, j as int)]
                            0 <= c < k ==> g.at(i as int, j as int) <= arith::oplus(
                                g.at(i as int, c),
                                g.at(c, j as int),
                            ),
                    decreases self.size - k,
                {
                    let s: i128 = arith::sat_add_closed(
                        load(&self.m, self.size, i, k),
                        load(&self.m, self.size, k, j),
                    );
                    if s < v {
                        assert(!g.triangle()) by {
                            let (a, c, b) = (i as int, k as int, j as int);
                            assert(g.has(a, c) && g.has(c, b));
                            assert(g.at(a, b) > arith::oplus(g.at(a, c), g.at(c, b)));
                        }
                        return false;
                    }
                    k += 1;
                }
                j += 1;
            }
            i += 1;
        }
        true
    }

    /// Join: the constraints that both imply cell by cell.
    pub fn join(&self, other: &Dbm) -> (r: Dbm)
        requires
            self.wf(),
            other.wf(),
            self.closed && other.closed,
            self.bottom || other.bottom || self.size == other.size,
        ensures
            r@ == (if self.bottom {
                other@
            } else if other.bottom {
                self@
            } else {
                Oct { grid: self@.grid.max_with(other@.grid), bottom: false, closed: true }
            }),
            r.wf(),
    {
        if self.bottom {
            return other.clone();
        }
        if other.bottom {
            return self.clone();
        }
        let ghost n = self.size as int;
        let ghost goal = self@.grid.max_with(other@.grid).cells;
        let mut m: Vec<i128> = Vec::new();
        let mut i: usize = 0;
        assert(0 * n == 0);
        while i < self.size
            invariant
                self.wf(),
                other.wf(),
                self.size == other.size,
                n == self.size,
                goal == self@.grid.max_with(other@.grid).cells,
                0 <= i <= self.size,
                m@.len() == i * n,
                forall|u: int| 0 <= u < m@.len() ==> #[trigger] m@[u] == goal[u],
                forall|u: int| 0 <= u < m@.len() ==> #[trigger] m@[u] <= DBM_INF,
            decreases self.size - i,
        {
            let mut j: usize = 0;
            while j < self.size
                invariant
                    self.wf(),
                    other.wf(),
                    self.size == other.size,
                    n == self.size,
                    goal == self@.grid.max_with(other@.grid).cells,
                    0 <= i < self.size,
                    0 <= j <= self.size,
                    m@.len() == i * n + j,
                    forall|u: int| 0 <= u < m@.len() ==> #[trigger] m@[u] == goal[u],
                    forall|u: int| 0 <= u < m@.len() ==> #[trigger] m@[u] <= DBM_INF,
                decreases self.size - j,
            {
                proof {
                    Grid::lemma_index(n, i as int, j as int);
                }
                let a: i128 = load(&self.m, self.size, i, j);
                let b: i128 = load(&other.m, self.size, i, j);
                if i == j {
                    m.push(0);
                } else if b > a {
                    m.push(b);
                } else {
                    m.push(a);
                }
                j += 1;
            }
            proof {
                Grid::lemma_index(n, i as int, 0);
            }
            i += 1;
        }
        assert(m@ =~= goal);
        Dbm { size: self.size, m, bottom: false, closed: true }
    }

    /// Widening: keeps the bounds that did not grow and drops the others.
    pub fn widen(&self, new: &Dbm) -> (r: Dbm)
        requires
            self.wf(),
            new.wf(),
            self.bottom || new.bottom || self.size == new.size,
        ensures
            r@ == (if self.bottom {
                new@
            } else if new.bottom {
                self@
            } else {
                Oct { grid: self@.grid.widened(new@.grid), bottom: false, closed: false }
            }),
            r.wf(),
    {
        if self.bottom {
            return new.clone();
        }
        if new.bottom {
            return self.clone();
        }
        let ghost goal = self@.grid.widened(new@.grid).cells;
        let mut m: Vec<i128> = Vec::new();
        let mut t: usize = 0;
        while t < self.m.len()
            invariant
                self.wf(),
                new.wf(),
                self.size == new.size,
                goal == self@.grid.widened(new@.grid).cells,
                0 <= t <= self.m@.len(),
                m@.len() == t,
                forall|u: int| 0 <= u < t ==> #[trigger] m@[u] == goal[u],
                forall|u: int| 0 <= u < t ==> #[trigger] m@[u] <= DBM_INF,
            decreases self.m.len() - t,
        {
            if new.m[t] <= self.m[t] {
                m.push(self.m[t]);
            } else {
                m.push(DBM_INF);
            }
            t += 1;
        }
        assert(m@ =~= goal);
        Dbm { size: self.size, m, bottom: false, closed: false }
    }

    /// `x := x + c`.
    pub fn assign_add_var(&self, i: usize, c: i128) -> (r: Dbm)
        requires
            self.wf(),
            self.bottom || self.has_var(i),
        ensures
            r@ == self@.added(i as int, c as int),
            r.wf(),
    {
        if self.bottom {
            return Dbm::bottom();
        }
        let delta: i128 = sat_mul2(c);
        if delta == DBM_INF || delta == i128::MIN {
            return self.forget_var(i);
        }
        let (m, saturated) = shift_cells(&self.m, self.size, i, delta);
        if saturated {
            Dbm::settle(self.size, m)
        } else {
            Dbm { size: self.size, m, bottom: false, closed: true }
        }
    }

    /// `x := c`.
    pub fn assign_const_var(&self, i: usize, c: i128) -> (r: Dbm)
        requires
            self.wf(),
            self.bottom || self.has_var(i),
        ensures
            r@ == (if quadruple_fits(c as int) && quadruple_fits(-c) {
                self@.boxed(i as int, Some(c as int), Some(c as int))
            } else {
                self@.forgotten(i as int)
            }),
            r.wf(),
    {
        if self.bottom {
            return Dbm::bottom();
        }
        if !(quadruple_is_stored(c) && negated_quadruple_is_stored(c)) {
            return self.forget_var(i);
        }
        self.assign_box(i, Some(c), Some(c))
    }

    /// Forgets a variable and gives it the bounds that are there.
    fn assign_box(&self, i: usize, lo: Option<i128>, hi: Option<i128>) -> (r: Dbm)
        requires
            self.wf(),
            !self.bottom,
            self.has_var(i),
        ensures
            r@ == self@.boxed(i as int, bound_value(lo), bound_value(hi)),
            r.wf(),
    {
        let p: usize = 2 * i;
        let q: usize = 2 * i + 1;
        let mut m: Vec<i128> = drop_cells(&self.m, self.size, i);
        if let Some(h) = hi {
            set_mirrored_internal(&mut m, p, q, sat_mul2(h), self.size);
        }
        if let Some(l) = lo {
            set_mirrored_internal(&mut m, q, p, sat_mul2(sat_neg(l)), self.size);
        }
        Dbm::settle(self.size, m)
    }

    /// `x := y`.
    pub fn assign_copy_var(&self, i: usize, j: usize) -> (r: Dbm)
        requires
            self.wf(),
            self.bottom || (self.has_var(i) && self.has_var(j)),
        ensures
            r@ == (if i == j {
                self@.added(i as int, 0)
            } else {
                self@.copied(i as int, j as int, 0)
            }),
            r.wf(),
    {
        self.assign_copy_add_var(i, j, 0)
    }

    /// The matrix with one more mirrored constraint, closed.
    fn with_bound(&self, i: usize, j: usize, c: i128) -> (r: Dbm)
        requires
            self.wf(),
            self.bottom || (i < self.size && j < self.size),
        ensures
            r@ == self@.refined(self@.grid.bounded(i as int, j as int, c as int)),
            r.wf(),
    {
        if self.bottom {
            return Dbm::bottom();
        }
        let mut r = self.clone();
        r.set_mirrored(i, j, c);
        Dbm::settle(r.size, r.m)
    }

    /// The matrix with two more mirrored constraints, closed once.
    fn with_bounds(&self, i: usize, j: usize, c: i128, k: usize, l: usize, d: i128) -> (r: Dbm)
        requires
            self.wf(),
            self.bottom || (i < self.size && j < self.size && k < self.size && l < self.size),
        ensures
            r@ == self@.refined(
                self@.grid.bounded(i as int, j as int, c as int).bounded(
                    k as int,
                    l as int,
                    d as int,
                ),
            ),
            r.wf(),
    {
        if self.bottom {
            return Dbm::bottom();
        }
        let mut r = self.clone();
        r.set_mirrored(i, j, c);
        r.set_mirrored(k, l, d);
        Dbm::settle(r.size, r.m)
    }

    /// Test `x <= c`.
    pub fn test_le_var(&self, i: usize, c: i128) -> (r: Dbm)
        requires
            self.wf(),
            self.bottom || self.has_var(i),
        ensures
            r@ == self@.refined(
                self@.grid.bounded(2 * i, 2 * i + 1, arith::spec_sat_mul2(c as int)),
            ),
            r.wf(),
    {
        if self.bottom {
            return Dbm::bottom();
        }
        self.with_bound(2 * i, 2 * i + 1, sat_mul2(c))
    }

    /// Test `x >= c`.
    pub fn test_ge_var(&self, i: usize, c: i128) -> (r: Dbm)
        requires
            self.wf(),
            self.bottom || self.has_var(i),
        ensures
            r@ == self@.refined(
                self@.grid.bounded(
                    2 * i + 1,
                    2 * i as int,
                    arith::spec_sat_mul2(arith::spec_sat_neg(c as int)),
                ),
            ),
            r.wf(),
    {
        if self.bottom {
            return Dbm::bottom();
        }
        self.with_bound(2 * i + 1, 2 * i, sat_mul2(sat_neg(c)))
    }

    /// Test `x - y <= c`.
    pub fn test_diff_le(&self, i: usize, j: usize, c: i128) -> (r: Dbm)
        requires
            self.wf(),
            self.bottom || (self.has_var(i) && self.has_var(j)),
        ensures
            r@ == self@.refined(self@.grid.bounded(2 * i, 2 * j, c as int)),
            r.wf(),
    {
        if self.bottom {
            return Dbm::bottom();
        }
        self.with_bound(2 * i, 2 * j, c)
    }

    /// Test `x + y <= c`.
    pub fn test_sum_le(&self, i: usize, j: usize, c: i128) -> (r: Dbm)
        requires
            self.wf(),
            self.bottom || (self.has_var(i) && self.has_var(j)),
        ensures
            r@ == self@.refined(self@.grid.bounded(2 * i, 2 * j + 1, c as int)),
            r.wf(),
    {
        if self.bottom {
            return Dbm::bottom();
        }
        self.with_bound(2 * i, 2 * j + 1, c)
    }

    /// Test `-x - y <= c`.
    pub fn test_neg_sum_le(&self, i: usize, j: usize, c: i128) -> (r: Dbm)
        requires
            self.wf(),
            self.bottom || (self.has_var(i) && self.has_var(j)),
        ensures
            r@ == self@.refined(self@.grid.bounded(2 * j + 1, 2 * i, c as int)),
            r.wf(),
    {
        if self.bottom {
            return Dbm::bottom();
        }
        self.with_bound(2 * j + 1, 2 * i, c)
    }

    /// Test `x + y == c`.
    pub fn test_sum_eq(&self, i: usize, j: usize, c: i128) -> (r: Dbm)
        requires
            self.wf(),
            self.bottom || (self.has_var(i) && self.has_var(j)),
        ensures
            r@ == self@.refined(
                self@.grid.bounded(2 * i, 2 * j + 1, c as int).bounded(
                    2 * j + 1,
                    2 * i as int,
                    arith::spec_sat_neg(c as int),
                ),
            ),
            r.wf(),
    {
        if self.bottom {
            return Dbm::bottom();
        }
        self.with_bounds(2 * i, 2 * j + 1, c, 2 * j + 1, 2 * i, sat_neg(c))
    }

    /// Test `x - y == c`.
    pub fn test_diff_eq(&self, i: usize, j: usize, c: i128) -> (r: Dbm)
        requires
            self.wf(),
            self.bottom || (self.has_var(i) && self.has_var(j)),
        ensures
            r@ == self@.refined(
                self@.grid.bounded(2 * i, 2 * j, c as int).bounded(
                    2 * j as int,
                    2 * i as int,
                    arith::spec_sat_neg(c as int),
                ),
            ),
            r.wf(),
    {
        if self.bottom {
            return Dbm::bottom();
        }
        self.with_bounds(2 * i, 2 * j, c, 2 * j, 2 * i, sat_neg(c))
    }

    /// Test `x == c`.
    pub fn test_var_eq(&self, i: usize, c: i128) -> (r: Dbm)
        requires
            self.wf(),
            self.bottom || self.has_var(i),
        ensures
            r@ == self@.refined(
                self@.grid.bounded(2 * i, 2 * i + 1, arith::spec_sat_mul2(c as int)).bounded(
                    2 * i + 1,
                    2 * i as int,
                    arith::spec_sat_mul2(arith::spec_sat_neg(c as int)),
                ),
            ),
            r.wf(),
    {
        if self.bottom {
            return Dbm::bottom();
        }
        self.with_bounds(
            2 * i,
            2 * i + 1,
            sat_mul2(c),
            2 * i + 1,
            2 * i,
            sat_mul2(sat_neg(c)),
        )
    }

    /// Both of two guards on the same state.
    pub fn guard_and(&self, other: &Dbm) -> (r: Dbm)
        requires
            self.wf(),
            other.wf(),
            self.bottom || other.bottom || self.size == other.size,
        ensures
            r@ == (if other.bottom {
                Oct::contradiction()
            } else {
                self@.refined(self@.grid.min_with(other@.grid))
            }),
            r.wf(),
    {
        self.meet(other)
    }

    /// Either of two guards on the same state.
    pub fn guard_or(&self, other: &Dbm) -> (r: Dbm)
        requires
            self.wf(),
            other.wf(),
            self.bottom || other.bottom || (self.size == other.size && self.closed
                && other.closed),
        ensures
            r@ == (if self.bottom {
                other@
            } else if other.bottom {
                self@
            } else {
                Oct { grid: self@.grid.max_with(other@.grid), bottom: false, closed: true }
            }),
            r.wf(),
    {
        if self.bottom {
            return other.clone();
        }
        if other.bottom {
            return self.clone();
        }
        self.join(other)
    }

    /// Not `x <= c`, over the integers: `x >= c + 1`.
    pub fn guard_not_le_var(&self, i: usize, c: i128) -> (r: Dbm)
        requires
            self.wf(),
            self.bottom || self.has_var(i),
        ensures
            r@ == self@.refined(
                self@.grid.bounded(
                    2 * i + 1,
                    2 * i as int,
                    arith::spec_sat_mul2(
                        arith::spec_sat_neg(arith::spec_sat_add(c as int, 1)),
                    ),
                ),
            ),
            r.wf(),
    {
        self.test_ge_var(i, sat_add(c, 1))
    }

    /// Not `x >= c`, over the integers: `x <= c - 1`.
    pub fn guard_not_ge_var(&self, i: usize, c: i128) -> (r: Dbm)
        requires
            self.wf(),
            self.bottom || self.has_var(i),
        ensures
            r@ == self@.refined(
                self@.grid.bounded(
                    2 * i as int,
                    2 * i + 1,
                    arith::spec_sat_mul2(arith::spec_sat_sub(c as int, 1)),
                ),
            ),
            r.wf(),
    {
        self.test_le_var(i, sat_sub(c, 1))
    }

    /// Not `x + y <= c`, over the integers: `-x - y <= -(c + 1)`.
    pub fn guard_not_sum_le(&self, i: usize, j: usize, c: i128) -> (r: Dbm)
        requires
            self.wf(),
            self.bottom || (self.has_var(i) && self.has_var(j)),
        ensures
            r@ == self@.refined(
                self@.grid.bounded(
                    2 * j + 1,
                    2 * i as int,
                    arith::spec_sat_neg(arith::spec_sat_add(c as int, 1)),
                ),
            ),
            r.wf(),
    {
        self.test_neg_sum_le(i, j, sat_neg(sat_add(c, 1)))
    }

    /// Not `x - y <= c`, over the integers: `y - x <= -c - 1`.
    pub fn guard_not_diff_le(&self, i: usize, j: usize, c: i128) -> (r: Dbm)
        requires
            self.wf(),
            self.bottom || (self.has_var(i) && self.has_var(j)),
        ensures
            r@ == self@.refined(
                self@.grid.bounded(
                    2 * j as int,
                    2 * i as int,
                    arith::spec_sat_sub(arith::spec_sat_neg(c as int), 1),
                ),
            ),
            r.wf(),
    {
        self.test_diff_le(j, i, sat_sub(sat_neg(c), 1))
    }

    /// `x := y + c`.
    pub fn assign_copy_add_var(&self, i: usize, j: usize, c: i128) -> (r: Dbm)
        requires
            self.wf(),
            self.bottom || (self.has_var(i) && self.has_var(j)),
        ensures
            r@ == (if i == j {
                self@.added(i as int, c as int)
            } else {
                self@.copied(i as int, j as int, c as int)
            }),
            r.wf(),
    {
        if i == j {
            return self.assign_add_var(i, c);
        }
        if self.bottom {
            return Dbm::bottom();
        }
        let mut m: Vec<i128> = drop_cells(&self.m, self.size, i);
        set_mirrored_internal(&mut m, 2 * i, 2 * j, c, self.size);
        set_mirrored_internal(&mut m, 2 * j, 2 * i, sat_neg(c), self.size);
        Dbm::settle(self.size, m)
    }

    /// `x := e`, by the interval of `e`.
    pub fn assign_expr_var(&self, i: usize, expr: &OctExpr) -> (r: Dbm)
        requires
            self.wf(),
            self.bottom || self.has_var(i),
            self.bottom || expr.indexable(),
        ensures
            r@ == self@.boxed(
                i as int,
                (if quadruple_fits(-expr.interval(self@).0) {
                    Some(expr.interval(self@).0)
                } else {
                    None
                }),
                (if quadruple_fits(expr.interval(self@).1) {
                    Some(expr.interval(self@).1)
                } else {
                    None
                }),
            ),
            r.wf(),
    {
        if self.bottom {
            return Dbm::bottom();
        }
        let (e_lo, e_hi) = expr.eval_interval(self);
        let hi: Option<i128> = if e_hi != DBM_INF && quadruple_is_stored(e_hi) {
            Some(e_hi)
        } else {
            None
        };
        let lo: Option<i128> = if e_lo != i128::MIN && negated_quadruple_is_stored(e_lo) {
            Some(e_lo)
        } else {
            None
        };
        if hi.is_none() && lo.is_none() {
            return self.forget_var(i);
        }
        self.assign_box(i, lo, hi)
    }

    /// Forgets all that is known of one variable.
    pub fn forget_var(&self, i: usize) -> (r: Dbm)
        requires
            self.wf(),
            self.bottom || self.has_var(i),
        ensures
            r@ == self@.forgotten(i as int),
            r.wf(),
    {
        if self.bottom {
            return Dbm::bottom();
        }
        let m: Vec<i128> = drop_cells(&self.m, self.size, i);
        Dbm::settle(self.size, m)
    }

    /// The bound on `x - y`.
    pub fn diff_bound(&self, i: usize, j: usize) -> (r: Option<i128>)
        requires
            self.wf(),
            2 * i <= usize::MAX,
            2 * j <= usize::MAX,
        ensures
            bound_value(r) == self@.bound(2 * i, 2 * j),
    {
        self.node_bound(2 * i, 2 * j)
    }

    /// The upper bound of `x`.
    pub fn var_ub(&self, i: usize) -> (r: Option<i128>)
        requires
            self.wf(),
            2 * i + 1 <= usize::MAX,
        ensures
            bound_value(r) == self@.upper(i as int),
    {
        match self.node_bound(2 * i, 2 * i + 1) {
            Some(v) => Some(half_floor(v)),
            None => None,
        }
    }

    /// The lower bound of `x`.
    pub fn var_lb(&self, i: usize) -> (r: Option<i128>)
        requires
            self.wf(),
            2 * i + 1 <= usize::MAX,
        ensures
            bound_value(r) == self@.lower(i as int),
    {
        match self.node_bound(2 * i + 1, 2 * i) {
            Some(v) => {
                let b: i128 = sat_neg(half_floor(v));
                if b == DBM_INF {
                    None
                } else {
                    Some(b)
                }
            },
            None => None,
        }
    }

    /// The bound on `x + y`.
    pub fn sum_ub(&self, i: usize, j: usize) -> (r: Option<i128>)
        requires
            self.wf(),
            2 * i <= usize::MAX,
            2 * j + 1 <= usize::MAX,
        ensures
            bound_value(r) == self@.bound(2 * i, 2 * j + 1),
    {
        self.node_bound(2 * i, 2 * j + 1)
    }

    /// Whether the constraints of two matrices are stored alike.
    pub fn eq(&self, other: &Dbm) -> (r: bool)
        ensures
            r == (self.size == other.size && self.m@ == other.m@ && self.bottom == other.bottom),
    {
        self.size == other.size && same_cells(&self.m, &other.m) && self.bottom == other.bottom
    }
}

} // verus!
