//! Closing bound matrices in place.
use vstd::prelude::*;
use crate::octagon::arith;
use crate::octagon::arith::{floor4, half_ceil, mirror_index, sat_add_closed, DBM_INF};
use crate::octagon::grid;
use crate::octagon::grid::Grid;

verus! {

/// The matrix that a vector of cells stands for.
pub open spec fn grid_of(m: Vec<i128>, size: usize) -> Grid {
    Grid { n: size as int, cells: m@ }
}

/// Reads the cell `(i, j)`.
pub(crate) fn load(m: &Vec<i128>, size: usize, i: usize, j: usize) -> (r: i128)
    requires
        grid_of(*m, size).wf(),
        i < size,
        j < size,
    ensures
        r == grid_of(*m, size).at(i as int, j as int),
        r <= DBM_INF,
{
    assert(m@.len() == m.len());
    proof {
        Grid::lemma_index(size as int, i as int, j as int);
        Grid::lemma_index(size as int, i as int, 0);
    }
    m[i * size + j]
}

/// Writes the cell `(i, j)`.
pub(crate) fn store(m: &mut Vec<i128>, size: usize, i: usize, j: usize, v: i128)
    requires
        grid_of(*old(m), size).wf(),
        i < size,
        j < size,
        v <= DBM_INF,
    ensures
        grid_of(*final(m), size) == grid_of(*old(m), size).put(i as int, j as int, v as int),
        grid_of(*final(m), size).wf(),
{
    assert(m@.len() == m.len());
    proof {
        Grid::lemma_index(size as int, i as int, j as int);
        Grid::lemma_index(size as int, i as int, 0);
        grid_of(*m, size).lemma_put(i as int, j as int, v as int);
    }
    m.set(i * size + j, v);
}

/// The tightest bound on `(i, j)` along the direct edge and the paths through
/// `k` and its mirror.
fn tightest(m: &Vec<i128>, size: usize, k: usize, i: usize, j: usize) -> (r: i128)
    requires
        grid_of(*m, size).wf(),
        k < size,
        k % 2 == 0,
        i < size,
        j < size,
    ensures
        r == grid_of(*m, size).through(k as int, i as int, j as int),
        r <= DBM_INF,
{
    let kb: usize = mirror_index(k);
    let mut best: i128 = load(m, size, i, j);
    let ik: i128 = load(m, size, i, k);
    let kj: i128 = load(m, size, k, j);
    let s: i128 = sat_add_closed(ik, kj);
    if s < best {
        best = s;
    }
    let ikb: i128 = load(m, size, i, kb);
    let kbj: i128 = load(m, size, kb, j);
    let s: i128 = sat_add_closed(ikb, kbj);
    if s < best {
        best = s;
    }
    let s: i128 = sat_add_closed(sat_add_closed(ik, load(m, size, k, kb)), kbj);
    if s < best {
        best = s;
    }
    let s: i128 = sat_add_closed(sat_add_closed(ikb, load(m, size, kb, k)), kj);
    if s < best {
        best = s;
    }
    best
}

/// Relaxes every cell through `k` and its mirror.
fn relax(m: &mut Vec<i128>, size: usize, k: usize)
    requires
        grid_of(*old(m), size).wf(),
        k < size,
        k % 2 == 0,
    ensures
        grid_of(*final(m), size) == grid_of(*old(m), size).relaxed_all(k as int),
        grid_of(*final(m), size).wf(),
{
    let ghost n = size as int;
    let ghost g0 = grid_of(*m, size);
    let mut i: usize = 0;
    assert(0 * n == 0);
    while i < size
        invariant
            n == size,
            g0 == grid_of(*old(m), size),
            0 <= i <= size,
            k < size,
            k % 2 == 0,
            grid_of(*m, size).wf(),
            grid_of(*m, size) == g0.relaxed(k as int, i * n),
        decreases size - i,
    {
        let mut j: usize = 0;
        while j < size
            invariant
                n == size,
                g0 == grid_of(*old(m), size),
                0 <= i < size,
                0 <= j <= size,
                k < size,
                k % 2 == 0,
                grid_of(*m, size).wf(),
                grid_of(*m, size) == g0.relaxed(k as int, i * n + j),
            decreases size - j,
        {
            let b: i128 = tightest(m, size, k, i, j);
            proof {
                Grid::lemma_index(n, i as int, j as int);
            }
            store(m, size, i, j, b);
            assert(grid_of(*m, size) == g0.relaxed(k as int, i * n + j + 1));
            j += 1;
        }
        proof {
            Grid::lemma_index(n, i as int, 0);
        }
        i += 1;
    }
}

/// Lowers every cell to its half-sum bound.
pub(crate) fn strong_coherence_pass(m: &mut Vec<i128>, size: usize)
    requires
        grid_of(*old(m), size).wf(),
    ensures
        grid_of(*final(m), size) == grid_of(*old(m), size).halved_all(),
        grid_of(*final(m), size).wf(),
{
    let ghost n = size as int;
    let ghost g0 = grid_of(*m, size);
    let mut i: usize = 0;
    assert(0 * n == 0);
    while i < size
        invariant
            n == size,
            g0 == grid_of(*old(m), size),
            0 <= i <= size,
            grid_of(*m, size).wf(),
            grid_of(*m, size) == g0.halved(i * n),
        decreases size - i,
    {
        let ib: usize = mirror_index(i);
        let mut j: usize = 0;
        while j < size
            invariant
                n == size,
                g0 == grid_of(*old(m), size),
                0 <= i < size,
                ib == arith::mirror(i as int),
                0 <= j <= size,
                grid_of(*m, size).wf(),
                grid_of(*m, size) == g0.halved(i * n + j),
            decreases size - j,
        {
            let jb: usize = mirror_index(j);
            let sum: i128 = sat_add_closed(load(m, size, i, ib), load(m, size, jb, j));
            let mut v: i128 = load(m, size, i, j);
            if sum != DBM_INF {
                let h: i128 = half_ceil(sum);
                if h < v {
                    v = h;
                }
            }
            proof {
                Grid::lemma_index(n, i as int, j as int);
            }
            store(m, size, i, j, v);
            assert(grid_of(*m, size) == g0.halved(i * n + j + 1));
            j += 1;
        }
        proof {
            Grid::lemma_index(n, i as int, 0);
        }
        i += 1;
    }
}

/// One strong closure pass: each pivot pair in turn, each followed by the
/// half-sum pass.
pub(crate) fn strong_closure_pass(m: &mut Vec<i128>, size: usize)
    requires
        grid_of(*old(m), size).wf(),
    ensures
        grid_of(*final(m), size) == grid_of(*old(m), size).pass(),
        grid_of(*final(m), size).wf(),
{
    let mut p: usize = 0;
    while p < size / 2
        invariant
            0 <= p <= size / 2,
            grid_of(*m, size).wf(),
            grid_of(*m, size) == grid_of(*old(m), size).pivoted(p as int),
        decreases size / 2 - p,
    {
        relax(m, size, 2 * p);
        strong_coherence_pass(m, size);
        p += 1;
    }
}

/// Whether four divides `s`.
fn multiple_of_four(s: i128) -> (r: bool)
    ensures
        r == (s as int % 4 == 0),
{
    assert(4 * (s >> 2) + (s & 3) == s && 0 <= (s & 3) < 4) by (bit_vector);
    s & 3 == 0
}

/// Rounds the bounds of single variables down to integers; tells whether any
/// of them changed.
pub(crate) fn tighten_self_dual(m: &mut Vec<i128>, size: usize) -> (changed: bool)
    requires
        grid_of(*old(m), size).wf(),
    ensures
        grid_of(*final(m), size) == grid_of(*old(m), size).tightened(size as int),
        grid_of(*final(m), size).wf(),
        changed == !grid_of(*old(m), size).rounded(),
{
    let ghost g0 = grid_of(*m, size);
    let mut changed: bool = false;
    let mut e: usize = 0;
    while e < size
        invariant
            g0 == grid_of(*old(m), size),
            0 <= e <= size,
            g0.wf(),
            grid_of(*m, size).wf(),
            grid_of(*m, size) == g0.tightened(e as int),
            forall|i: int|
                e <= i < size ==> #[trigger] grid_of(*m, size).at(i, arith::mirror(i)) == g0.at(
                    i,
                    arith::mirror(i),
                ),
            changed == !(forall|i: int|
                0 <= i < e ==> #[trigger] g0.at(i, arith::mirror(i)) == DBM_INF || g0.at(
                    i,
                    arith::mirror(i),
                ) % 4 == 0),
        decreases size - e,
    {
        let eb: usize = mirror_index(e);
        let s: i128 = load(m, size, e, eb);
        let f: i128 = floor4(s);
        let ghost before = grid_of(*m, size);
        assert(before.at(e as int, arith::mirror(e as int)) == g0.at(
            e as int,
            arith::mirror(e as int),
        ));
        if s != DBM_INF && !multiple_of_four(s) {
            store(m, size, e, eb, f);
            changed = true;
            proof {
                before.lemma_put(e as int, eb as int, f as int);
            }
        }
        e += 1;
    }
    changed
}

/// The integer tightening round; false where some variable has no integer
/// value left.
pub(crate) fn tight_closure_round(m: &mut Vec<i128>, size: usize) -> (ok: bool)
    requires
        grid_of(*old(m), size).wf(),
    ensures
        ok == grid_of(*old(m), size).tight_round().ok,
        grid_of(*final(m), size) == grid_of(*old(m), size).tight_round().grid,
        grid_of(*final(m), size).wf(),
{
    tighten_self_dual(m, size);
    let ghost g = grid_of(*m, size);
    let mut v: usize = 0;
    while v < size / 2
        invariant
            0 <= v <= size / 2,
            g.wf(),
            g == grid_of(*m, size),
            g == grid_of(*old(m), size).tightened(size as int),
            forall|x: int|
                0 <= x < v ==> #[trigger] arith::oplus(
                    g.at(2 * x, 2 * x + 1),
                    g.at(2 * x + 1, 2 * x),
                ) >= 0,
        decreases size / 2 - v,
    {
        let p: usize = 2 * v;
        let q: usize = p + 1;
        let s: i128 = sat_add_closed(load(m, size, p, q), load(m, size, q, p));
        if s < 0 {
            let ghost x = v as int;
            assert(arith::oplus(g.at(2 * x, 2 * x + 1), g.at(2 * x + 1, 2 * x)) < 0);
            return false;
        }
        v += 1;
    }
    strong_coherence_pass(m, size);
    true
}

/// Lowers each cell to its mirrored cell where that is tighter; tells whether
/// any cell changed.
pub(crate) fn repair_coherence(m: &mut Vec<i128>, size: usize) -> (repaired: bool)
    requires
        grid_of(*old(m), size).wf(),
    ensures
        grid_of(*final(m), size) == grid_of(*old(m), size).mirrored(),
        grid_of(*final(m), size).wf(),
        repaired == !grid_of(*old(m), size).coherent(),
{
    let ghost n = size as int;
    let ghost m0 = grid_of(*m, size);
    let ghost goal = m0.mirrored();
    let mut repaired: bool = false;
    let mut i: usize = 0;
    proof {
        m0.lemma_mirrored();
    }
    while i < size
        invariant
            n == size,
            m0 == grid_of(*old(m), size),
            m0.wf(),
            grid_of(*m, size).wf(),
            goal.n == n,
            0 <= i <= size,
            forall|a: int, b: int|
                goal.has(a, b) ==> #[trigger] grid_of(*m, size).at(a, b) == m0.at(a, b) || grid_of(
                    *m,
                    size,
                ).at(a, b) == goal.at(a, b),
            forall|a: int, b: int|
                0 <= a < i && 0 <= b < n ==> #[trigger] grid_of(*m, size).at(a, b) == goal.at(a, b),
            forall|a: int, b: int|
                goal.has(a, b) && #[trigger] grid_of(*m, size).at(a, b) != m0.at(a, b) ==> repaired,
            repaired ==> !m0.coherent(),
            forall|a: int, b: int|
                m0.has(a, b) ==> #[trigger] goal.at(a, b) == grid::min2(
                    m0.at(a, b),
                    m0.at(arith::mirror(b), arith::mirror(a)),
                ),
        decreases size - i,
    {
        let ib: usize = mirror_index(i);
        let mut j: usize = 0;
        while j < size
            invariant
                n == size,
                m0 == grid_of(*old(m), size),
                m0.wf(),
                grid_of(*m, size).wf(),
                goal.n == n,
                0 <= i < size,
                ib == arith::mirror(i as int),
                0 <= j <= size,
                forall|a: int, b: int|
                    goal.has(a, b) ==> #[trigger] grid_of(*m, size).at(a, b) == m0.at(a, b)
                        || grid_of(*m, size).at(a, b) == goal.at(a, b),
                forall|a: int, b: int|
                    0 <= a < i && 0 <= b < n ==> #[trigger] grid_of(*m, size).at(a, b) == goal.at(
                        a,
                        b,
                    ),
                forall|b: int|
                    0 <= b < j ==> #[trigger] grid_of(*m, size).at(i as int, b) == goal.at(
                        i as int,
                        b,
                    ),
                forall|a: int, b: int|
                    goal.has(a, b) && #[trigger] grid_of(*m, size).at(a, b) != m0.at(a, b)
                        ==> repaired,
                repaired ==> !m0.coherent(),
                forall|a: int, b: int|
                    m0.has(a, b) ==> #[trigger] goal.at(a, b) == grid::min2(
                        m0.at(a, b),
                        m0.at(arith::mirror(b), arith::mirror(a)),
                    ),
            decreases size - j,
        {
            let jb: usize = mirror_index(j);
            let a: i128 = load(m, size, i, j);
            let b: i128 = load(m, size, jb, ib);
            let ghost before = grid_of(*m, size);
            let ghost (gi, gj) = (i as int, j as int);
            let ghost (gib, gjb) = (ib as int, jb as int);
            proof {
                assert(arith::mirror(arith::mirror(gi)) == gi);
                assert(arith::mirror(arith::mirror(gj)) == gj);
                assert(goal.at(gi, gj) == goal.at(gjb, gib));
                assert(before.at(gjb, gib) == m0.at(gjb, gib) || before.at(gjb, gib) == goal.at(
                    gjb,
                    gib,
                ));
            }
            if a < b {
                store(m, size, jb, ib, a);
                repaired = true;
                proof {
                    before.lemma_put(gjb, gib, a as int);
                    assert(m0.has(gi, gj));
                    assert(m0.at(gi, gj) != m0.at(arith::mirror(gj), arith::mirror(gi)));
                }
            } else if b < a {
                store(m, size, i, j, b);
                repaired = true;
                proof {
                    before.lemma_put(gi, gj, b as int);
                    assert(m0.has(gi, gj));
                    assert(m0.at(gi, gj) != m0.at(arith::mirror(gj), arith::mirror(gi)));
                }
            }
            j += 1;
        }
        i += 1;
    }
    proof {
        let g = grid_of(*m, size);
        g.lemma_ext(goal);
        if !repaired {
            assert forall|a: int, b: int| #[trigger] m0.has(a, b) implies m0.at(a, b) == m0.at(
                arith::mirror(b),
                arith::mirror(a),
            ) by {
                assert(g.at(a, b) == m0.at(a, b));
                assert(g.at(arith::mirror(b), arith::mirror(a)) == m0.at(
                    arith::mirror(b),
                    arith::mirror(a),
                ));
                assert(arith::mirror(arith::mirror(a)) == a);
                assert(arith::mirror(arith::mirror(b)) == b);
                assert(goal.at(arith::mirror(b), arith::mirror(a)) <= m0.at(a, b));
            }
        }
    }
    repaired
}

/// Runs the closing rounds.
fn run_rounds(m: &mut Vec<i128>, size: usize, exact: bool) -> (ok: bool)
    requires
        grid_of(*old(m), size).wf(),
    ensures
        ok == grid_of(*old(m), size).rounds(exact).ok,
        grid_of(*final(m), size) == grid_of(*old(m), size).rounds(exact).grid,
        grid_of(*final(m), size).wf(),
{
    strong_closure_pass(m, size);
    if exact {
        if !tight_closure_round(m, size) {
            return false;
        }
    }
    let ghost first = grid_of(*m, size);
    assert(first == grid_of(*old(m), size).round(exact).grid);
    let repaired: bool = repair_coherence(m, size);
    if repaired {
        strong_closure_pass(m, size);
        if exact {
            if !tight_closure_round(m, size) {
                return false;
            }
        }
    } else {
        proof {
            first.lemma_mirrored();
        }
    }
    true
}

/// Zeroes a diagonal without a negative cell; stops at the first one that is
/// negative.
fn normalize_diagonal(m: &mut Vec<i128>, size: usize) -> (ok: bool)
    requires
        grid_of(*old(m), size).wf(),
    ensures
        ok == (grid_of(*old(m), size).first_negative(0) == size),
        grid_of(*final(m), size) == grid_of(*old(m), size).zeroed(
            grid_of(*old(m), size).first_negative(0),
        ),
        grid_of(*final(m), size).wf(),
{
    let ghost g0 = grid_of(*m, size);
    let mut i: usize = 0;
    while i < size
        invariant
            g0 == grid_of(*old(m), size),
            0 <= i <= size,
            g0.wf(),
            grid_of(*m, size).wf(),
            grid_of(*m, size) == g0.zeroed(i as int),
            forall|a: int| i <= a < size ==> #[trigger] grid_of(*m, size).at(a, a) == g0.at(a, a),
            g0.first_negative(0) == g0.first_negative(i as int),
        decreases size - i,
    {
        let ghost before = grid_of(*m, size);
        assert(before.at(i as int, i as int) == g0.at(i as int, i as int));
        if load(m, size, i, i) < 0 {
            return false;
        }
        store(m, size, i, i, 0);
        proof {
            before.lemma_put(i as int, i as int, 0);
        }
        i += 1;
    }
    true
}

/// Replaces each minus infinity marker by "no bound".
fn remove_markers(m: &mut Vec<i128>, size: usize)
    ensures
        grid_of(*final(m), size) == grid_of(*old(m), size).unmarked(),
{
    let mut t: usize = 0;
    let ghost goal = grid_of(*m, size).unmarked().cells;
    while t < m.len()
        invariant
            goal == grid_of(*old(m), size).unmarked().cells,
            m@.len() == old(m)@.len(),
            0 <= t <= m@.len(),
            forall|u: int| 0 <= u < t ==> #[trigger] m@[u] == goal[u],
            forall|u: int| t <= u < m@.len() ==> #[trigger] m@[u] == old(m)@[u],
        decreases m.len() - t,
    {
        if m[t] == i128::MIN {
            m.set(t, DBM_INF);
        }
        t += 1;
    }
    assert(m@ =~= goal);
}

/// Closes a matrix; false where its bounds contradict each other.
pub(crate) fn close_cells(m: &mut Vec<i128>, size: usize, exact: bool) -> (ok: bool)
    requires
        grid_of(*old(m), size).wf(),
    ensures
        ok == grid_of(*old(m), size).closed_form(exact).ok,
        grid_of(*final(m), size) == grid_of(*old(m), size).closed_form(exact).grid,
        grid_of(*final(m), size).wf(),
{
    if !run_rounds(m, size, exact) {
        return false;
    }
    proof {
        grid_of(*m, size).lemma_first_negative(0);
    }
    if !normalize_diagonal(m, size) {
        return false;
    }
    remove_markers(m, size);
    true
}

} // verus!
