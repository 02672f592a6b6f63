use ponent::octagon::arith::{sat_add, sat_mul2, sat_sub, DBM_INF};
use ponent::octagon::dbm::{ClosureMode, Dbm};
use ponent::octagon::expr::OctExpr;

#[test]
fn test_strong_closure_deduces_sum() {
    let mut d = Dbm::new(2);
    d.set_mirrored(0, 1, 1);
    d.set_mirrored(2, 3, 2);
    assert!(d.close());
    let stored = d.m[0 * d.size + 3];
    assert_eq!(stored, 3);
}

#[test]
fn test_bottom_propagation() {
    let mut d = Dbm::new(1);
    d.set(1, 0, -2);
    d.set(0, 1, 0);
    assert!(!d.close());
    assert!(d.bottom);
    let j = d.join(&Dbm::new(1));
    assert!(!j.bottom);
    let m = d.meet(&Dbm::new(1));
    assert!(m.bottom);
}

#[test]
fn test_widen_no_close() {
    let mut cur = Dbm::new(1);
    cur.set(0, 1, 0);
    cur.close();
    let mut next = Dbm::new(1);
    next.set(0, 1, 2);
    next.close();
    let w = cur.widen(&next);
    assert_eq!(w.var_ub(0), None);
    assert_ne!(w, cur);
    assert_ne!(w, next);
}

#[test]
fn test_coherent_test_le_var() {
    let d = Dbm::new(1);
    let r = d.test_le_var(0, 5);
    assert!(!r.bottom);
    assert_eq!(r.m[0 * 2 + 1], 20);
    assert_eq!(r.var_ub(0), Some(5));
}

#[test]
fn test_golden_projections_bridge() {
    let mut d = Dbm::new(3);
    d.set_mirrored(0, 2, 4);
    d.set_mirrored(2, 4, 2);
    assert!(d.close());
    assert_eq!(d.diff_bound(0, 2), Some(6), "FW transitivity");
    let mut d = Dbm::new(2);
    d.set_mirrored(0, 1, 10);
    d.set_mirrored(2, 3, 6);
    assert!(d.close());
    assert_eq!(d.var_ub(0), Some(5));
    assert_eq!(d.var_ub(1), Some(3));
    assert_eq!(d.sum_ub(0, 1), Some(8), "interval→sum via self-dual edges");
    let mut d = Dbm::new(2);
    d.set_mirrored(0, 1, 1);
    d.set_mirrored(2, 3, 2);
    assert!(d.close());
    assert_eq!(
        d.sum_ub(0, 1),
        Some(1),
        "S⁺ composition (cf. [Miné06] Figure 9)"
    );
}

#[test]
fn test_closure_integer_exact_figure6() {
    let mut d = Dbm::new(1);
    d.set_mirrored(0, 1, 1);
    d.set_mirrored(1, 0, -1);
    assert!(d.close_with(ClosureMode::Strong), "real model x = 0.5");
    let mut d = Dbm::new(1);
    d.set_mirrored(0, 1, 1);
    d.set_mirrored(1, 0, -1);
    assert!(
        !d.close_with(ClosureMode::IntegerExact),
        "2x is even: no integer satisfies 2x ≤ 1 ∧ 2x ≥ 1"
    );
}

#[test]
fn test_closure_integer_exact_figure9() {
    let mut d = Dbm::new(2);
    d.set_mirrored(0, 1, 1);
    d.set_mirrored(2, 3, 2);
    assert!(d.close_with(ClosureMode::IntegerExact));
    assert_eq!(d.sum_ub(0, 1), Some(1), "integer-tight v₀+v₁ ≤ 1");
    assert_eq!(d.m[0 * d.size + 3], 2, "stored 2 (Strong leaves 3)");
}

#[test]
fn test_closure_integer_exact_propagates() {
    let mk = || {
        let mut d = Dbm::new(2);
        d.set_mirrored(0, 1, 5);
        d.set_mirrored(2, 0, 0);
        d.set_mirrored(3, 2, -5);
        d
    };
    let mut a = mk();
    assert!(a.close_with(ClosureMode::Strong), "real model x = y = 2.5");
    let mut b = mk();
    assert!(
        !b.close_with(ClosureMode::IntegerExact),
        "x ≤ 2 ∧ y ≤ x ∧ y ≥ 3 — the tightened bounds contradict"
    );
}

#[test]
fn test_closure_integer_exact_negative_half() {
    let mk = || {
        let mut d = Dbm::new(1);
        d.set_mirrored(0, 1, -5);
        d.set_mirrored(1, 0, 5);
        d
    };
    let mut a = mk();
    assert!(a.close_with(ClosureMode::Strong), "real model x = −2.5");
    let mut b = mk();
    assert!(
        !b.close_with(ClosureMode::IntegerExact),
        "2x even: 2x ≤ −6 ∧ 2x ≥ −4"
    );
}

#[test]
fn test_closure_integer_exact_noop_on_this_clean_input() {
    let mut a = Dbm::new(2);
    a.set_mirrored(0, 1, 10);
    a.set_mirrored(1, 0, -6);
    a.set_mirrored(2, 3, 8);
    a.set_mirrored(0, 2, 2);
    let mut b = a.clone();
    assert!(a.close_with(ClosureMode::Strong));
    assert!(b.close_with(ClosureMode::IntegerExact));
    assert_eq!(a, b, "integer-clean input: no self-dual entry is roundable");
}

#[test]
fn test_closure_integer_exact_stored_rounding() {
    let mut a = Dbm::new(1);
    a.set_mirrored(0, 1, 5);
    assert!(a.close_with(ClosureMode::Strong));
    assert_eq!(a.m[0 * 2 + 1], 10, "Strong: the real bound x ≤ 2.5");
    let mut b = Dbm::new(1);
    b.set_mirrored(0, 1, 5);
    assert!(b.close_with(ClosureMode::IntegerExact));
    assert_eq!(b.m[0 * 2 + 1], 8, "IntegerExact: 2x even ⟹ x ≤ 2");
    assert_eq!(b.var_ub(0), Some(2));
}

#[test]
fn test_sum_le_guard() {
    let d = Dbm::new(2);
    let r = d.test_sum_le(0, 1, 10);
    assert!(!r.bottom);
    assert_eq!(r.m[0 * r.size + 3], 20);
    assert_eq!(r.sum_ub(0, 1), Some(10));
}

#[test]
fn test_neg_sum_le_guard() {
    let d = Dbm::new(2);
    let r = d.test_neg_sum_le(0, 1, -5);
    assert!(!r.bottom);
    assert_eq!(r.m[3 * r.size + 0], -10);
    assert_eq!(r.m[1 * r.size + 2], -10);
}

#[test]
fn test_sum_eq_guard() {
    let d = Dbm::new(2);
    let r = d.test_sum_eq(0, 1, 7);
    assert!(!r.bottom);
    assert_eq!(r.sum_ub(0, 1), Some(7));
    assert!(r.m[1 * r.size + 2] <= -14);
}

#[test]
fn test_diff_eq_guard() {
    let d = Dbm::new(2);
    let r = d.test_diff_eq(0, 1, 3);
    assert!(!r.bottom);
    assert_eq!(r.diff_bound(0, 1), Some(3));
    assert_eq!(r.diff_bound(1, 0), Some(-3));
}

#[test]
fn test_var_eq_guard() {
    let d = Dbm::new(1);
    let r = d.test_var_eq(0, 42);
    assert!(!r.bottom);
    assert_eq!(r.var_ub(0), Some(42));
    assert_eq!(r.var_lb(0), Some(42));
}

#[test]
fn test_assign_copy_add_var() {
    let mut d = Dbm::new(2);
    d.set_mirrored(2, 3, 10);
    let mut d = Dbm::new(2);
    d.set_mirrored(2, 3, 20);
    d.set_mirrored(3, 2, 0);
    assert!(d.close());

    let r = d.assign_copy_add_var(0, 1, 5);
    assert!(!r.bottom);
    assert_eq!(r.diff_bound(0, 1), Some(5));
    assert_eq!(r.diff_bound(1, 0), Some(-5));
    assert!(r.var_ub(0).map_or(true, |v| v <= 15));
    assert!(r.var_lb(0).map_or(true, |v| v >= 5));
}

#[test]
fn test_assign_copy_add_var_zero_is_copy() {
    let mut d = Dbm::new(2);
    d.set_mirrored(2, 3, 8);
    d.set_mirrored(3, 2, -4);
    assert!(d.close());

    let r1 = d.assign_copy_var(0, 1);
    let r2 = d.assign_copy_add_var(0, 1, 0);
    assert_eq!(r1, r2, "X := Y should equal X := Y + 0");
}

#[test]
fn test_assign_expr_const() {
    let d = Dbm::new(1);
    let r = d.assign_expr_var(0, &OctExpr::Const(7));
    assert!(!r.bottom);
    assert_eq!(r.var_ub(0), Some(7));
    assert_eq!(r.var_lb(0), Some(7));
}

#[test]
fn test_assign_expr_var_copy() {
    let mut d = Dbm::new(2);
    d.set_mirrored(2, 3, 10);
    d.set_mirrored(3, 2, -6);
    assert!(d.close());

    let r = d.assign_expr_var(0, &OctExpr::Var(1));
    assert!(!r.bottom);
    assert_eq!(r.var_ub(0), Some(5));
    assert_eq!(r.var_lb(0), Some(3));
}

#[test]
fn test_assign_expr_add() {
    let mut d = Dbm::new(2);
    d.set_mirrored(0, 1, 4);
    d.set_mirrored(1, 0, 0);
    d.set_mirrored(2, 3, 6);
    d.set_mirrored(3, 2, -2);
    assert!(d.close());

    let expr = OctExpr::Var(0).add(OctExpr::Var(1));
    let r = d.assign_expr_var(0, &expr);
    assert!(!r.bottom);
    assert_eq!(r.var_ub(0), Some(5));
    assert_eq!(r.var_lb(0), Some(1));
}

#[test]
fn test_assign_expr_neg_scale() {
    let mut d = Dbm::new(1);
    d.set_mirrored(0, 1, 8);
    d.set_mirrored(1, 0, -2);
    assert!(d.close());

    let expr = OctExpr::Scale(-2, Box::new(OctExpr::Var(0)));
    let r = d.assign_expr_var(0, &expr);
    assert!(!r.bottom);
    assert_eq!(r.var_ub(0), Some(-2));
    assert_eq!(r.var_lb(0), Some(-8));
}

#[test]
fn test_guard_and() {
    let d = Dbm::new(1);
    let g1 = d.test_le_var(0, 5);
    let g2 = d.test_ge_var(0, 2);
    let combined = g1.guard_and(&g2);
    assert!(!combined.bottom);
    assert_eq!(combined.var_ub(0), Some(5));
    assert_eq!(combined.var_lb(0), Some(2));
}

#[test]
fn test_guard_and_contradiction() {
    let d = Dbm::new(1);
    let g1 = d.test_le_var(0, 2);
    let g2 = d.test_ge_var(0, 5);
    let combined = g1.guard_and(&g2);
    assert!(combined.bottom, "X ≤ 2 ∧ X ≥ 5 is unsatisfiable");
}

#[test]
fn test_guard_or() {
    let d = Dbm::new(1);
    let g1 = d.test_le_var(0, 3);
    let g2 = d.test_ge_var(0, 7);
    let combined = g1.guard_or(&g2);
    assert!(!combined.bottom);
}

#[test]
fn test_guard_not_le() {
    let d = Dbm::new(1);
    let r = d.guard_not_le_var(0, 3);
    assert!(!r.bottom);
    assert_eq!(r.var_lb(0), Some(4));
    assert_eq!(r.var_ub(0), None);
}

#[test]
fn test_guard_not_ge() {
    let d = Dbm::new(1);
    let r = d.guard_not_ge_var(0, 5);
    assert!(!r.bottom);
    assert_eq!(r.var_ub(0), Some(4));
    assert_eq!(r.var_lb(0), None);
}

#[test]
fn test_guard_not_sum_le() {
    let d = Dbm::new(2);
    let r = d.guard_not_sum_le(0, 1, 5);
    assert!(!r.bottom);
    assert!(r.m[3 * r.size + 0] <= -12);
}

#[test]
fn test_guard_not_diff_le() {
    let d = Dbm::new(2);
    let r = d.guard_not_diff_le(0, 1, 3);
    assert!(!r.bottom);
    assert!(r.m[2 * r.size + 0] <= -8);
}

fn reference_join(a: &Dbm, b: &Dbm) -> Dbm {
    let size = a.size;
    let mut m = Vec::with_capacity(size * size);
    for idx in 0..size * size {
        let i = idx / size;
        let j = idx % size;
        let (x, y) = (a.m[idx], b.m[idx]);
        m.push(if i == j { x.min(y) } else { x.max(y) });
    }
    let mut r = Dbm {
        size,
        m,
        bottom: false,
        closed: true,
    };
    r.close();
    r
}

#[test]
fn test_join_differential_no_close() {
    let mut a = Dbm::new(2);
    a.set_mirrored(0, 1, 4);
    a.set_mirrored(1, 0, -2);
    a.set_mirrored(0, 2, 3);
    assert!(a.close());
    let mut b = Dbm::new(2);
    b.set_mirrored(2, 3, 2);
    b.set_mirrored(0, 2, 1);
    assert!(b.close());
    let mut c1 = Dbm::new(2);
    c1.set_mirrored(0, 1, 1);
    c1.set_mirrored(2, 3, 2);
    assert!(c1.close());
    let mut d3a = Dbm::new(3);
    d3a.set_mirrored(0, 2, 4);
    d3a.set_mirrored(2, 4, 2);
    d3a.set_mirrored(0, 1, 3);
    assert!(d3a.close());
    let mut d3b = Dbm::new(3);
    d3b.set_mirrored(4, 0, -2);
    assert!(d3b.close());
    let top2 = Dbm::new(2);
    for (x, y) in [(&a, &b), (&c1, &b), (&d3a, &d3b), (&top2, &a)] {
        let j1 = x.join(y);
        let j2 = y.join(x);
        let slow = reference_join(x, y);
        assert_eq!(j1, slow, "differential mismatch");
        assert_eq!(j1, j2, "join must be symmetric");
        assert!(!j1.bottom);
        assert!(j1.is_strongly_closed());
    }
}

fn reference_assign_add(a: &Dbm, i: usize, c: i128) -> Dbm {
    let p = 2 * i;
    let q = 2 * i + 1;
    let mut m = a.m.clone();
    let delta = sat_mul2(c);
    for j in 0..a.size {
        m[p * a.size + j] = sat_add(m[p * a.size + j], delta);
        m[j * a.size + p] = sat_sub(m[j * a.size + p], delta);
        m[q * a.size + j] = sat_sub(m[q * a.size + j], delta);
        m[j * a.size + q] = sat_add(m[j * a.size + q], delta);
    }
    let mut r = Dbm {
        size: a.size,
        m,
        bottom: false,
        closed: true,
    };
    r.close();
    r
}

#[test]
fn test_assign_add_differential_no_close() {
    let mut a = Dbm::new(3);
    a.set_mirrored(0, 1, 4);
    a.set_mirrored(1, 0, -2);
    a.set_mirrored(0, 2, 3);
    a.set_mirrored(2, 4, 2);
    assert!(a.close());
    for &(i, c) in &[(0usize, -3i128), (0, 5), (1, 1), (2, -1)] {
        let fast = a.assign_add_var(i, c);
        let slow = reference_assign_add(&a, i, c);
        assert_eq!(fast, slow, "differential mismatch at (i={}, c={})", i, c);
        assert!(!fast.bottom);
        assert!(fast.is_strongly_closed());
    }
    for &(i, c) in &[(0usize, DBM_INF / 4 - 1), (0, -(DBM_INF / 4 - 1))] {
        let fast = a.assign_add_var(i, c);
        let slow = reference_assign_add(&a, i, c);
        assert_eq!(
            fast, slow,
            "large finite-delta mismatch at (i={}, c={})",
            i, c
        );
        assert!(!fast.bottom);
        assert!(fast.is_strongly_closed());
    }
    for &(i, c) in &[(0usize, i128::MAX / 4), (0, -(1i128 << 126))] {
        let r = a.assign_add_var(i, c);
        assert!(
            !r.bottom,
            "saturation corner (i={}, c={}) must not be bottom",
            i, c
        );
        assert_eq!(r.var_ub(i), None, "saturation corner (i={}, c={})", i, c);
        assert_eq!(r.var_lb(i), None, "saturation corner (i={}, c={})", i, c);
        assert!(r.is_strongly_closed());
    }
    let mut h = Dbm::new(2);
    h.set_mirrored(0, 1, 1);
    h.set_mirrored(2, 3, 2);
    assert!(h.close());
    assert_eq!(h.assign_add_var(0, 1), reference_assign_add(&h, 0, 1));
    assert!(h.assign_add_var(0, 1).is_strongly_closed());
}

#[test]
fn test_is_strongly_closed_tripwire() {
    assert!(Dbm::new(2).is_strongly_closed());
    assert!(Dbm::bottom().is_strongly_closed());
    let mut d = Dbm::new(2);
    d.set_mirrored(0, 1, 4);
    d.set_mirrored(0, 2, 3);
    assert!(d.close());
    assert!(d.is_strongly_closed());
    d.set(0, 2, 1);
    assert!(!d.is_strongly_closed());
}

#[test]
fn test_join_preserves_rounded_normal_form() {
    let mut a = Dbm::new(2);
    a.set_mirrored(0, 1, 5);
    a.set_mirrored(1, 0, -2);
    assert!(a.close_with(ClosureMode::IntegerExact));
    let mut b = Dbm::new(2);
    b.set_mirrored(0, 1, 3);
    b.set_mirrored(2, 3, 4);
    assert!(b.close_with(ClosureMode::IntegerExact));
    let j = a.join(&b);
    assert!(!j.bottom);
    for v in 0..j.size / 2 {
        for e in [2 * v, 2 * v + 1] {
            let s = j.m[e * j.size + (e ^ 1)];
            if s != DBM_INF {
                assert_eq!(s & 3, 0, "self-dual bound must stay ≡ 0 (mod 4)");
            }
        }
    }
}

#[test]
fn test_integer_exact_output_is_tightly_closed() {
    let mut d = Dbm::new(2);
    d.set_mirrored(0, 1, 5);
    d.set_mirrored(1, 0, -3);
    d.set_mirrored(2, 3, 7);
    d.set_mirrored(0, 2, 1);
    assert!(d.close_with(ClosureMode::IntegerExact));
    assert!(d.is_strongly_closed());
    for v in 0..d.size / 2 {
        for e in [2 * v, 2 * v + 1] {
            let s = d.m[e * d.size + (e ^ 1)];
            if s != DBM_INF {
                assert_eq!((s & 3), 0, "self-dual bound must stay ≡ 0 (mod 4)");
            }
        }
    }
}

#[test]
fn test_overflow_and_edge_cases() {
    let d = Dbm::new(1);
    let max_var = DBM_INF / 4 - 1;
    let r = d.assign_const_var(0, max_var);
    assert!(
        !r.bottom,
        "assign_const_var should not collapse to bottom on large valid constants"
    );
    assert_eq!(r.var_ub(0), Some(max_var));
    assert_eq!(r.var_lb(0), Some(max_var));
    let too_big = DBM_INF / 4 + 1;
    let r = Dbm::new(1).assign_const_var(0, too_big);
    assert!(!r.bottom);
    assert_eq!(r.var_ub(0), None);
    assert_eq!(r.var_lb(0), None);
    let too_neg = -(DBM_INF / 4) - 1;
    let r = Dbm::new(1).assign_const_var(0, too_neg);
    assert!(!r.bottom);
    assert_eq!(r.var_ub(0), None);
    assert_eq!(r.var_lb(0), None);
    let d = Dbm::new(1);
    let c = (i128::MAX / 2) + 1;
    let r = d.test_le_var(0, c);
    assert!(!r.bottom);
    assert_eq!(r.var_ub(0), None);
    let d = Dbm::new(1);
    let c_neg = i128::MIN / 2;
    let r = d.test_ge_var(0, c_neg);
    assert!(!r.bottom);
    assert_eq!(r.var_lb(0), None);
    let mut d = Dbm::new(2);
    d.set_mirrored(0, 1, 10);
    d.set_mirrored(2, 3, 4);
    d.close();
    let before = d.clone();
    let copied = d.assign_copy_var(0, 0);
    assert_eq!(
        before, copied,
        "assign_copy_var(i, i) must be a no-op identity"
    );
}

#[test]
fn test_assign_add_var_saturation_closes() {
    let mut a = Dbm::new(2);
    a.set_mirrored(0, 1, 2);
    a.set_mirrored(1, 2, 2);
    a.set_mirrored(0, 2, 4);
    assert!(a.close());
    assert_eq!(a.m[0 * a.size + 2], 8);
    assert!(a.is_strongly_closed());
    let c = (DBM_INF - 7) / 2;
    let r = a.assign_add_var(0, c);
    assert!(!r.bottom);
    assert!(r.is_strongly_closed(), "saturated update must stay closed");
    assert_eq!(
        r.m[0 * r.size + 2],
        DBM_INF,
        "clipped edge stays a sound weakening"
    );
    assert_eq!(r.m[3 * r.size + 1], DBM_INF, "mirror clipped coherently");
}

#[test]
fn test_assign_add_var_saturation_repairs_loose_input() {
    let mut a = Dbm::new(2);
    a.set_mirrored(0, 1, 2);
    a.set_mirrored(0, 2, 1);
    a.set_mirrored(2, 3, 2);
    a.set_mirrored(0, 3, 5);
    assert!(!a.is_strongly_closed(), "premise: loose input");
    let c = (1i128 << 124) - 4;
    let r = a.assign_add_var(0, c);
    assert!(!r.bottom);
    assert!(
        r.is_strongly_closed(),
        "fallback close must repair the loose input"
    );
    assert_eq!(
        r.m[0 * r.size + 3],
        (1i128 << 125) - 2,
        "direct edge re-closed to the surviving path bound"
    );
    assert_eq!(
        r.m[2 * r.size + 1],
        (1i128 << 125) - 2,
        "mirror edge recovered coherently"
    );
}

#[test]
fn test_var_lb_saturated_lower_edge_is_none() {
    let mut d = Dbm::new(2);
    d.m[1 * d.size + 2] = -(1i128 << 126);
    d.m[3 * d.size + 0] = -(1i128 << 126);
    d.m[2 * d.size + 0] = -(1i128 << 126);
    d.m[1 * d.size + 3] = -(1i128 << 126);
    assert!(d.close(), "constraints are satisfiable (no negative cycle)");
    assert!(!d.bottom);
    assert!(
        d.is_strongly_closed(),
        "the skipped i128::MIN sum must not break strong closure"
    );
    assert_eq!(
        d.m[1 * d.size + 0],
        i128::MIN + 4,
        "closure clamps the unrepresentable i128::MIN path sum to MIN + 4"
    );
    assert_eq!(
        d.var_lb(0),
        None,
        "saturated lower bound projects to ∞, not Some(DBM_INF)"
    );
    assert_eq!(d.var_ub(0), None);
    let mut e = Dbm::new(1);
    e.m[1 * 2 + 0] = i128::MIN + 4;
    assert_eq!(
        e.var_lb(0),
        None,
        "DBM_INF sentinel must not leak into Some(..)"
    );
}

#[test]
fn test_close_detects_extreme_negative_cycle() {
    let mut d = Dbm::new(1);
    d.set_mirrored(0, 1, -(1i128 << 125));
    d.set_mirrored(1, 0, -(1i128 << 125));
    assert!(
        !d.close(),
        "X ≤ −2^124 ∧ X ≥ 2^124 is unsatisfiable — must be bottom"
    );
    assert!(d.bottom);
}

#[test]
fn test_guard_unrepresentable_bound_is_sound() {
    let r = Dbm::new(1).test_le_var(0, -(1i128 << 125));
    assert!(
        !r.bottom,
        "the guard's concrete post is non-empty — bottom would be unsound"
    );
    assert_eq!(
        r.var_ub(0),
        None,
        "unrepresentable bound drops to no bound (sound)"
    );
    let r = Dbm::new(1).test_ge_var(0, 1i128 << 125);
    assert!(!r.bottom);
    assert_eq!(r.var_lb(0), None);
    let r = Dbm::new(2).test_diff_le(0, 1, -(1i128 << 126));
    assert!(!r.bottom);
}

#[test]
fn test_close_idempotent_on_corner_matrices() {
    let cases: Vec<(usize, Vec<(usize, usize, i128)>)> = vec![
        (
            2,
            vec![(0, 1, -(1i128 << 125) - 1), (1, 2, -(1i128 << 125))],
        ),
        (
            2,
            vec![(0, 1, -(1i128 << 125) + 1), (1, 2, -(1i128 << 125))],
        ),
        (
            2,
            vec![(0, 2, -(1i128 << 125) + 1), (2, 1, -(1i128 << 125))],
        ),
        (
            2,
            vec![
                (0, 1, -(1i128 << 126) + 2),
                (0, 2, -(1i128 << 125)),
                (2, 1, -(1i128 << 125)),
                (2, 3, 1),
            ],
        ),
        (
            3,
            vec![
                (0, 4, -(1i128 << 125)),
                (4, 5, -(1i128 << 125)),
                (5, 2, (DBM_INF - 1) / 2),
            ],
        ),
    ];
    for (n_vars, edges) in cases {
        let mut d = Dbm::new(n_vars);
        for &(a, b, c) in &edges {
            d.set_mirrored(a, b, c);
        }
        if d.close() {
            assert!(
                d.is_strongly_closed(),
                "close output must pass the checker (corner matrix)"
            );
            let mut d2 = d.clone();
            assert!(d2.close());
            assert_eq!(d, d2, "close must be idempotent on corner matrices");
        } else {
            assert!(d.bottom, "failed close must be bottom");
        }
    }
}

#[test]
fn test_integer_exact_converges_on_corner_input() {
    let mut d = Dbm::new(2);
    d.set_mirrored(0, 2, -(1i128 << 125) + 1);
    d.set_mirrored(2, 1, -(1i128 << 125));
    assert!(
        d.close_with(ClosureMode::IntegerExact),
        "satisfiable corner input must converge to a non-bottom fixpoint"
    );
    assert!(!d.bottom);
}

#[test]
fn test_join_stays_closed_on_corner_inputs() {
    let mut a = Dbm::new(2);
    a.set_mirrored(0, 1, -(1i128 << 125) - 1);
    a.set_mirrored(1, 2, -(1i128 << 125));
    assert!(a.close() && a.is_strongly_closed());
    let mut b = Dbm::new(2);
    b.set_mirrored(0, 1, -(1i128 << 125) + 1);
    b.set_mirrored(1, 2, -(1i128 << 125));
    assert!(b.close() && b.is_strongly_closed());
    let m = a.join(&b);
    assert!(!m.bottom);
    assert!(
        m.is_strongly_closed(),
        "join of closed corner matrices must stay closed"
    );
    let mut m2 = m.clone();
    assert!(m2.close());
    assert_eq!(m, m2, "join output is already closed (close is a no-op)");
}

#[test]
fn test_checker_pass_implies_close_noop_on_corner() {
    let mut p = Dbm::new(2);
    p.set_mirrored(0, 1, -(1i128 << 126) + 2);
    p.set_mirrored(0, 2, -(1i128 << 125));
    p.set_mirrored(2, 1, -(1i128 << 125));
    p.set_mirrored(2, 3, 1);
    assert!(
        p.is_strongly_closed(),
        "checker must accept the corner fixpoint"
    );
    let mut q = p.clone();
    assert!(q.close());
    assert_eq!(p, q, "a checker-passing matrix is a true fixpoint");
}

#[test]
fn test_assign_add_corner_scan_stays_closed() {
    let mut a = Dbm::new(2);
    a.set_mirrored(0, 1, -(1i128 << 125));
    a.set_mirrored(1, 2, -(1i128 << 125));
    assert!(a.close());
    assert!(a.is_strongly_closed());
    let r = a.assign_add_var(0, 1);
    assert!(!r.bottom);
    assert!(
        r.is_strongly_closed(),
        "corner-regime assign_add_var must stay strongly closed"
    );
}

fn boxed(x: (i128, i128), y: (i128, i128)) -> Dbm {
    Dbm::new(2)
        .test_le_var(0, x.1)
        .test_ge_var(0, x.0)
        .test_le_var(1, y.1)
        .test_ge_var(1, y.0)
}

#[test]
fn saturated_arithmetic() {
    assert_eq!(sat_add(3, 4), 7);
    assert_eq!(sat_add(DBM_INF, -5), DBM_INF);
    assert_eq!(sat_sub(DBM_INF, 5), DBM_INF);
    assert_eq!(sat_sub(3, 10), -7);
    assert_eq!(sat_mul2(21), 42);
    assert_eq!(sat_mul2(DBM_INF), DBM_INF);
}

#[test]
fn closing_a_box_bounds_sums_and_differences() {
    let d = boxed((1, 3), (10, 20));
    assert!(d.is_strongly_closed());
    assert_eq!(d.sum_ub(0, 1), Some(23));
    assert_eq!(d.diff_bound(0, 1), Some(-7));
    assert_eq!(d.diff_bound(1, 0), Some(19));
}

#[test]
fn closing_again_changes_nothing() {
    let mut d = boxed((1, 3), (10, 20)).test_sum_le(0, 1, 15);
    let before = d.clone();
    assert!(d.close());
    assert_eq!(d, before);
}

#[test]
fn integers_round_where_rationals_do_not() {
    let mut d = Dbm::new(1);
    d.set_mirrored(0, 1, 7);
    let mut e = d.clone();
    assert!(d.close_with(ClosureMode::Strong));
    assert!(e.close_with(ClosureMode::IntegerExact));
    assert_eq!(d.m[1], 14);
    assert_eq!(e.m[1], 12);
}

#[test]
fn meeting_intersects() {
    let m = boxed((0, 10), (0, 10)).meet(&boxed((5, 15), (-5, 5)));
    assert_eq!(m.var_lb(0), Some(5));
    assert_eq!(m.var_ub(0), Some(10));
    assert_eq!(m.var_lb(1), Some(0));
    assert_eq!(m.var_ub(1), Some(5));
}

#[test]
fn joining_keeps_both_sides() {
    let j = boxed((0, 1), (0, 1)).join(&boxed((4, 5), (4, 5)));
    assert_eq!(j.var_lb(0), Some(0));
    assert_eq!(j.var_ub(0), Some(5));
    assert_eq!(j.diff_bound(0, 1), Some(1));
    assert!(j.is_strongly_closed());
}

#[test]
fn joining_with_bottom_keeps_the_other() {
    let d = boxed((0, 1), (0, 1));
    assert_eq!(Dbm::bottom().join(&d), d);
    assert_eq!(d.join(&Dbm::bottom()), d);
}

#[test]
fn widening_drops_what_grew() {
    let w = boxed((0, 1), (0, 1)).widen(&boxed((0, 2), (0, 1)));
    assert_eq!(w.var_ub(0), None);
    assert_eq!(w.var_lb(0), Some(0));
    assert_eq!(w.var_ub(1), Some(1));
}

#[test]
fn a_widening_chain_ends() {
    let mut d = boxed((0, 0), (0, 0));
    let mut steps = 0;
    loop {
        let next = d.widen(&d.join(&d.assign_add_var(0, 1)));
        if next == d {
            break;
        }
        d = next;
        steps += 1;
        assert!(steps < 20);
    }
    assert_eq!(d.var_ub(0), None);
    assert_eq!(d.var_lb(0), Some(0));
}

#[test]
fn forgetting_frees_one_variable() {
    let d = boxed((1, 3), (10, 20)).forget_var(0);
    assert_eq!(d.var_ub(0), None);
    assert_eq!(d.var_lb(0), None);
    assert_eq!(d.sum_ub(0, 1), None);
    assert_eq!(d.var_ub(1), Some(20));
}

#[test]
fn adding_moves_the_points() {
    let d = boxed((1, 3), (10, 20)).assign_add_var(0, 5);
    assert_eq!(d.var_lb(0), Some(6));
    assert_eq!(d.var_ub(0), Some(8));
    assert_eq!(d.diff_bound(0, 1), Some(-2));
    assert!(d.is_strongly_closed());
}

#[test]
fn copying_ties_two_variables() {
    let d = boxed((1, 3), (10, 20)).assign_copy_var(0, 1);
    assert_eq!(d.diff_bound(0, 1), Some(0));
    assert_eq!(d.diff_bound(1, 0), Some(0));
    assert_eq!(d.var_ub(0), Some(20));
}

#[test]
fn guards_negate() {
    let d = boxed((0, 10), (0, 10));
    assert_eq!(d.guard_not_le_var(0, 4).var_lb(0), Some(5));
    assert_eq!(d.guard_not_ge_var(0, 4).var_ub(0), Some(3));
    assert_eq!(d.guard_not_sum_le(0, 1, 15).sum_ub(0, 1), Some(20));
    assert_eq!(d.guard_not_diff_le(0, 1, 4).diff_bound(1, 0), Some(-5));
}

#[test]
fn a_top_has_no_bound() {
    let t = boxed((1, 3), (10, 20)).top();
    assert_eq!(t.size, 4);
    assert_eq!(t.var_ub(0), None);
    assert_eq!(t, Dbm::new(2));
    assert!(Dbm::eq(&t, &Dbm::new(2)));
}

#[test]
fn expressions_have_intervals() {
    let d = boxed((1, 3), (10, 20));
    assert_eq!(OctExpr::konst(7).eval_interval(&d), (7, 7));
    assert_eq!(OctExpr::var(0).eval_interval(&d), (1, 3));
    assert_eq!(OctExpr::var(0).add(OctExpr::var(1)).eval_interval(&d), (11, 23));
    assert_eq!(OctExpr::var(1).sub(OctExpr::var(0)).eval_interval(&d), (7, 19));
    assert_eq!(OctExpr::var(0).neg().eval_interval(&d), (-3, -1));
    assert_eq!(OctExpr::scale(-2, OctExpr::var(0)).eval_interval(&d), (-6, -2));
    assert_eq!(OctExpr::scale(3, OctExpr::var(0)).eval_interval(&d), (3, 9));
}

#[test]
fn expressions_list_their_variables() {
    let e = OctExpr::var(1).add(OctExpr::scale(2, OctExpr::var(0).sub(OctExpr::konst(4))));
    let mut out = Vec::new();
    e.free_vars(&mut out);
    assert_eq!(out, vec![1, 0]);
}

#[test]
fn intervals_hold_at_the_extremes() {
    let free = Dbm::new(1);
    let x = OctExpr::var(0);
    assert_eq!(x.eval_interval(&free), (i128::MIN, DBM_INF));
    let sum = x.clone().add(OctExpr::konst(i128::MAX));
    assert_eq!(sum.eval_interval(&free), (i128::MIN, DBM_INF));
    let difference = OctExpr::konst(5).sub(x.clone());
    assert_eq!(difference.eval_interval(&free), (i128::MIN, DBM_INF));
    assert_eq!(x.clone().neg().eval_interval(&free), (i128::MIN, DBM_INF));
    assert_eq!(OctExpr::scale(-1, x.clone()).eval_interval(&free), (i128::MIN, DBM_INF));
    assert_eq!(OctExpr::scale(0, x).eval_interval(&free), (0, 0));
    let below = Dbm::new(1).test_le_var(0, 4);
    assert_eq!(OctExpr::scale(-3, OctExpr::var(0)).eval_interval(&below), (-12, DBM_INF));
}

#[test]
fn integer_bounds_are_attained() {
    let mut d = boxed((0, 7), (0, 9)).test_sum_le(0, 1, 10).test_diff_le(0, 1, 3);
    assert!(d.close_with(ClosureMode::IntegerExact));
    let mut points = Vec::new();
    for x in 0..=7i128 {
        for y in 0..=9i128 {
            if x + y <= 10 && x - y <= 3 {
                points.push((x, y));
            }
        }
    }
    assert_eq!(d.var_ub(0), points.iter().map(|p| p.0).max());
    assert_eq!(d.var_ub(1), points.iter().map(|p| p.1).max());
    assert_eq!(d.var_lb(0), points.iter().map(|p| p.0).min());
    assert_eq!(d.sum_ub(0, 1), points.iter().map(|p| p.0 + p.1).max());
    assert_eq!(d.diff_bound(0, 1), points.iter().map(|p| p.0 - p.1).max());
    assert_eq!(d.diff_bound(1, 0), points.iter().map(|p| p.1 - p.0).max());
}

#[test]
fn a_join_is_the_least_octagon() {
    let j = boxed((0, 2), (0, 1)).join(&boxed((3, 4), (5, 6)));
    assert_eq!(j.var_ub(0), Some(4));
    assert_eq!(j.var_ub(1), Some(6));
    assert_eq!(j.sum_ub(0, 1), Some(10));
    assert_eq!(j.diff_bound(0, 1), Some(2));
    assert_eq!(j.diff_bound(1, 0), Some(3));
}

#[test]
fn adding_back_restores_the_octagon() {
    let d = boxed((1, 3), (10, 20)).test_sum_le(0, 1, 15);
    assert_eq!(d.assign_add_var(0, 5).assign_add_var(0, -5), d);
}

#[test]
fn small_constants_close_exactly() {
    let mut d = Dbm::new(3);
    d.set_mirrored(0, 2, 4);
    d.set_mirrored(2, 4, -7);
    d.set_mirrored(4, 1, 9);
    assert!(d.close_with(ClosureMode::IntegerExact));
    assert!(d.is_strongly_closed());
    assert_eq!(d.diff_bound(0, 2), Some(-3));
    assert_eq!(d.sum_ub(0, 2), Some(9));
    assert_eq!(d.var_ub(0), Some(3));
}

/// `2^90`.
const LARGE: i128 = 1_237_940_039_285_380_274_899_124_224;

/// Each of 32 variables is at most the one before it plus `step`, and twice the
/// first is at most `-LARGE`.
fn long_chain(step: i128) -> Dbm {
    let mut d = Dbm::new(32);
    for v in 1..32 {
        d.set_mirrored(2 * v, 2 * (v - 1), step);
    }
    d.set_mirrored(0, 1, -LARGE);
    d
}

#[test]
fn many_variables_with_large_constants_are_closed() {
    for mode in [ClosureMode::Strong, ClosureMode::IntegerExact] {
        let mut d = long_chain(LARGE);
        assert!(d.close_with(mode));
        assert!(d.is_strongly_closed());
        assert_eq!(d.diff_bound(31, 0), Some(31 * LARGE));
        assert_eq!(d.var_ub(31), Some(31 * LARGE - LARGE / 2));
    }
}

#[test]
fn a_contradiction_over_many_variables_shows() {
    for mode in [ClosureMode::Strong, ClosureMode::IntegerExact] {
        let mut d = long_chain(-LARGE);
        d.set_mirrored(0, 62, 31 * LARGE - 1);
        assert!(!d.close_with(mode));
        let mut e = long_chain(-LARGE);
        e.set_mirrored(0, 62, 31 * LARGE);
        assert!(e.close_with(mode));
    }
}

#[test]
fn joining_keeps_odd_bounds_of_one_variable() {
    let mut a = Dbm::new(1);
    a.set(0, 1, 7);
    a.set(1, 0, -7);
    assert!(a.close());
    let mut b = Dbm::new(1);
    b.set(0, 1, 3);
    b.set(1, 0, 5);
    assert!(b.close());
    assert!(a.is_strongly_closed());
    assert!(b.is_strongly_closed());
    let j = a.join(&b);
    assert_eq!((j.m[1], j.m[2]), (14, 10));
    assert_eq!(b.join(&a), j);
    assert!(j.is_strongly_closed());
}

fn unmirrored() -> Dbm {
    let mut d = Dbm::new(2);
    for (i, j, c) in [(3, 1, 1), (0, 1, 4), (1, 0, -3), (2, 3, 3), (3, 0, -1), (3, 2, -2)] {
        d.set(i, j, c);
    }
    d
}

#[test]
fn bounds_without_their_mirrors_are_closed() {
    let mut d = unmirrored();
    assert!(d.close_with(ClosureMode::Strong));
    assert_eq!(d.m, vec![0, 8, 2, 7, -6, 0, -5, 0, 0, 7, 0, 6, -5, 2, -4, 0]);
    assert!(d.is_strongly_closed());
    let mut e = unmirrored();
    assert!(e.close_with(ClosureMode::IntegerExact));
    assert_eq!(e.m, vec![0, 8, 2, 6, -8, 0, -6, -2, -2, 6, 0, 4, -6, 2, -4, 0]);
    assert!(e.is_strongly_closed());
}

#[test]
fn a_contradiction_without_mirrors_shows() {
    for mode in [ClosureMode::Strong, ClosureMode::IntegerExact] {
        let mut d = Dbm::new(2);
        d.set(0, 2, -1);
        d.set(1, 3, 0);
        assert!(!d.close_with(mode));
        let mut e = Dbm::new(2);
        e.set(0, 2, -1);
        e.set(1, 3, 1);
        assert!(e.close_with(mode));
        assert_eq!(e.diff_bound(1, 0), Some(1));
        assert!(e.is_strongly_closed());
    }
}

#[test]
fn closing_twice_gives_what_the_mirrored_bounds_give() {
    let bounds =
        [(0, 2, 0), (1, 0, 3), (2, 3, 2), (2, 4, 3), (3, 1, 0), (4, 5, -1), (5, 0, 0)];
    for mode in [ClosureMode::Strong, ClosureMode::IntegerExact] {
        let mut d = Dbm::new(3);
        let mut e = Dbm::new(3);
        for (i, j, c) in bounds {
            d.set(i, j, c);
            e.set_mirrored(i, j, c);
        }
        assert!(d.close_with(mode));
        assert!(e.close_with(mode));
        assert_eq!(d.m, e.m);
        assert!(d.is_strongly_closed());
    }
}
