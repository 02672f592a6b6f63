//! The variables of linear expressions.
use crate::octagon::expr;
use crate::octagon::expr::OctExpr;
use vstd::prelude::*;

verus! {

/// The second expression is an operand of the first.
pub open spec fn is_operand(e: OctExpr, f: OctExpr) -> bool {
    match e {
        OctExpr::Add(l, r) => *l == f || *r == f,
        OctExpr::Sub(l, r) => *l == f || *r == f,
        OctExpr::Neg(x) => *x == f,
        OctExpr::Scale(_, x) => *x == f,
        _ => false,
    }
}

/// The variable stands in the expression, at most `depth` deep.
pub open spec fn stands_in(e: OctExpr, x: usize, depth: nat) -> bool
    decreases depth,
{
    ||| e == OctExpr::Var(x)
    ||| depth > 0 && exists|f: OctExpr| #[trigger]
        is_operand(e, f) && stands_in(f, x, (depth - 1) as nat)
}

proof fn lemma_grows(e: OctExpr, seen: Seq<usize>, x: usize)
    requires
        seen.contains(x),
    ensures
        e.vars_after(seen).contains(x),
    decreases e,
{
    match e {
        OctExpr::Const(_) => {},
        OctExpr::Var(i) => {
            let k = choose|k: int| 0 <= k < seen.len() && seen[k] == x;
            assert(expr::with_var(seen, i)[k] == x);
        },
        OctExpr::Add(l, r) => {
            lemma_grows(*l, seen, x);
            lemma_grows(*r, l.vars_after(seen), x);
        },
        OctExpr::Sub(l, r) => {
            lemma_grows(*l, seen, x);
            lemma_grows(*r, l.vars_after(seen), x);
        },
        OctExpr::Neg(f) => {
            lemma_grows(*f, seen, x);
        },
        OctExpr::Scale(_, f) => {
            lemma_grows(*f, seen, x);
        },
    }
}

proof fn lemma_operand(e: OctExpr, f: OctExpr, x: usize, seen: Seq<usize>)
    requires
        is_operand(e, f),
        forall|s: Seq<usize>| (#[trigger] f.vars_after(s)).contains(x),
    ensures
        e.vars_after(seen).contains(x),
{
    match e {
        OctExpr::Add(l, r) => {
            assert(e.vars_after(seen) == r.vars_after(l.vars_after(seen)));
            if *l == f {
                assert(l.vars_after(seen).contains(x));
                lemma_grows(*r, l.vars_after(seen), x);
            }
        },
        OctExpr::Sub(l, r) => {
            assert(e.vars_after(seen) == r.vars_after(l.vars_after(seen)));
            if *l == f {
                assert(l.vars_after(seen).contains(x));
                lemma_grows(*r, l.vars_after(seen), x);
            }
        },
        OctExpr::Neg(g) => {
            assert(e.vars_after(seen) == g.vars_after(seen));
        },
        OctExpr::Scale(_, g) => {
            assert(e.vars_after(seen) == g.vars_after(seen));
        },
        _ => {},
    }
}

/// A variable that stands in the expression, however deep, is collected.
pub proof fn law_variables_are_collected(e: OctExpr, x: usize, depth: nat, seen: Seq<usize>)
    requires
        stands_in(e, x, depth),
    ensures
        e.vars_after(seen).contains(x),
    decreases depth,
{
    if e == OctExpr::Var(x) {
        let after = expr::with_var(seen, x);
        if !seen.contains(x) {
            assert(after[seen.len() as int] == x);
        }
    } else {
        let f = choose|f: OctExpr| #[trigger]
            is_operand(e, f) && stands_in(f, x, (depth - 1) as nat);
        assert forall|s: Seq<usize>| (#[trigger] f.vars_after(s)).contains(x) by {
            law_variables_are_collected(f, x, (depth - 1) as nat, s);
        }
        lemma_operand(e, f, x, seen);
    }
}

/// Nothing else is collected, what was there stays in front, and nothing is collected twice.
pub proof fn law_only_variables_are_collected(e: OctExpr, seen: Seq<usize>)
    ensures
        seen.is_prefix_of(e.vars_after(seen)),
        seen.no_duplicates() ==> e.vars_after(seen).no_duplicates(),
        forall|x: usize| #[trigger]
            e.vars_after(seen).contains(x) ==> seen.contains(x) || exists|d: nat| #[trigger]
                stands_in(e, x, d),
    decreases e, 1nat,
{
    match e {
        OctExpr::Const(_) => {},
        OctExpr::Var(i) => {
            assert(stands_in(e, i, 0));
            assert forall|x: usize| #[trigger] e.vars_after(seen).contains(x) implies seen.contains(
                x,
            ) || exists|d: nat| #[trigger] stands_in(e, x, d) by {
                let k = choose|k: int|
                    0 <= k < e.vars_after(seen).len() && e.vars_after(seen)[k] == x;
                if k < seen.len() {
                    assert(seen[k] == x);
                }
            }
        },
        OctExpr::Add(l, r) => {
            lemma_two(e, *l, *r, seen);
        },
        OctExpr::Sub(l, r) => {
            lemma_two(e, *l, *r, seen);
        },
        OctExpr::Neg(f) => {
            lemma_one(e, *f, seen);
        },
        OctExpr::Scale(_, f) => {
            lemma_one(e, *f, seen);
        },
    }
}

proof fn lemma_one(e: OctExpr, f: OctExpr, seen: Seq<usize>)
    requires
        is_operand(e, f),
        e.vars_after(seen) == f.vars_after(seen),
        decreases_to!(e => f),
    ensures
        seen.is_prefix_of(e.vars_after(seen)),
        seen.no_duplicates() ==> e.vars_after(seen).no_duplicates(),
        forall|x: usize| #[trigger]
            e.vars_after(seen).contains(x) ==> seen.contains(x) || exists|d: nat| #[trigger]
                stands_in(e, x, d),
    decreases e, 0nat,
{
    law_only_variables_are_collected(f, seen);
    assert forall|x: usize| #[trigger] e.vars_after(seen).contains(x) implies seen.contains(x)
        || exists|d: nat| #[trigger] stands_in(e, x, d) by {
        assert(f.vars_after(seen).contains(x));
        if !seen.contains(x) {
            let d = choose|d: nat| #[trigger] stands_in(f, x, d);
            assert(stands_in(e, x, d + 1)) by {
                assert(is_operand(e, f));
                assert((d + 1 - 1) as nat == d);
            }
        }
    }
}

proof fn lemma_two(e: OctExpr, l: OctExpr, r: OctExpr, seen: Seq<usize>)
    requires
        is_operand(e, l),
        is_operand(e, r),
        e.vars_after(seen) == r.vars_after(l.vars_after(seen)),
        decreases_to!(e => l),
        decreases_to!(e => r),
    ensures
        seen.is_prefix_of(e.vars_after(seen)),
        seen.no_duplicates() ==> e.vars_after(seen).no_duplicates(),
        forall|x: usize| #[trigger]
            e.vars_after(seen).contains(x) ==> seen.contains(x) || exists|d: nat| #[trigger]
                stands_in(e, x, d),
    decreases e, 0nat,
{
    let mid = l.vars_after(seen);
    law_only_variables_are_collected(l, seen);
    law_only_variables_are_collected(r, mid);
    assert forall|x: usize| #[trigger] e.vars_after(seen).contains(x) implies seen.contains(x)
        || exists|d: nat| #[trigger] stands_in(e, x, d) by {
        assert(r.vars_after(mid).contains(x));
        if mid.contains(x) {
            if !seen.contains(x) {
                let d = choose|d: nat| #[trigger] stands_in(l, x, d);
                assert(stands_in(e, x, d + 1)) by {
                    assert((d + 1 - 1) as nat == d);
                }
            }
        } else {
            let d = choose|d: nat| #[trigger] stands_in(r, x, d);
            assert(stands_in(e, x, d + 1)) by {
                assert((d + 1 - 1) as nat == d);
            }
        }
    }
}

} // verus!
