//! What the condition at the head of a loop, the values before it and the lists
//! beside it say of the steps.
use super::laws;
use super::lower;
use super::problem::{ArithSem, CmpOp, Condition, LoopInstr, Scalar};
use super::separate;
use vstd::prelude::*;

verus! {

/// A step lets the loop go on in a state: a test passes, and other steps test
/// nothing.
pub open spec fn passes(ins: LoopInstr, s: Seq<int>) -> bool {
    match ins {
        LoopInstr::TestLe(i, c) => s[i as int] <= c,
        LoopInstr::TestGe(i, c) => s[i as int] >= c,
        LoopInstr::TestDiffLe(i, j, c) => s[i as int] - s[j as int] <= c,
        _ => true,
    }
}

proof fn lemma_guard(ins: LoopInstr, signed: Seq<bool>, s: Seq<int>)
    ensures
        lower::all_of(lower::guard_of(ins, signed)).holds(s) == passes(ins, s),
{
    reveal_with_fuel(Scalar::value, 4);
    reveal_with_fuel(Condition::holds, 4);
    let parts = lower::guard_of(ins, signed);
    laws::law_conjunction_holds(parts, s);
    match ins {
        LoopInstr::TestLe(i, c) => {
            assert(Scalar::Var(i).value(s) == s[i as int]);
            assert(Scalar::Const(c as int).value(s) == c);
            assert(parts[0].holds(s) == passes(ins, s));
        },
        LoopInstr::TestGe(i, c) => {
            assert(Scalar::Var(i).value(s) == s[i as int]);
            assert(Scalar::Const(c as int).value(s) == c);
            assert(parts[0].holds(s) == passes(ins, s));
        },
        LoopInstr::TestDiffLe(i, j, c) => {
            assert(Scalar::Var(i).value(s) == s[i as int]);
            assert(Scalar::Var(j).value(s) == s[j as int]);
            assert(Scalar::Const(c as int).value(s) == c);
            let d = Scalar::Sub(
                Box::new(Scalar::Var(i)),
                Box::new(Scalar::Var(j)),
                ArithSem::Wrap,
            );
            assert(d.value(s) == s[i as int] - s[j as int]);
            assert(parts[0].holds(s) == passes(ins, s));
        },
        _ => {},
    }
}

proof fn lemma_guards(list: Seq<LoopInstr>, k: nat, signed: Seq<bool>, s: Seq<int>)
    requires
        k <= list.len(),
    ensures
        lower::all_of(lower::guards(list, k, signed)).holds(s) <==> (forall|j: int|
            0 <= j < k ==> passes(#[trigger] list[j], s)),
    decreases k,
{
    if k > 0 {
        let j = (k - 1) as nat;
        lemma_guards(list, j, signed, s);
        lemma_guard(list[k - 1], signed, s);
        laws::lemma_all_of_both(
            lower::guards(list, j, signed),
            lower::guard_of(list[k - 1], signed),
            s,
        );
        assert(list[k - 1] == list[j as int]);
    }
}

/// The condition at the head of a loop problem holds in a state exactly where
/// every test among the steps passes in it.
pub proof fn law_guard_is_the_tests(list: Seq<LoopInstr>, signed: Seq<bool>, s: Seq<int>)
    ensures
        lower::all_of(lower::guards(list, list.len(), signed)).holds(s) <==> (forall|j: int|
            0 <= j < list.len() ==> passes(#[trigger] list[j], s)),
{
    lemma_guards(list, list.len(), signed, s);
}

/// The variable stands in the expression.
pub open spec fn names(e: Scalar, i: int) -> bool
    decreases e,
{
    match e {
        Scalar::Var(k) => k == i,
        Scalar::Const(_) => false,
        Scalar::Add(l, r, _) => names(*l, i) || names(*r, i),
        Scalar::Sub(l, r, _) => names(*l, i) || names(*r, i),
        Scalar::Ite(c, t, e) => names_in(*c, i) || names(*t, i) || names(*e, i),
    }
}

/// The variable stands in the condition.
pub open spec fn names_in(c: Condition, i: int) -> bool
    decreases c,
{
    match c {
        Condition::True => false,
        Condition::False => false,
        Condition::Compare { op, lhs, rhs, signed } => names(*lhs, i) || names(*rhs, i),
        Condition::And(a, b) => names_in(*a, i) || names_in(*b, i),
        Condition::Or(a, b) => names_in(*a, i) || names_in(*b, i),
        Condition::Not(a) => names_in(*a, i),
    }
}

/// The comparison is one of signed integers exactly where one of its variables
/// is signed.
pub open spec fn compares_as_declared(c: Condition, signed: Seq<bool>) -> bool {
    match c {
        Condition::Compare { op, lhs, rhs, signed: flag } => flag <==> exists|i: int|
            0 <= i < signed.len() && signed[i] && #[trigger] names_in(c, i),
        _ => false,
    }
}

proof fn lemma_guard_signs(ins: LoopInstr, signed: Seq<bool>, k: int)
    requires
        0 <= k < lower::guard_of(ins, signed).len(),
    ensures
        compares_as_declared(lower::guard_of(ins, signed)[k], signed),
{
    reveal_with_fuel(names, 3);
    reveal_with_fuel(names_in, 2);
    let c = lower::guard_of(ins, signed)[k];
    match ins {
        LoopInstr::TestLe(i, x) => {
            assert(names(Scalar::Var(i), i as int));
            assert(names_in(c, i as int));
        },
        LoopInstr::TestGe(i, x) => {
            assert(names(Scalar::Var(i), i as int));
            assert(names_in(c, i as int));
        },
        LoopInstr::TestDiffLe(i, j, x) => {
            let d = Scalar::Sub(
                Box::new(Scalar::Var(i)),
                Box::new(Scalar::Var(j)),
                ArithSem::Wrap,
            );
            assert(names(Scalar::Var(i), i as int) && names(Scalar::Var(j), j as int));
            assert(names(d, i as int) && names(d, j as int));
            assert(names_in(c, i as int) && names_in(c, j as int));
            assert forall|m: int| #[trigger] names_in(c, m) implies m == i || m == j by {
                assert(names(d, m));
                assert(names(Scalar::Var(i), m) || names(Scalar::Var(j), m));
            }
        },
        _ => {},
    }
}

/// The comparisons of the condition at the head are signed exactly where a
/// variable that they compare is.
pub proof fn law_guards_compare_as_declared(list: Seq<LoopInstr>, k: nat, signed: Seq<bool>, m: int)
    requires
        k <= list.len(),
        0 <= m < lower::guards(list, k, signed).len(),
    ensures
        compares_as_declared(lower::guards(list, k, signed)[m], signed),
    decreases k,
{
    if k > 0 {
        let before = lower::guards(list, (k - 1) as nat, signed);
        if m < before.len() {
            law_guards_compare_as_declared(list, (k - 1) as nat, signed, m);
        } else {
            lemma_guard_signs(list[k - 1], signed, m - before.len());
        }
    }
}

proof fn lemma_initial(n: nat, list: Seq<LoopInstr>, k: nat, s: Seq<int>)
    requires
        k <= list.len(),
        n <= s.len(),
        n <= usize::MAX,
        lower::only_constants(list, k as int),
        forall|j: int| 0 <= j < k ==> lower::fits(#[trigger] list[j], n),
    ensures
        lower::initial(n, list, k).len() == n,
        laws::run(list, k, s).len() == s.len(),
        forall|i: int|
            0 <= i < n ==> (#[trigger] lower::initial(n, list, k)[i]).value(s) == laws::run(
                list,
                k,
                s,
            )[i],
    decreases k,
{
    if k > 0 {
        let j = (k - 1) as nat;
        lemma_initial(n, list, j, s);
        assert(list[j as int] is ConstVar);
        assert(lower::fits(list[j as int], n));
        reveal_with_fuel(laws::run, 2);
        reveal_with_fuel(laws::run_one, 2);
        let before = lower::initial(n, list, j);
        let after = lower::initial(n, list, k);
        assert forall|i: int| 0 <= i < n implies (#[trigger] after[i]).value(s) == laws::run(
            list,
            k,
            s,
        )[i] by {
            assert(before[i].value(s) == laws::run(list, j, s)[i]);
        }
    } else {
        assert forall|i: int| 0 <= i < n implies (#[trigger] lower::initial(
            n,
            list,
            0,
        )[i]).value(s) == s[i] by {
            assert(lower::identity(n)[i] == Scalar::Var(i as usize));
        }
    }
}

/// The values before the loop are what the steps before it compute.
pub proof fn law_initial_values_run(n: nat, list: Seq<LoopInstr>, s: Seq<int>)
    requires
        n <= s.len(),
        n <= usize::MAX,
        lower::only_constants(list, list.len() as int),
        lower::initial_fits(list, n),
    ensures
        forall|i: int|
            0 <= i < n ==> (#[trigger] lower::initial(n, list, list.len())[i]).value(s)
                == laws::run(list, list.len(), s)[i],
{
    assert forall|j: int| 0 <= j < list.len() implies lower::fits(#[trigger] list[j], n) by {
        assert(lower::only_constants(list, j + 1));
    }
    lemma_initial(n, list, list.len(), s);
}

/// The saturating additions are listed: those among the steps, and no others.
pub proof fn law_saturating_additions_are_listed(list: Seq<LoopInstr>, k: nat, i: usize, c: i128)
    requires
        k <= list.len(),
    ensures
        lower::saturating(list, k).contains((i, c)) <==> (exists|j: int|
            0 <= j < k && #[trigger] list[j] == LoopInstr::AddSat(i, c)),
    decreases k,
{
    if k > 0 {
        let j = (k - 1) as nat;
        law_saturating_additions_are_listed(list, j, i, c);
        let before = lower::saturating(list, j);
        let now = lower::saturating(list, k);
        assert(list[j as int] == list[k - 1]);
        if now.contains((i, c)) {
            let m = choose|m: int| 0 <= m < now.len() && now[m] == (i, c);
            if m < before.len() {
                assert(before[m] == (i, c));
                assert(before.contains((i, c)));
            } else {
                assert(list[j as int] == LoopInstr::AddSat(i, c));
            }
        }
        if before.contains((i, c)) {
            let m = choose|m: int| 0 <= m < before.len() && before[m] == (i, c);
            assert(now[m] == (i, c));
        }
        if list[k - 1] == LoopInstr::AddSat(i, c) {
            assert(now.last() == (i, c));
        }
    }
}

/// What an addition asks for, where arithmetic traps, is a comparison of the
/// value of its variable, in the signedness of that variable.
pub proof fn law_range_compares_the_variable(
    list: Seq<LoopInstr>,
    k: nat,
    n: nat,
    widths: Seq<u8>,
    signed: Seq<bool>,
    head: Seq<int>,
    i: usize,
    c: i128,
)
    requires
        k < list.len(),
        n <= head.len(),
        n <= usize::MAX,
        lower::all_fit(list, list.len(), n),
        separate::all_in_range(list, list.len(), head.len()),
        list[k as int] == LoopInstr::AddVar(i, c),
        c != 0,
    ensures
        exists|m: int|
            0 <= m < lower::definitions(n, list, list.len(), widths, signed).len()
                && range_of(
                #[trigger] lower::definitions(n, list, list.len(), widths, signed)[m],
                lower::signed_at(signed, i as int),
                head,
                laws::run(list, k, head)[i as int],
            ),
{
    lemma_in_range(list, list.len(), head.len(), k);
    lemma_prefix_fits(list, list.len(), n, k);
    laws::lemma_identity_tracks(n, head);
    laws::lemma_steps_track(lower::identity(n), list, k, signed, head, head);
    lower::lemma_fit(list, list.len(), n, k as int);
    let vals = lower::steps(lower::identity(n), list, k, signed);
    let parts = lower::defined_when(vals, list[k as int], widths, signed);
    assert(vals[i as int].value(head) == laws::run(list, k, head)[i as int]);
    assert(parts.len() == 1);
    assert(range_of(
        parts[0],
        lower::signed_at(signed, i as int),
        head,
        laws::run(list, k, head)[i as int],
    ));
    let before = lower::definitions(n, list, k, widths, signed);
    let upto = lower::definitions(n, list, (k + 1) as nat, widths, signed);
    assert(upto == before + parts);
    assert(upto[before.len() as int] == parts[0]);
    lemma_definitions_grow(n, list, (k + 1) as nat, list.len(), widths, signed);
    let all = lower::definitions(n, list, list.len(), widths, signed);
    assert(all[before.len() as int] == parts[0]);
}

/// A comparison, signed or not, of a value in a state.
pub open spec fn range_of(c: Condition, flag: bool, s: Seq<int>, v: int) -> bool {
    match c {
        Condition::Compare { op, lhs, rhs, signed } => signed == flag && lhs.value(s) == v && (op
            == CmpOp::Le || op == CmpOp::Ge),
        _ => false,
    }
}

proof fn lemma_definitions_grow(
    n: nat,
    list: Seq<LoopInstr>,
    j: nat,
    k: nat,
    widths: Seq<u8>,
    signed: Seq<bool>,
)
    requires
        j <= k,
    ensures
        lower::definitions(n, list, j, widths, signed).is_prefix_of(
            lower::definitions(n, list, k, widths, signed),
        ),
    decreases k - j,
{
    if j < k {
        lemma_definitions_grow(n, list, j, (k - 1) as nat, widths, signed);
    }
}

proof fn lemma_in_range(list: Seq<LoopInstr>, m: nat, n: nat, k: nat)
    requires
        k <= m <= list.len(),
        separate::all_in_range(list, m, n),
    ensures
        separate::all_in_range(list, k, n),
    decreases m - k,
{
    if k < m {
        lemma_in_range(list, (m - 1) as nat, n, k);
    }
}

proof fn lemma_prefix_fits(list: Seq<LoopInstr>, m: nat, n: nat, k: nat)
    requires
        k <= m <= list.len(),
        lower::all_fit(list, m, n),
    ensures
        lower::all_fit(list, k, n),
    decreases m - k,
{
    if k < m {
        lemma_prefix_fits(list, (m - 1) as nat, n, k);
    }
}

} // verus!
