//! From the steps of a loop to a loop problem.
use super::big::BigNum;
use super::problem;
use super::problem::{
    ArithSem, BiiLoopProblem, BiiVar, CmpOp, Cond, Condition, EdgeKind, LoopInstr, Scalar,
    ScalarExpr, TransitionEdge,
};
use crate::symbol::Symbol;
use vstd::arithmetic::power2;
use vstd::prelude::*;

verus! {

// ---------------------------------------------------------------------------
// Meaning
// ---------------------------------------------------------------------------

/// The width of a variable; 64 bits where none is given.
pub open spec fn width_at(widths: Seq<u8>, i: int) -> u8 {
    if 0 <= i < widths.len() {
        widths[i]
    } else {
        64
    }
}

/// A variable is signed; where nothing is given, it is not.
pub open spec fn signed_at(signed: Seq<bool>, i: int) -> bool {
    0 <= i < signed.len() && signed[i]
}

/// A variable, with its width and signedness.
pub open spec fn variable(vars: Seq<Symbol>, widths: Seq<u8>, signed: Seq<bool>, i: int) -> BiiVar {
    BiiVar { symbol: vars[i], bw: width_at(widths, i), signed: signed_at(signed, i) }
}

/// Every variable by itself.
pub open spec fn identity(n: nat) -> Seq<Scalar> {
    Seq::new(n, |k: int| Scalar::Var(k as usize))
}

/// The sum of an expression and a constant.
pub open spec fn plus(e: Scalar, c: i128, sem: ArithSem) -> Scalar {
    Scalar::Add(Box::new(e), Box::new(Scalar::Const(c as int)), sem)
}

/// The signedness of an expression that is a variable of the loop.
pub open spec fn known_sign(e: Scalar, signed: Seq<bool>, n: nat) -> Option<bool> {
    match e {
        Scalar::Var(i) => if i < n && i < signed.len() {
            Some(signed[i as int])
        } else {
            None
        },
        _ => None,
    }
}

/// A condition with the signedness of each comparison taken from the
/// variables that it compares.
pub open spec fn with_signs(c: Condition, signed: Seq<bool>, n: nat) -> Condition
    decreases c,
{
    match c {
        Condition::Compare { op, lhs, rhs, signed: _ } => Condition::Compare {
            op,
            lhs,
            rhs,
            signed: match known_sign(*lhs, signed, n) {
                Some(s) => s,
                None => match known_sign(*rhs, signed, n) {
                    Some(s) => s,
                    None => false,
                },
            },
        },
        Condition::And(a, b) => Condition::And(
            Box::new(with_signs(*a, signed, n)),
            Box::new(with_signs(*b, signed, n)),
        ),
        Condition::Or(a, b) => Condition::Or(
            Box::new(with_signs(*a, signed, n)),
            Box::new(with_signs(*b, signed, n)),
        ),
        Condition::Not(a) => Condition::Not(Box::new(with_signs(*a, signed, n))),
        _ => c,
    }
}

/// The values after a branch: what both arms agree on, or a choice.
pub open spec fn merged(c: Condition, t: Seq<Scalar>, e: Seq<Scalar>) -> Seq<Scalar> {
    Seq::new(
        t.len(),
        |k: int|
            if t[k] == e[k] {
                t[k]
            } else {
                Scalar::Ite(Box::new(c), Box::new(t[k]), Box::new(e[k]))
            },
    )
}

/// The values of the variables after a step, in terms of those at the head.
/// The condition of a branch reads the values before it.
pub open spec fn step(vals: Seq<Scalar>, ins: LoopInstr, signed: Seq<bool>) -> Seq<Scalar>
    decreases ins, 0nat,
{
    match ins {
        LoopInstr::AddVar(i, c) => vals.update(
            i as int,
            plus(vals[i as int], c, ArithSem::Wrap),
        ),
        LoopInstr::AddSat(i, c) => vals.update(
            i as int,
            plus(vals[i as int], c, ArithSem::Saturate),
        ),
        LoopInstr::ConstVar(i, c) => vals.update(i as int, Scalar::Const(c as int)),
        LoopInstr::CopyVar(i, j) => vals.update(
            i as int,
            if j < vals.len() {
                vals[j as int]
            } else {
                Scalar::Var(j)
            },
        ),
        LoopInstr::If(c, t, e) => merged(
            with_signs(c@, signed, vals.len()).replaced(vals),
            steps(vals, t@, t@.len(), signed),
            steps(vals, e@, e@.len(), signed),
        ),
        _ => vals,
    }
}

/// The values of the variables after the first `k` steps.
pub open spec fn steps(vals: Seq<Scalar>, list: Seq<LoopInstr>, k: nat, signed: Seq<bool>) -> Seq<
    Scalar,
>
    decreases list, k,
{
    if k == 0 || k > list.len() {
        vals
    } else {
        step(steps(vals, list, (k - 1) as nat, signed), list[k - 1], signed)
    }
}

/// A comparison of an expression with a constant.
pub open spec fn bounded(op: CmpOp, e: Scalar, c: int, signed: bool) -> Condition {
    Condition::Compare {
        op,
        lhs: Box::new(e),
        rhs: Box::new(Scalar::Const(c)),
        signed,
    }
}

/// What a test asks of the state at the head.
pub open spec fn guard_of(ins: LoopInstr, signed: Seq<bool>) -> Seq<Condition> {
    match ins {
        LoopInstr::TestLe(i, c) => seq![
            bounded(CmpOp::Le, Scalar::Var(i), c as int, signed_at(signed, i as int)),
        ],
        LoopInstr::TestGe(i, c) => seq![
            bounded(CmpOp::Ge, Scalar::Var(i), c as int, signed_at(signed, i as int)),
        ],
        LoopInstr::TestDiffLe(i, j, c) => seq![
            Condition::Compare {
                op: CmpOp::Le,
                lhs: Box::new(
                    Scalar::Sub(
                        Box::new(Scalar::Var(i)),
                        Box::new(Scalar::Var(j)),
                        ArithSem::Wrap,
                    ),
                ),
                rhs: Box::new(Scalar::Const(c as int)),
                signed: signed_at(signed, i as int) || signed_at(signed, j as int),
            },
        ],
        _ => Seq::empty(),
    }
}

/// What the tests among the first `k` steps ask.
pub open spec fn guards(list: Seq<LoopInstr>, k: nat, signed: Seq<bool>) -> Seq<Condition>
    decreases k,
{
    if k == 0 {
        Seq::empty()
    } else {
        guards(list, (k - 1) as nat, signed) + guard_of(list[k - 1], signed)
    }
}

/// The least value of a variable.
pub open spec fn least(width: u8, signed: bool) -> int {
    if signed {
        -(power2::pow2((width - 1) as nat) as int)
    } else {
        0
    }
}

/// The greatest value of a variable.
pub open spec fn greatest(width: u8, signed: bool) -> int {
    if signed {
        power2::pow2((width - 1) as nat) - 1
    } else {
        power2::pow2(width as nat) - 1
    }
}

/// When an addition to a variable of the given value stays in the range of
/// the variable.
pub open spec fn defined_when(
    vals: Seq<Scalar>,
    ins: LoopInstr,
    widths: Seq<u8>,
    signed: Seq<bool>,
) -> Seq<Condition> {
    match ins {
        LoopInstr::AddVar(i, c) => {
            let s = signed_at(signed, i as int);
            let w = width_at(widths, i as int);
            if c > 0 {
                seq![bounded(CmpOp::Le, vals[i as int], greatest(w, s) - c, s)]
            } else if c < 0 {
                seq![bounded(CmpOp::Ge, vals[i as int], least(w, s) - c, s)]
            } else {
                Seq::empty()
            }
        },
        _ => Seq::empty(),
    }
}

/// When the additions among the first `k` steps of a loop of `n` variables
/// stay in range.
pub open spec fn definitions(
    n: nat,
    list: Seq<LoopInstr>,
    k: nat,
    widths: Seq<u8>,
    signed: Seq<bool>,
) -> Seq<Condition>
    decreases k,
{
    if k == 0 {
        Seq::empty()
    } else {
        definitions(n, list, (k - 1) as nat, widths, signed) + defined_when(
            steps(identity(n), list, (k - 1) as nat, signed),
            list[k - 1],
            widths,
            signed,
        )
    }
}

/// The saturating additions among the first `k` steps.
pub open spec fn saturating(list: Seq<LoopInstr>, k: nat) -> Seq<(usize, i128)>
    decreases k,
{
    if k == 0 {
        Seq::empty()
    } else {
        let before = saturating(list, (k - 1) as nat);
        match list[k - 1] {
            LoopInstr::AddSat(i, c) => before.push((i, c)),
            _ => before,
        }
    }
}

/// The conjunction of conditions.
pub open spec fn all_of(parts: Seq<Condition>) -> Condition
    decreases parts.len(),
{
    if parts.len() == 0 {
        Condition::True
    } else {
        let acc = all_of(parts.drop_last());
        if acc is True {
            parts.last()
        } else {
            Condition::And(Box::new(acc), Box::new(parts.last()))
        }
    }
}

/// The values before the loop that the first `k` steps give.
pub open spec fn initial(n: nat, list: Seq<LoopInstr>, k: nat) -> Seq<Scalar>
    decreases k,
{
    if k == 0 {
        identity(n)
    } else {
        let before = initial(n, list, (k - 1) as nat);
        match list[k - 1] {
            LoopInstr::ConstVar(i, c) => before.update(i as int, Scalar::Const(c as int)),
            _ => before,
        }
    }
}

/// The first `k` steps set variables to constants.
pub open spec fn only_constants(list: Seq<LoopInstr>, k: int) -> bool {
    forall|i: int| 0 <= i < k ==> #[trigger] list[i] is ConstVar
}

/// The variables that a step changes are among the first `n`.
pub open spec fn fits(ins: LoopInstr, n: nat) -> bool
    decreases ins, 0nat,
{
    match ins {
        LoopInstr::AddVar(i, _) => i < n,
        LoopInstr::AddSat(i, _) => i < n,
        LoopInstr::ConstVar(i, _) => i < n,
        LoopInstr::CopyVar(i, _) => i < n,
        LoopInstr::If(_, t, e) => all_fit(t@, t@.len(), n) && all_fit(e@, e@.len(), n),
        _ => true,
    }
}

/// The variables that the first `k` steps change are among the first `n`.
pub open spec fn all_fit(list: Seq<LoopInstr>, k: nat, n: nat) -> bool
    decreases list, k,
{
    k == 0 || k > list.len() || (all_fit(list, (k - 1) as nat, n) && fits(list[k - 1], n))
}

/// The variables that are set before the loop are among the first `n`, up to
/// a step that is not such a setting.
pub open spec fn initial_fits(list: Seq<LoopInstr>, n: nat) -> bool {
    forall|k: int|
        0 <= k < list.len() && only_constants(list, k + 1) ==> fits(#[trigger] list[k], n)
}

/// A signed variable that the loop adds to has at least one bit.
pub open spec fn has_bits(ins: LoopInstr, widths: Seq<u8>, signed: Seq<bool>) -> bool {
    match ins {
        LoopInstr::AddVar(i, c) => c != 0 && signed_at(signed, i as int) ==> width_at(
            widths,
            i as int,
        ) > 0,
        _ => true,
    }
}

pub open spec fn all_have_bits(list: Seq<LoopInstr>, widths: Seq<u8>, signed: Seq<bool>) -> bool {
    forall|k: int| 0 <= k < list.len() ==> has_bits(#[trigger] list[k], widths, signed)
}

// ---------------------------------------------------------------------------
// Small steps
// ---------------------------------------------------------------------------

pub(crate) fn bits_of(widths: &Vec<u8>, i: usize) -> (r: u8)
    ensures
        r == width_at(widths@, i as int),
{
    if i < widths.len() {
        widths[i]
    } else {
        64
    }
}

pub(crate) fn sign_of(signed: &Vec<bool>, i: usize) -> (r: bool)
    ensures
        r == signed_at(signed@, i as int),
{
    i < signed.len() && signed[i]
}

fn constant(c: i128) -> (r: ScalarExpr)
    ensures
        r@ == Scalar::Const(c as int),
{
    ScalarExpr::Const(BigNum::of(c))
}

fn sum(e: &ScalarExpr, c: i128, sem: ArithSem) -> (r: ScalarExpr)
    ensures
        r@ == plus(e@, c, sem),
{
    ScalarExpr::Add(Box::new(e.duplicate()), Box::new(constant(c)), sem)
}

fn bound(op: CmpOp, e: &ScalarExpr, c: BigNum, signed: bool) -> (r: Cond)
    ensures
        r@ == bounded(op, e@, c@, signed),
{
    let lhs = e.duplicate();
    let rhs = ScalarExpr::Const(c);
    assert(rhs@ == Scalar::Const(c@));
    Cond::Cmp { op, lhs: Box::new(lhs), rhs: Box::new(rhs), signed }
}

fn variable_difference(i: usize, j: usize) -> (r: ScalarExpr)
    ensures
        r@ == Scalar::Sub(
            Box::new(Scalar::Var(i)),
            Box::new(Scalar::Var(j)),
            ArithSem::Wrap,
        ),
{
    let a = ScalarExpr::Var(i);
    let b = ScalarExpr::Var(j);
    assert(a@ == Scalar::Var(i));
    assert(b@ == Scalar::Var(j));
    ScalarExpr::Sub(Box::new(a), Box::new(b), ArithSem::Wrap)
}

fn all_variables(n: usize) -> (r: Vec<ScalarExpr>)
    ensures
        problem::models(r@) == identity(n as nat),
        r@.len() == n,
{
    let mut out: Vec<ScalarExpr> = Vec::new();
    for k in 0..n
        invariant
            out@.len() == k,
            forall|j: int| 0 <= j < k ==> #[trigger] out@[j].model() == Scalar::Var(j as usize),
    {
        out.push(ScalarExpr::Var(k));
    }
    assert(problem::models(out@) =~= identity(n as nat));
    out
}

fn copy_all(list: &Vec<ScalarExpr>) -> (r: Vec<ScalarExpr>)
    ensures
        problem::models(r@) == problem::models(list@),
{
    let mut out: Vec<ScalarExpr> = Vec::new();
    for k in 0..list.len()
        invariant
            out@.len() == k,
            forall|j: int| 0 <= j < k ==> #[trigger] out@[j].model() == list@[j].model(),
    {
        out.push(list[k].duplicate());
    }
    assert(problem::models(out@) =~= problem::models(list@));
    out
}

fn var_signed(e: &ScalarExpr, signed: &Vec<bool>, vars_len: usize) -> (r: Option<bool>)
    ensures
        r == known_sign(e@, signed@, vars_len as nat),
{
    match e {
        ScalarExpr::Var(i) => if *i < vars_len && *i < signed.len() {
            Some(signed[*i])
        } else {
            None
        },
        _ => None,
    }
}

fn fix_signed(c: &Cond, signed: &Vec<bool>, vars_len: usize) -> (r: Cond)
    ensures
        r@ == with_signs(c@, signed@, vars_len as nat),
    decreases *c,
{
    match c {
        Cond::Cmp { op, lhs, rhs, .. } => {
            let s = match var_signed(lhs, signed, vars_len) {
                Some(s) => s,
                None => match var_signed(rhs, signed, vars_len) {
                    Some(s) => s,
                    None => false,
                },
            };
            Cond::Cmp {
                op: *op,
                lhs: Box::new(lhs.duplicate()),
                rhs: Box::new(rhs.duplicate()),
                signed: s,
            }
        },
        Cond::And(a, b) => Cond::And(
            Box::new(fix_signed(a, signed, vars_len)),
            Box::new(fix_signed(b, signed, vars_len)),
        ),
        Cond::Or(a, b) => Cond::Or(
            Box::new(fix_signed(a, signed, vars_len)),
            Box::new(fix_signed(b, signed, vars_len)),
        ),
        Cond::Not(a) => Cond::Not(Box::new(fix_signed(a, signed, vars_len))),
        Cond::True => Cond::True,
        Cond::False => Cond::False,
    }
}

/// Joins the values of two arms.
fn merge(c: &Cond, t: &Vec<ScalarExpr>, e: &Vec<ScalarExpr>) -> (r: Vec<ScalarExpr>)
    requires
        t@.len() == e@.len(),
    ensures
        problem::models(r@) == merged(c@, problem::models(t@), problem::models(e@)),
{
    let mut out: Vec<ScalarExpr> = Vec::new();
    let ghost want = merged(c@, problem::models(t@), problem::models(e@));
    for k in 0..t.len()
        invariant
            t@.len() == e@.len(),
            out@.len() == k,
            want == merged(c@, problem::models(t@), problem::models(e@)),
            forall|j: int| 0 <= j < k ==> #[trigger] out@[j].model() == want[j],
    {
        let v = if t[k].same(&e[k]) {
            t[k].duplicate()
        } else {
            ScalarExpr::Ite(
                Box::new(c.duplicate()),
                Box::new(t[k].duplicate()),
                Box::new(e[k].duplicate()),
            )
        };
        out.push(v);
    }
    assert(problem::models(out@) =~= want);
    out
}

fn set_value(values: &mut Vec<ScalarExpr>, i: usize, v: ScalarExpr)
    requires
        i < old(values)@.len(),
    ensures
        problem::models(final(values)@) == problem::models(old(values)@).update(i as int, v@),
        final(values)@.len() == old(values)@.len(),
{
    values.set(i, v);
    assert(problem::models(values@) =~= problem::models(old(values)@).update(i as int, v@));
}

pub proof fn lemma_fit(list: Seq<LoopInstr>, k: nat, n: nat, i: int)
    requires
        all_fit(list, k, n),
        0 <= i < k <= list.len(),
    ensures
        fits(list[i], n),
    decreases k,
{
    if i < k - 1 {
        lemma_fit(list, (k - 1) as nat, n, i);
    }
}

/// Applies one step to the values of the variables.
fn apply_one(
    values: &mut Vec<ScalarExpr>,
    ins: &LoopInstr,
    signed: &Vec<bool>,
)
    requires
        fits(*ins, old(values)@.len()),
    ensures
        problem::models(final(values)@) == step(problem::models(old(values)@), *ins, signed@),
        final(values)@.len() == old(values)@.len(),
    decreases *ins, 0nat,
{
    match ins {
        LoopInstr::AddVar(i, c) => {
            let v = sum(&values[*i], *c, ArithSem::Wrap);
            set_value(values, *i, v);
        },
        LoopInstr::AddSat(i, c) => {
            let v = sum(&values[*i], *c, ArithSem::Saturate);
            set_value(values, *i, v);
        },
        LoopInstr::ConstVar(i, c) => {
            set_value(values, *i, constant(*c));
        },
        LoopInstr::CopyVar(i, j) => {
            let v = if *j < values.len() {
                values[*j].duplicate()
            } else {
                ScalarExpr::Var(*j)
            };
            set_value(values, *i, v);
        },
        LoopInstr::If(c, t, e) => {
            let n: usize = values.len();
            let cond = fix_signed(c, signed, n).replace(values);
            let then_values = apply_block(values, t, signed);
            let else_values = apply_block(values, e, signed);
            let out = merge(&cond, &then_values, &else_values);
            proof {
                assert(problem::models(out@).len() == out@.len());
                assert(problem::models(then_values@).len() == then_values@.len());
            }
            *values = out;
        },
        _ => {},
    }
}

/// Applies steps to a copy of the values of the variables.
fn apply_block(base: &Vec<ScalarExpr>, list: &Vec<LoopInstr>, signed: &Vec<bool>) -> (r: Vec<
    ScalarExpr,
>)
    requires
        all_fit(list@, list@.len(), base@.len()),
    ensures
        problem::models(r@) == steps(problem::models(base@), list@, list@.len(), signed@),
        r@.len() == base@.len(),
    decreases *list, 0nat,
{
    let mut values = copy_all(base);
    assert(problem::models(values@).len() == values@.len());
    assert(problem::models(base@).len() == base@.len());
    for k in 0..list.len()
        invariant
            values@.len() == base@.len(),
            all_fit(list@, list@.len(), base@.len()),
            problem::models(values@) == steps(problem::models(base@), list@, k as nat, signed@),
    {
        proof {
            lemma_fit(list@, list@.len(), base@.len(), k as int);
        }
        apply_one(&mut values, &list[k], signed);
    }
    values
}

/// The models of conditions.
pub open spec fn condition_models(list: Seq<Cond>) -> Seq<Condition> {
    Seq::new(list.len(), |k: int| list[k].model())
}

/// The conjunction of conditions.
fn conjunction(parts: &Vec<Cond>) -> (r: Cond)
    ensures
        r@ == all_of(condition_models(parts@)),
{
    let mut acc = Cond::True;
    let ghost all = condition_models(parts@);
    for k in 0..parts.len()
        invariant
            all == condition_models(parts@),
            acc@ == all_of(all.take(k as int)),
    {
        proof {
            assert(all.take(k + 1).drop_last() =~= all.take(k as int));
            assert(all.take(k + 1).last() == parts@[k as int].model());
        }
        let next = parts[k].duplicate();
        acc = match acc {
            Cond::True => next,
            other => Cond::And(Box::new(other), Box::new(next)),
        };
    }
    assert(all.take(parts@.len() as int) =~= all);
    acc
}

/// The condition of a test.
fn test_condition(ins: &LoopInstr, signed: &Vec<bool>) -> (r: Option<Cond>)
    ensures
        match r {
            Some(c) => guard_of(*ins, signed@) == seq![c@],
            None => guard_of(*ins, signed@).len() == 0,
        },
{
    match ins {
        LoopInstr::TestLe(i, c) => {
            let v = ScalarExpr::Var(*i);
            assert(v@ == Scalar::Var(*i));
            Some(bound(CmpOp::Le, &v, BigNum::of(*c), sign_of(signed, *i)))
        },
        LoopInstr::TestGe(i, c) => {
            let v = ScalarExpr::Var(*i);
            assert(v@ == Scalar::Var(*i));
            Some(bound(CmpOp::Ge, &v, BigNum::of(*c), sign_of(signed, *i)))
        },
        LoopInstr::TestDiffLe(i, j, c) => Some(
            Cond::Cmp {
                op: CmpOp::Le,
                lhs: Box::new(variable_difference(*i, *j)),
                rhs: Box::new(constant(*c)),
                signed: sign_of(signed, *i) || sign_of(signed, *j),
            },
        ),
        _ => None,
    }
}

fn least_value(width: u8, signed: bool) -> (r: BigNum)
    requires
        signed ==> width > 0,
    ensures
        r@ == least(width, signed),
{
    if signed {
        BigNum::of(0).minus(&BigNum::power_of_two(width - 1))
    } else {
        BigNum::of(0)
    }
}

fn greatest_value(width: u8, signed: bool) -> (r: BigNum)
    requires
        signed ==> width > 0,
    ensures
        r@ == greatest(width, signed),
{
    if signed {
        BigNum::power_of_two(width - 1).minus(&BigNum::of(1))
    } else {
        BigNum::power_of_two(width).minus(&BigNum::of(1))
    }
}

/// The condition under which an addition stays in range.
fn range_condition(
    values: &Vec<ScalarExpr>,
    ins: &LoopInstr,
    widths: &Vec<u8>,
    signed: &Vec<bool>,
) -> (r: Option<Cond>)
    requires
        fits(*ins, values@.len()),
        has_bits(*ins, widths@, signed@),
    ensures
        ({
            let parts = defined_when(problem::models(values@), *ins, widths@, signed@);
            match r {
                Some(c) => parts == seq![c@],
                None => parts.len() == 0,
            }
        }),
{
    match ins {
        LoopInstr::AddVar(i, c) => {
            if *c == 0 {
                return None;
            }
            let s = sign_of(signed, *i);
            let w: u8 = bits_of(widths, *i);
            if *c > 0 {
                Some(bound(CmpOp::Le, &values[*i], greatest_value(w, s).minus(&BigNum::of(*c)), s))
            } else {
                Some(bound(CmpOp::Ge, &values[*i], least_value(w, s).minus(&BigNum::of(*c)), s))
            }
        },
        _ => None,
    }
}

fn push_condition(parts: &mut Vec<Cond>, c: Cond)
    ensures
        condition_models(final(parts)@) == condition_models(old(parts)@) + seq![c@],
{
    parts.push(c);
    assert(condition_models(parts@) =~= condition_models(old(parts)@) + seq![c@]);
}

pub(crate) fn copy_variables(list: &Vec<BiiVar>) -> (r: Vec<BiiVar>)
    ensures
        r@ == list@,
{
    let mut out: Vec<BiiVar> = Vec::new();
    for k in 0..list.len()
        invariant
            out@ == list@.take(k as int),
    {
        out.push(list[k]);
        assert(out@ =~= list@.take(k + 1));
    }
    assert(list@.take(list@.len() as int) =~= list@);
    out
}

fn loop_variables(vars: &Vec<Symbol>, widths: &Vec<u8>, signed: &Vec<bool>) -> (r: Vec<BiiVar>)
    ensures
        r@ == Seq::new(vars@.len(), |i: int| variable(vars@, widths@, signed@, i)),
{
    let mut out: Vec<BiiVar> = Vec::new();
    for i in 0..vars.len()
        invariant
            out@.len() == i,
            forall|j: int|
                0 <= j < i ==> #[trigger] out@[j] == variable(vars@, widths@, signed@, j),
    {
        out.push(
            BiiVar { symbol: vars[i], bw: bits_of(widths, i), signed: sign_of(signed, i) },
        );
    }
    assert(out@ =~= Seq::new(vars@.len(), |i: int| variable(vars@, widths@, signed@, i)));
    out
}

/// The values before the loop; nothing where a step is not the setting of a
/// variable to a constant.
fn initial_values(n: usize, list: &Vec<LoopInstr>) -> (r: Option<Vec<ScalarExpr>>)
    requires
        initial_fits(list@, n as nat),
    ensures
        match r {
            Some(v) => only_constants(list@, list@.len() as int) && problem::models(v@)
                == initial(n as nat, list@, list@.len()),
            None => !only_constants(list@, list@.len() as int),
        },
{
    let mut values = all_variables(n);
    for k in 0..list.len()
        invariant
            values@.len() == n,
            initial_fits(list@, n as nat),
            only_constants(list@, k as int),
            problem::models(values@) == initial(n as nat, list@, k as nat),
    {
        match &list[k] {
            LoopInstr::ConstVar(i, c) => {
                assert(only_constants(list@, k + 1));
                assert(fits(list@[k as int], n as nat));
                set_value(&mut values, *i, constant(*c));
            },
            _ => {
                assert(!(list@[k as int] is ConstVar));
                return None;
            },
        }
    }
    Some(values)
}

/// A loop problem with one way back to the head: the tests make the condition
/// at the head, the values after the steps are expressed by those at the
/// head, and, where arithmetic traps, the additions have to stay in range.
/// There is none where a step before the loop is not the setting of a
/// variable to a constant.
pub fn loop_instrs_to_loop_problem(
    vars: &Vec<Symbol>,
    init: &Vec<LoopInstr>,
    body: &Vec<LoopInstr>,
    bit_widths: &Vec<u8>,
    signed: &Vec<bool>,
    params: &Vec<BiiVar>,
    trap: bool,
) -> (r: Option<BiiLoopProblem>)
    requires
        initial_fits(init@, vars@.len()),
        only_constants(init@, init@.len() as int) ==> all_fit(body@, body@.len(), vars@.len()),
        only_constants(init@, init@.len() as int) && trap ==> all_have_bits(
            body@,
            bit_widths@,
            signed@,
        ),
    ensures
        r is Some <==> only_constants(init@, init@.len() as int),
        r is Some ==> {
            let p = r->0;
            let n = vars@.len();
            let ranges = definitions(n, body@, body@.len(), bit_widths@, signed@);
            &&& p.vars@ == Seq::new(n, |i: int| variable(vars@, bit_widths@, signed@, i))
            &&& p.params@ == params@
            &&& problem::models(p.init@) == initial(n, init@, init@.len())
            &&& p.loop_guard@ == all_of(guards(body@, body@.len(), signed@))
            &&& p.back_edges@.len() == 1
            &&& p.back_edges@[0].kind == EdgeKind::Back
            &&& p.back_edges@[0].guard is None
            &&& problem::optional_model(p.back_edges@[0].definedness) == if trap && ranges.len()
                > 0 {
                Some(all_of(ranges))
            } else {
                None
            }
            &&& problem::models(p.back_edges@[0].next_values@) == steps(
                identity(n),
                body@,
                body@.len(),
                signed@,
            )
            &&& p.exit_edges@.len() == 1
            &&& p.exit_edges@[0].kind == EdgeKind::Exit
            &&& p.exit_edges@[0].guard is None
            &&& p.exit_edges@[0].definedness is None
            &&& problem::models(p.exit_edges@[0].next_values@) == identity(n)
            &&& p.saturates@ == saturating(body@, body@.len())
            &&& p.post is None
        },
{
    let n: usize = vars.len();
    let init_values = match initial_values(n, init) {
        Some(v) => v,
        None => {
            return None;
        },
    };
    let mut guard_parts: Vec<Cond> = Vec::new();
    let mut range_parts: Vec<Cond> = Vec::new();
    let mut saturates: Vec<(usize, i128)> = Vec::new();
    let mut values = all_variables(n);
    proof {
        assert(condition_models(guard_parts@) =~= guards(body@, 0, signed@));
        assert(condition_models(range_parts@) =~= Seq::<Condition>::empty());
        assert(saturates@ =~= saturating(body@, 0));
    }
    for k in 0..body.len()
        invariant
            n == vars@.len(),
            values@.len() == n,
            all_fit(body@, body@.len(), n as nat),
            trap ==> all_have_bits(body@, bit_widths@, signed@),
            condition_models(guard_parts@) == guards(body@, k as nat, signed@),
            trap ==> condition_models(range_parts@) == definitions(
                n as nat,
                body@,
                k as nat,
                bit_widths@,
                signed@,
            ),
            !trap ==> range_parts@.len() == 0,
            saturates@ == saturating(body@, k as nat),
            problem::models(values@) == steps(identity(n as nat), body@, k as nat, signed@),
    {
        let ins = &body[k];
        proof {
            lemma_fit(body@, body@.len(), n as nat, k as int);
        }
        match test_condition(ins, signed) {
            Some(c) => push_condition(&mut guard_parts, c),
            None => {
                assert(guards(body@, (k + 1) as nat, signed@) =~= guards(body@, k as nat, signed@));
            },
        }
        if trap {
            match range_condition(&values, ins, bit_widths, signed) {
                Some(c) => push_condition(&mut range_parts, c),
                None => {
                    assert(definitions(n as nat, body@, (k + 1) as nat, bit_widths@, signed@)
                        =~= definitions(n as nat, body@, k as nat, bit_widths@, signed@));
                },
            }
        }
        if let LoopInstr::AddSat(i, c) = ins {
            saturates.push((*i, *c));
        }
        apply_one(&mut values, ins, signed);
    }
    let loop_guard = conjunction(&guard_parts);
    let definedness = if range_parts.len() == 0 {
        None
    } else {
        Some(conjunction(&range_parts))
    };
    proof {
        assert(condition_models(range_parts@).len() == range_parts@.len());
    }
    let back = TransitionEdge {
        kind: EdgeKind::Back,
        guard: None,
        definedness,
        next_values: values,
    };
    let exit = TransitionEdge {
        kind: EdgeKind::Exit,
        guard: None,
        definedness: None,
        next_values: all_variables(n),
    };
    let mut back_edges: Vec<TransitionEdge> = Vec::new();
    back_edges.push(back);
    let mut exit_edges: Vec<TransitionEdge> = Vec::new();
    exit_edges.push(exit);
    Some(
        BiiLoopProblem {
            vars: loop_variables(vars, bit_widths, signed),
            params: copy_variables(params),
            init: init_values,
            loop_guard,
            back_edges,
            exit_edges,
            saturates,
            post: None,
        },
    )
}

} // verus!
