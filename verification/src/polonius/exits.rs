//! What holds of the references that a function returns.
use super::outputs;
use crate::hir::{HirExpr, HirStmt, UnaryOp};
use crate::symbol::{Span, Symbol};
use vstd::prelude::*;

verus! {

// ---------------------------------------------------------------------------
// Statements inside statements
// ---------------------------------------------------------------------------

/// The list of statements that a branch is, if it is there.
pub open spec fn branch(b: Option<Vec<HirStmt>>) -> Seq<HirStmt> {
    match b {
        Some(s) => s@,
        None => Seq::empty(),
    }
}

/// The list is a branch or a body of the statement.
pub open spec fn is_part(stmt: HirStmt, list: Seq<HirStmt>) -> bool {
    match stmt {
        HirStmt::If { then_branch, else_branch } => list == then_branch@ || list == branch(
            else_branch,
        ),
        HirStmt::IfLet { then_branch, else_branch } => list == then_branch@ || list == branch(
            else_branch,
        ),
        HirStmt::While { body } => list == body@,
        HirStmt::WhileLet { body } => list == body@,
        HirStmt::For { body } => list == body@,
        HirStmt::Loop { body } => list == body@,
        _ => false,
    }
}

/// The statement stands in the list, at most `depth` branches and bodies deep.
pub open spec fn stands_in(x: HirStmt, list: Seq<HirStmt>, depth: nat) -> bool
    decreases depth, 1nat,
{
    exists|k: int|
        0 <= k < list.len() && stands_at(x, #[trigger] list[k], depth)
}

/// The statement is the other one, or stands inside it.
pub open spec fn stands_at(x: HirStmt, stmt: HirStmt, depth: nat) -> bool
    decreases depth, 0nat,
{
    ||| x == stmt
    ||| depth > 0 && exists|part: Seq<HirStmt>| #[trigger]
        is_part(stmt, part) && stands_in(x, part, (depth - 1) as nat)
}

proof fn lemma_part_is_smaller(stmt: HirStmt, part: Seq<HirStmt>)
    requires
        is_part(stmt, part),
        part.len() > 0,
    ensures
        decreases_to!(stmt => part),
{
    match stmt {
        HirStmt::If { then_branch, else_branch } => {
            if part == then_branch@ {
            } else {
                assert(else_branch is Some);
            }
        },
        HirStmt::IfLet { then_branch, else_branch } => {
            if part == then_branch@ {
            } else {
                assert(else_branch is Some);
            }
        },
        _ => {},
    }
}

// ---------------------------------------------------------------------------
// Definitions
// ---------------------------------------------------------------------------

/// What a list gives for one of its statements is in what it gives.
proof fn lemma_definitions_at(list: Seq<HirStmt>, n: int, k: int, d: (Symbol, Symbol))
    requires
        0 <= k < n <= list.len(),
        outputs::definitions(list[k]).contains(d),
    ensures
        outputs::definitions_in(list, n).contains(d),
    decreases n,
{
    let before = outputs::definitions_in(list, n - 1);
    let last = outputs::definitions(list[n - 1]);
    if k < n - 1 {
        lemma_definitions_at(list, n - 1, k, d);
        let i = choose|i: int| 0 <= i < before.len() && before[i] == d;
        assert((before + last)[i] == d);
    } else {
        let i = choose|i: int| 0 <= i < last.len() && last[i] == d;
        assert((before + last)[before.len() + i] == d);
    }
}

proof fn lemma_in_either<A>(a: Seq<A>, b: Seq<A>, x: A)
    ensures
        (a + b).contains(x) <==> a.contains(x) || b.contains(x),
{
    let c = a + b;
    if a.contains(x) {
        let i = choose|i: int| 0 <= i < a.len() && a[i] == x;
        assert(c[i] == x);
    }
    if b.contains(x) {
        let i = choose|i: int| 0 <= i < b.len() && b[i] == x;
        assert(c[a.len() + i] == x);
    }
    if c.contains(x) {
        let i = choose|i: int| 0 <= i < c.len() && c[i] == x;
        if i < a.len() {
            assert(a[i] == x);
        } else {
            assert(b[i - a.len()] == x);
        }
    }
}

proof fn lemma_definitions_of_part(stmt: HirStmt, part: Seq<HirStmt>, d: (Symbol, Symbol))
    requires
        is_part(stmt, part),
        outputs::definitions_in(part, part.len() as int).contains(d),
    ensures
        outputs::definitions(stmt).contains(d),
{
    reveal_with_fuel(outputs::definitions, 2);
    reveal_with_fuel(outputs::definitions_in, 2);
    match stmt {
        HirStmt::If { then_branch, else_branch } => {
            lemma_in_either(
                outputs::definitions_in(then_branch@, then_branch@.len() as int),
                outputs::definitions_in(branch(else_branch), branch(else_branch).len() as int),
                d,
            );
        },
        HirStmt::IfLet { then_branch, else_branch } => {
            lemma_in_either(
                outputs::definitions_in(then_branch@, then_branch@.len() as int),
                outputs::definitions_in(branch(else_branch), branch(else_branch).len() as int),
                d,
            );
        },
        _ => {},
    }
}

proof fn lemma_definitions_inside(x: HirStmt, stmt: HirStmt, depth: nat, d: (Symbol, Symbol))
    requires
        stands_at(x, stmt, depth),
        outputs::definitions(x).contains(d),
    ensures
        outputs::definitions(stmt).contains(d),
    decreases depth, 0nat,
{
    if x != stmt {
        let part = choose|part: Seq<HirStmt>| #[trigger]
            is_part(stmt, part) && stands_in(x, part, (depth - 1) as nat);
        lemma_definitions_in(x, part, (depth - 1) as nat, d);
        lemma_definitions_of_part(stmt, part, d);
    }
}

proof fn lemma_definitions_in(x: HirStmt, list: Seq<HirStmt>, depth: nat, d: (Symbol, Symbol))
    requires
        stands_in(x, list, depth),
        outputs::definitions(x).contains(d),
    ensures
        outputs::definitions_in(list, list.len() as int).contains(d),
    decreases depth, 1nat,
{
    let k = choose|k: int| 0 <= k < list.len() && stands_at(x, #[trigger] list[k], depth);
    lemma_definitions_inside(x, list[k], depth, d);
    lemma_definitions_at(list, list.len() as int, k, d);
}

/// Every definition of a variable by a place is found, however deep it stands in
/// branches and loops.
pub proof fn law_definitions_are_found(
    list: Seq<HirStmt>,
    depth: nat,
    n: Symbol,
    v: HirExpr,
    root: Symbol,
)
    requires
        stands_in(HirStmt::VariableDef { name: Some(n), value: Some(v) }, list, depth),
        outputs::root_of(v) == Some(root),
    ensures
        outputs::definitions_in(list, list.len() as int).contains((n, root)),
{
    let x = HirStmt::VariableDef { name: Some(n), value: Some(v) };
    assert(outputs::definitions(x)[0] == (n, root));
    lemma_definitions_in(x, list, depth, (n, root));
}

/// The statement defines the variable by a place that starts at the root.
pub open spec fn defines(x: HirStmt, d: (Symbol, Symbol)) -> bool {
    match x {
        HirStmt::VariableDef { name: Some(n), value: Some(v) } => n == d.0 && outputs::root_of(v)
            == Some(d.1),
        _ => false,
    }
}

/// A statement that defines the variable stands in the list.
pub open spec fn is_defined_in(list: Seq<HirStmt>, d: (Symbol, Symbol)) -> bool {
    exists|x: HirStmt, depth: nat| #[trigger] stands_in(x, list, depth) && defines(x, d)
}

proof fn lemma_definition_comes_from(stmt: HirStmt, d: (Symbol, Symbol))
    requires
        outputs::definitions(stmt).contains(d),
    ensures
        exists|x: HirStmt, depth: nat| #[trigger] stands_at(x, stmt, depth) && defines(x, d),
    decreases stmt, 0nat,
{
    if let HirStmt::VariableDef { name, value } = stmt {
        assert(stands_at(stmt, stmt, 0));
        assert(defines(stmt, d));
    } else {
        let part = lemma_definition_part(stmt, d);
        lemma_part_is_smaller(stmt, part);
        lemma_definitions_come_from(part, part.len() as int, d);
        let (x, depth) = choose|x: HirStmt, depth: nat| #[trigger]
            stands_in(x, part, depth) && defines(x, d);
        assert(stands_in(x, part, ((depth + 1) - 1) as nat));
        assert(stands_at(x, stmt, depth + 1));
    }
}

proof fn lemma_definition_part(stmt: HirStmt, d: (Symbol, Symbol)) -> (part: Seq<HirStmt>)
    requires
        outputs::definitions(stmt).contains(d),
        !(stmt is VariableDef),
    ensures
        is_part(stmt, part),
        part.len() > 0,
        outputs::definitions_in(part, part.len() as int).contains(d),
{
    reveal_with_fuel(outputs::definitions, 2);
    reveal_with_fuel(outputs::definitions_in, 2);
    match stmt {
        HirStmt::If { then_branch, else_branch } => {
            let e = branch(else_branch);
            let a = outputs::definitions_in(then_branch@, then_branch@.len() as int);
            lemma_in_either(a, outputs::definitions_in(e, e.len() as int), d);
            if a.contains(d) {
                then_branch@
            } else {
                e
            }
        },
        HirStmt::IfLet { then_branch, else_branch } => {
            let e = branch(else_branch);
            let a = outputs::definitions_in(then_branch@, then_branch@.len() as int);
            lemma_in_either(a, outputs::definitions_in(e, e.len() as int), d);
            if a.contains(d) {
                then_branch@
            } else {
                e
            }
        },
        HirStmt::While { body } => body@,
        HirStmt::WhileLet { body } => body@,
        HirStmt::For { body } => body@,
        HirStmt::Loop { body } => body@,
        _ => Seq::empty(),
    }
}

proof fn lemma_definitions_come_from(list: Seq<HirStmt>, n: int, d: (Symbol, Symbol))
    requires
        0 <= n <= list.len(),
        outputs::definitions_in(list, n).contains(d),
    ensures
        is_defined_in(list, d),
    decreases list, n,
{
    let before = outputs::definitions_in(list, n - 1);
    let last = outputs::definitions(list[n - 1]);
    lemma_in_either(before, last, d);
    if before.contains(d) {
        lemma_definitions_come_from(list, n - 1, d);
    } else {
        lemma_definition_comes_from(list[n - 1], d);
        let (x, depth) = choose|x: HirStmt, depth: nat| #[trigger]
            stands_at(x, list[n - 1], depth) && defines(x, d);
        assert(stands_in(x, list, depth));
    }
}

/// Only definitions of variables by places are found.
pub proof fn law_only_definitions_are_found(list: Seq<HirStmt>, d: (Symbol, Symbol))
    requires
        outputs::definitions_in(list, list.len() as int).contains(d),
    ensures
        is_defined_in(list, d),
{
    lemma_definitions_come_from(list, list.len() as int, d);
}

// ---------------------------------------------------------------------------
// Ways out
// ---------------------------------------------------------------------------

/// The statement returns a place that starts at the root.
pub open spec fn gives_back(x: HirStmt, d: (Symbol, Span)) -> bool {
    match x {
        HirStmt::Return { value: Some(v), span } => span == d.1 && outputs::root_of(v) == Some(d.0),
        _ => false,
    }
}

/// A statement that returns such a place stands in the list.
pub open spec fn is_given_back_in(list: Seq<HirStmt>, d: (Symbol, Span)) -> bool {
    exists|x: HirStmt, depth: nat| #[trigger] stands_in(x, list, depth) && gives_back(x, d)
}

/// What a list gives for one of its statements is in what it gives.
proof fn lemma_exits_at(list: Seq<HirStmt>, n: int, k: int, d: (Symbol, Span))
    requires
        0 <= k < n <= list.len(),
        outputs::place_returns(list[k]).contains(d),
    ensures
        outputs::place_returns_in(list, n).contains(d),
    decreases n,
{
    let before = outputs::place_returns_in(list, n - 1);
    let last = outputs::place_returns(list[n - 1]);
    if k < n - 1 {
        lemma_exits_at(list, n - 1, k, d);
        let i = choose|i: int| 0 <= i < before.len() && before[i] == d;
        assert((before + last)[i] == d);
    } else {
        let i = choose|i: int| 0 <= i < last.len() && last[i] == d;
        assert((before + last)[before.len() + i] == d);
    }
}

proof fn lemma_exits_of_part(stmt: HirStmt, part: Seq<HirStmt>, d: (Symbol, Span))
    requires
        is_part(stmt, part),
        outputs::place_returns_in(part, part.len() as int).contains(d),
    ensures
        outputs::place_returns(stmt).contains(d),
{
    reveal_with_fuel(outputs::place_returns, 2);
    reveal_with_fuel(outputs::place_returns_in, 2);
    match stmt {
        HirStmt::If { then_branch, else_branch } => {
            lemma_in_either(
                outputs::place_returns_in(then_branch@, then_branch@.len() as int),
                outputs::place_returns_in(branch(else_branch), branch(else_branch).len() as int),
                d,
            );
        },
        HirStmt::IfLet { then_branch, else_branch } => {
            lemma_in_either(
                outputs::place_returns_in(then_branch@, then_branch@.len() as int),
                outputs::place_returns_in(branch(else_branch), branch(else_branch).len() as int),
                d,
            );
        },
        _ => {},
    }
}

proof fn lemma_exits_inside(x: HirStmt, stmt: HirStmt, depth: nat, d: (Symbol, Span))
    requires
        stands_at(x, stmt, depth),
        outputs::place_returns(x).contains(d),
    ensures
        outputs::place_returns(stmt).contains(d),
    decreases depth, 0nat,
{
    if x != stmt {
        let part = choose|part: Seq<HirStmt>| #[trigger]
            is_part(stmt, part) && stands_in(x, part, (depth - 1) as nat);
        lemma_exits_in(x, part, (depth - 1) as nat, d);
        lemma_exits_of_part(stmt, part, d);
    }
}

proof fn lemma_exits_in(x: HirStmt, list: Seq<HirStmt>, depth: nat, d: (Symbol, Span))
    requires
        stands_in(x, list, depth),
        outputs::place_returns(x).contains(d),
    ensures
        outputs::place_returns_in(list, list.len() as int).contains(d),
    decreases depth, 1nat,
{
    let k = choose|k: int| 0 <= k < list.len() && stands_at(x, #[trigger] list[k], depth);
    lemma_exits_inside(x, list[k], depth, d);
    lemma_exits_at(list, list.len() as int, k, d);
}

proof fn lemma_exit_comes_from(stmt: HirStmt, d: (Symbol, Span))
    requires
        outputs::place_returns(stmt).contains(d),
    ensures
        exists|x: HirStmt, depth: nat| #[trigger] stands_at(x, stmt, depth) && gives_back(x, d),
    decreases stmt, 0nat,
{
    if let HirStmt::Return { value, span } = stmt {
        assert(stands_at(stmt, stmt, 0));
        assert(gives_back(stmt, d));
    } else {
        let part = lemma_exit_part(stmt, d);
        lemma_part_is_smaller(stmt, part);
        lemma_exits_come_from(part, part.len() as int, d);
        let (x, depth) = choose|x: HirStmt, depth: nat| #[trigger]
            stands_in(x, part, depth) && gives_back(x, d);
        assert(stands_in(x, part, ((depth + 1) - 1) as nat));
        assert(stands_at(x, stmt, depth + 1));
    }
}

proof fn lemma_exit_part(stmt: HirStmt, d: (Symbol, Span)) -> (part: Seq<HirStmt>)
    requires
        outputs::place_returns(stmt).contains(d),
        !(stmt is Return),
    ensures
        is_part(stmt, part),
        part.len() > 0,
        outputs::place_returns_in(part, part.len() as int).contains(d),
{
    reveal_with_fuel(outputs::place_returns, 2);
    reveal_with_fuel(outputs::place_returns_in, 2);
    match stmt {
        HirStmt::If { then_branch, else_branch } => {
            let e = branch(else_branch);
            let a = outputs::place_returns_in(then_branch@, then_branch@.len() as int);
            lemma_in_either(a, outputs::place_returns_in(e, e.len() as int), d);
            if a.contains(d) {
                then_branch@
            } else {
                e
            }
        },
        HirStmt::IfLet { then_branch, else_branch } => {
            let e = branch(else_branch);
            let a = outputs::place_returns_in(then_branch@, then_branch@.len() as int);
            lemma_in_either(a, outputs::place_returns_in(e, e.len() as int), d);
            if a.contains(d) {
                then_branch@
            } else {
                e
            }
        },
        HirStmt::While { body } => body@,
        HirStmt::WhileLet { body } => body@,
        HirStmt::For { body } => body@,
        HirStmt::Loop { body } => body@,
        _ => Seq::empty(),
    }
}

proof fn lemma_exits_come_from(list: Seq<HirStmt>, n: int, d: (Symbol, Span))
    requires
        0 <= n <= list.len(),
        outputs::place_returns_in(list, n).contains(d),
    ensures
        is_given_back_in(list, d),
    decreases list, n,
{
    let before = outputs::place_returns_in(list, n - 1);
    let last = outputs::place_returns(list[n - 1]);
    lemma_in_either(before, last, d);
    if before.contains(d) {
        lemma_exits_come_from(list, n - 1, d);
    } else {
        lemma_exit_comes_from(list[n - 1], d);
        let (x, depth) = choose|x: HirStmt, depth: nat| #[trigger]
            stands_at(x, list[n - 1], depth) && gives_back(x, d);
        assert(stands_in(x, list, depth));
    }
}


/// The variable belongs to the function itself: it is no parameter, and no variable
/// that is defined through one, directly or not, anywhere in the body.
pub open spec fn is_local(body: Seq<HirStmt>, params: Seq<Symbol>, v: Symbol) -> bool {
    &&& !params.contains(v)
    &&& exists|others: Set<Symbol>| #[trigger] others.contains(v) && is_apart(body, params, others)
}

/// No parameter is among the variables, and each place that one of them is defined
/// by starts at one of them.
pub open spec fn is_apart(body: Seq<HirStmt>, params: Seq<Symbol>, others: Set<Symbol>) -> bool {
    forall|n: Symbol, root: Symbol|
        #![trigger is_defined_in(body, (n, root))]
        is_defined_in(body, (n, root)) && others.contains(n) ==> others.contains(root)
            && !params.contains(root)
}

/// Such variables are no aliases of parameters, and the others that are no
/// parameters are.
proof fn lemma_local_is_no_alias(body: Seq<HirStmt>, params: Seq<Symbol>, v: Symbol)
    ensures
        is_local(body, params, v) <==> !params.contains(v) && !outputs::aliases_param(
            outputs::definitions_in(body, body.len() as int),
            params,
            v,
        ),
{
    let defs = outputs::definitions_in(body, body.len() as int);
    if is_local(body, params, v) {
        let others = choose|others: Set<Symbol>| #[trigger]
            others.contains(v) && is_apart(body, params, others);
        let s = others.complement();
        assert(outputs::alias_closed(defs, params, s)) by {
            assert forall|k: int|
                0 <= k < defs.len() && (params.contains(defs[k].1) || s.contains(
                    defs[k].1,
                )) implies s.contains((#[trigger] defs[k]).0) by {
                assert(defs.contains(defs[k]));
                lemma_definitions_come_from(body, body.len() as int, defs[k]);
                assert(is_defined_in(body, (defs[k].0, defs[k].1)));
            }
        }
        assert(!s.contains(v));
    }
    if !params.contains(v) && !outputs::aliases_param(defs, params, v) {
        let s = choose|s: Set<Symbol>| #[trigger]
            outputs::alias_closed(defs, params, s) && !s.contains(v);
        let others = s.complement();
        assert(is_apart(body, params, others)) by {
            assert forall|n: Symbol, root: Symbol|
                #![trigger is_defined_in(body, (n, root))]
                is_defined_in(body, (n, root)) && others.contains(n) implies others.contains(root)
                && !params.contains(root) by {
                let (x, depth) = choose|x: HirStmt, depth: nat| #[trigger]
                    stands_in(x, body, depth) && defines(x, (n, root));
                assert(outputs::definitions(x)[0] == (n, root));
                lemma_definitions_in(x, body, depth, (n, root));
                let k = choose|k: int| 0 <= k < defs.len() && defs[k] == (n, root);
                assert(!s.contains(defs[k].0));
            }
        }
        assert(others.contains(v));
    }
}

proof fn lemma_dangling_holds(
    exits: Seq<(Symbol, Span)>,
    defs: Seq<(Symbol, Symbol)>,
    params: Seq<Symbol>,
    n: int,
    span: Span,
)
    requires
        0 <= n <= exits.len(),
    ensures
        outputs::dangling(exits, defs, params, n).contains(span) <==> exists|k: int|
            0 <= k < n && (#[trigger] exits[k]).1 == span && !params.contains(exits[k].0)
                && !outputs::aliases_param(defs, params, exits[k].0),
    decreases n,
{
    if n > 0 {
        lemma_dangling_holds(exits, defs, params, n - 1, span);
        let before = outputs::dangling(exits, defs, params, n - 1);
        let now = outputs::dangling(exits, defs, params, n);
        if now != before {
            assert(now == before + seq![exits[n - 1].1]);
            lemma_in_either(before, seq![exits[n - 1].1], span);
            assert(seq![exits[n - 1].1][0] == exits[n - 1].1);
        }
    }
}

/// The positions that are found are those of the returns, however deep they stand in
/// branches and loops, of places that start at a variable of the function itself.
pub proof fn law_dangling_returns_are_found(body: Seq<HirStmt>, params: Seq<Symbol>, span: Span)
    ensures
        ({
            let exits = outputs::place_returns_in(body, body.len() as int);
            let defs = outputs::definitions_in(body, body.len() as int);
            outputs::dangling(exits, defs, params, exits.len() as int).contains(span) <==> exists|
                root: Symbol,
            | #[trigger]
                is_given_back_in(body, (root, span)) && is_local(body, params, root)
        }),
{
    let exits = outputs::place_returns_in(body, body.len() as int);
    let defs = outputs::definitions_in(body, body.len() as int);
    lemma_dangling_holds(exits, defs, params, exits.len() as int, span);
    if outputs::dangling(exits, defs, params, exits.len() as int).contains(span) {
        let k = choose|k: int|
            0 <= k < exits.len() && (#[trigger] exits[k]).1 == span && !params.contains(exits[k].0)
                && !outputs::aliases_param(defs, params, exits[k].0);
        assert(exits.contains(exits[k]));
        lemma_exits_come_from(body, body.len() as int, exits[k]);
        lemma_local_is_no_alias(body, params, exits[k].0);
        assert(is_given_back_in(body, (exits[k].0, span)));
    }
    if exists|root: Symbol| #[trigger]
        is_given_back_in(body, (root, span)) && is_local(body, params, root) {
        let root = choose|root: Symbol| #[trigger]
            is_given_back_in(body, (root, span)) && is_local(body, params, root);
        let (x, depth) = choose|x: HirStmt, depth: nat| #[trigger]
            stands_in(x, body, depth) && gives_back(x, (root, span));
        assert(outputs::place_returns(x)[0] == (root, span));
        lemma_exits_in(x, body, depth, (root, span));
        let k = choose|k: int| 0 <= k < exits.len() && exits[k] == (root, span);
        lemma_local_is_no_alias(body, params, root);
        assert(exits[k].1 == span);
    }
}

/// A place starts where the place that it is part of starts, and so does a reference
/// to it; what is computed starts at no variable.
pub proof fn law_roots_of_places(e: HirExpr, f: HirExpr, field: Symbol, v: Symbol)
    ensures
        outputs::root_of(HirExpr::Ident(v)) == Some(v),
        outputs::root_of(HirExpr::FieldAccess { base: Box::new(e), field }) == outputs::root_of(e),
        outputs::root_of(HirExpr::Index { base: Box::new(e), index: Box::new(f) })
            == outputs::root_of(e),
        outputs::root_of(HirExpr::UnaryOp { op: UnaryOp::Deref, expr: Box::new(e) })
            == outputs::root_of(e),
        outputs::root_of(HirExpr::UnaryOp { op: UnaryOp::Ref, expr: Box::new(e) })
            == outputs::root_of(e),
        outputs::root_of(HirExpr::UnaryOp { op: UnaryOp::RefMut, expr: Box::new(e) })
            == outputs::root_of(e),
        outputs::root_of(HirExpr::UnaryOp { op: UnaryOp::Ro, expr: Box::new(e) })
            == outputs::root_of(e),
        outputs::root_of(HirExpr::UnaryOp { op: UnaryOp::Neg, expr: Box::new(e) }) is None,
        outputs::root_of(HirExpr::UnaryOp { op: UnaryOp::Not, expr: Box::new(e) }) is None,
        outputs::root_of(HirExpr::BinaryOp { left: Box::new(e), right: Box::new(f) }) is None,
        outputs::root_of(HirExpr::Move(Box::new(e))) is None,
{
    reveal_with_fuel(outputs::root_of, 2);
}

// ---------------------------------------------------------------------------
// What can be returned
// ---------------------------------------------------------------------------

/// The value that a statement hands on: what it returns, or the expression that it is.
pub open spec fn handed_on(x: HirStmt) -> Option<HirExpr> {
    match x {
        HirStmt::Return { value, span } => value,
        HirStmt::Expression(e) => Some(e),
        _ => None,
    }
}

/// The list is a branch or the body of the expression.
pub open spec fn is_inside(e: HirExpr, list: Seq<HirStmt>) -> bool {
    match e {
        HirExpr::If { then_branch, else_branch } => list == then_branch@ || list == branch(
            else_branch,
        ),
        HirExpr::IfLet { then_branch, else_branch } => list == then_branch@ || list == branch(
            else_branch,
        ),
        HirExpr::Block(stmts) => list == stmts@,
        _ => false,
    }
}

/// The expression can have the value of the place, or an arm or a branch of it can, at
/// most `depth` deep.
pub open spec fn can_be(e: HirExpr, place: HirExpr, depth: nat) -> bool
    decreases depth, 0nat,
{
    ||| e == place
    ||| depth > 0 && exists|part: Seq<HirStmt>| #[trigger]
        is_inside(e, part) && can_give(part, place, (depth - 1) as nat)
    ||| depth > 0 && exists|arms: Vec<HirExpr>, k: int|
        e == HirExpr::Match { arms } && 0 <= k < arms@.len() && can_be(
            #[trigger] arms@[k],
            place,
            (depth - 1) as nat,
        )
}

/// A statement of the list, however deep, can hand on the place.
pub open spec fn can_give(list: Seq<HirStmt>, place: HirExpr, depth: nat) -> bool
    decreases depth, 1nat,
{
    exists|x: HirStmt, d: nat|
        #[trigger] stands_in(x, list, d) && handed_on(x) is Some && can_be(
            handed_on(x)->0,
            place,
            depth,
        )
}

proof fn lemma_roots_at(list: Seq<HirStmt>, n: int, k: int, r: Symbol)
    requires
        0 <= k < n <= list.len(),
        outputs::return_roots(list[k]).contains(r),
    ensures
        outputs::return_roots_in(list, n).contains(r),
    decreases n,
{
    lemma_in_either(
        outputs::return_roots_in(list, n - 1),
        outputs::return_roots(list[n - 1]),
        r,
    );
    if k < n - 1 {
        lemma_roots_at(list, n - 1, k, r);
    }
}

proof fn lemma_arm_roots_at(arms: Seq<HirExpr>, n: int, k: int, r: Symbol)
    requires
        0 <= k < n <= arms.len(),
        outputs::value_roots(arms[k]).contains(r),
    ensures
        outputs::value_roots_all(arms, n).contains(r),
    decreases n,
{
    lemma_in_either(
        outputs::value_roots_all(arms, n - 1),
        outputs::value_roots(arms[n - 1]),
        r,
    );
    if k < n - 1 {
        lemma_arm_roots_at(arms, n - 1, k, r);
    }
}

proof fn lemma_roots_of_part(stmt: HirStmt, part: Seq<HirStmt>, r: Symbol)
    requires
        is_part(stmt, part),
        outputs::return_roots_in(part, part.len() as int).contains(r),
    ensures
        outputs::return_roots(stmt).contains(r),
{
    reveal_with_fuel(outputs::return_roots, 2);
    reveal_with_fuel(outputs::return_roots_in, 2);
    match stmt {
        HirStmt::If { then_branch, else_branch } => {
            lemma_in_either(
                outputs::return_roots_in(then_branch@, then_branch@.len() as int),
                outputs::return_roots_in(branch(else_branch), branch(else_branch).len() as int),
                r,
            );
        },
        HirStmt::IfLet { then_branch, else_branch } => {
            lemma_in_either(
                outputs::return_roots_in(then_branch@, then_branch@.len() as int),
                outputs::return_roots_in(branch(else_branch), branch(else_branch).len() as int),
                r,
            );
        },
        _ => {},
    }
}

proof fn lemma_roots_inside(x: HirStmt, stmt: HirStmt, depth: nat, r: Symbol)
    requires
        stands_at(x, stmt, depth),
        outputs::return_roots(x).contains(r),
    ensures
        outputs::return_roots(stmt).contains(r),
    decreases depth, 0nat,
{
    if x != stmt {
        let part = choose|part: Seq<HirStmt>| #[trigger]
            is_part(stmt, part) && stands_in(x, part, (depth - 1) as nat);
        lemma_roots_in(x, part, (depth - 1) as nat, r);
        lemma_roots_of_part(stmt, part, r);
    }
}

proof fn lemma_roots_in(x: HirStmt, list: Seq<HirStmt>, depth: nat, r: Symbol)
    requires
        stands_in(x, list, depth),
        outputs::return_roots(x).contains(r),
    ensures
        outputs::return_roots_in(list, list.len() as int).contains(r),
    decreases depth, 1nat,
{
    let k = choose|k: int| 0 <= k < list.len() && stands_at(x, #[trigger] list[k], depth);
    lemma_roots_inside(x, list[k], depth, r);
    lemma_roots_at(list, list.len() as int, k, r);
}

proof fn lemma_value_roots(e: HirExpr, place: HirExpr, depth: nat, r: Symbol)
    requires
        can_be(e, place, depth),
        outputs::root_of(place) == Some(r),
    ensures
        outputs::value_roots(e).contains(r),
    decreases depth, 0nat,
{
    if e == place {
        assert(outputs::value_roots(e)[0] == r);
    } else if exists|part: Seq<HirStmt>| #[trigger]
        is_inside(e, part) && can_give(part, place, (depth - 1) as nat) {
        let part = choose|part: Seq<HirStmt>| #[trigger]
            is_inside(e, part) && can_give(part, place, (depth - 1) as nat);
        lemma_given_roots(part, place, (depth - 1) as nat, r);
        lemma_roots_of_inside(e, part, r);
    } else {
        let (arms, k) = choose|arms: Vec<HirExpr>, k: int|
            e == HirExpr::Match { arms } && 0 <= k < arms@.len() && can_be(
                #[trigger] arms@[k],
                place,
                (depth - 1) as nat,
            );
        lemma_value_roots(arms@[k], place, (depth - 1) as nat, r);
        lemma_arm_roots_at(arms@, arms@.len() as int, k, r);
        lemma_roots_of_match(arms, r);
    }
}

proof fn lemma_roots_of_match(arms: Vec<HirExpr>, r: Symbol)
    requires
        outputs::value_roots_all(arms@, arms@.len() as int).contains(r),
    ensures
        outputs::value_roots(HirExpr::Match { arms }).contains(r),
{
    reveal_with_fuel(outputs::value_roots, 2);
    reveal_with_fuel(outputs::value_roots_all, 2);
}

proof fn lemma_roots_of_inside(e: HirExpr, part: Seq<HirStmt>, r: Symbol)
    requires
        is_inside(e, part),
        outputs::return_roots_in(part, part.len() as int).contains(r),
    ensures
        outputs::value_roots(e).contains(r),
{
    reveal_with_fuel(outputs::value_roots, 2);
    reveal_with_fuel(outputs::return_roots_in, 2);
    match e {
        HirExpr::If { then_branch, else_branch } => {
            lemma_in_either(
                outputs::return_roots_in(then_branch@, then_branch@.len() as int),
                outputs::return_roots_in(branch(else_branch), branch(else_branch).len() as int),
                r,
            );
        },
        HirExpr::IfLet { then_branch, else_branch } => {
            lemma_in_either(
                outputs::return_roots_in(then_branch@, then_branch@.len() as int),
                outputs::return_roots_in(branch(else_branch), branch(else_branch).len() as int),
                r,
            );
        },
        _ => {},
    }
}

proof fn lemma_given_roots(list: Seq<HirStmt>, place: HirExpr, depth: nat, r: Symbol)
    requires
        can_give(list, place, depth),
        outputs::root_of(place) == Some(r),
    ensures
        outputs::return_roots_in(list, list.len() as int).contains(r),
    decreases depth, 1nat,
{
    let (x, d) = choose|x: HirStmt, d: nat|
        #[trigger] stands_in(x, list, d) && handed_on(x) is Some && can_be(
            handed_on(x)->0,
            place,
            depth,
        );
    lemma_value_roots(handed_on(x)->0, place, depth, r);
    assert(outputs::return_roots(x) == outputs::value_roots(handed_on(x)->0)) by {
        reveal_with_fuel(outputs::return_roots, 2);
    }
    lemma_roots_in(x, list, d, r);
}

/// Every place that the body can hand back is found: what is returned in branches,
/// loops and the arms of what is returned, and what a block or a branch ends in.
pub proof fn law_returned_roots_are_found(
    list: Seq<HirStmt>,
    place: HirExpr,
    depth: nat,
    r: Symbol,
)
    requires
        can_give(list, place, depth),
        outputs::root_of(place) == Some(r),
    ensures
        outputs::return_roots_in(list, list.len() as int).contains(r),
{
    lemma_given_roots(list, place, depth, r);
}

/// So each parameter that such a place stands for is one that the results derive
/// from.
pub proof fn law_origins_of_results(
    body: Seq<HirStmt>,
    params: Seq<Symbol>,
    place: HirExpr,
    depth: nat,
    r: Symbol,
    i: usize,
)
    requires
        can_give(body, place, depth),
        outputs::root_of(place) == Some(r),
        params.len() <= usize::MAX,
        i < params.len(),
        params[i as int] == r,
        forall|j: int| 0 <= j < i ==> #[trigger] params[j] != r,
    ensures
        ({
            let roots = outputs::return_roots_in(body, body.len() as int);
            let defs = outputs::definitions_in(body, body.len() as int);
            outputs::derived(roots, defs, params, roots.len() as int).contains(i)
        }),
{
    let roots = outputs::return_roots_in(body, body.len() as int);
    let defs = outputs::definitions_in(body, body.len() as int);
    lemma_given_roots(body, place, depth, r);
    let k = choose|k: int| 0 <= k < roots.len() && roots[k] == r;
    lemma_position_is(params, r, i as int, params.len() as int);
    assert(outputs::stands_for(defs, params, roots[k], i as int));
    outputs::law_derivation_is_the_union(roots, defs, params, roots.len() as int);
}

proof fn lemma_position_is(params: Seq<Symbol>, r: Symbol, i: int, n: int)
    requires
        0 <= i < n <= params.len(),
        params[i] == r,
        forall|j: int| 0 <= j < i ==> #[trigger] params[j] != r,
    ensures
        outputs::position(params, r, n) == Some(i),
    decreases n,
{
    if i < n - 1 {
        lemma_position_is(params, r, i, n - 1);
    } else {
        lemma_no_position(params, r, i);
    }
}

proof fn lemma_no_position(params: Seq<Symbol>, r: Symbol, n: int)
    requires
        0 <= n <= params.len(),
        forall|j: int| 0 <= j < n ==> #[trigger] params[j] != r,
    ensures
        outputs::position(params, r, n) is None,
    decreases n,
{
    if n > 0 {
        lemma_no_position(params, r, n - 1);
        assert(params[n - 1] != r);
    }
}

} // verus!
