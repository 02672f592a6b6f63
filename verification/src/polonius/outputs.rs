//! What the references that a function returns derive from.
use super::signature::BorrowSignature;
use crate::hir::{HirExpr, HirStmt, UnaryOp};
use crate::symbol;
use crate::symbol::{Interner, Span, Symbol};
use crate::text;
use vstd::prelude::*;

verus! {

// ---------------------------------------------------------------------------
// The signature
// ---------------------------------------------------------------------------

/// The reference parameters among the first `n`, with their mutability.
pub open spec fn reference_params(
    params: Seq<(Symbol, bool, bool, Option<Symbol>)>,
    n: int,
) -> Seq<(Symbol, bool)>
    decreases n,
{
    if n <= 0 {
        Seq::empty()
    } else if params[n - 1].1 {
        reference_params(params, n - 1).push((params[n - 1].0, params[n - 1].2))
    } else {
        reference_params(params, n - 1)
    }
}

/// The lifetimes of the reference parameters among the first `n`.
pub open spec fn reference_lifetimes(
    params: Seq<(Symbol, bool, bool, Option<Symbol>)>,
    n: int,
) -> Seq<Option<Symbol>>
    decreases n,
{
    if n <= 0 {
        Seq::empty()
    } else if params[n - 1].1 {
        reference_lifetimes(params, n - 1).push(params[n - 1].3)
    } else {
        reference_lifetimes(params, n - 1)
    }
}

/// The text of the name of the returned reference `k`.
pub open spec fn return_text(k: nat) -> Seq<char> {
    "__ret"@ + text::decimal(k)
}

/// The texts after the names of the first `n` returned references have been
/// interned, and those names.
pub open spec fn return_names(names: Seq<Seq<char>>, n: int) -> (Seq<Seq<char>>, Seq<Symbol>)
    decreases n,
{
    if n <= 0 {
        (names, Seq::empty())
    } else {
        let (before, list) = return_names(names, n - 1);
        let (after, s) = symbol::interned(before, return_text((n - 1) as nat));
        (after, list.push(s))
    }
}

proof fn lemma_return_names_len(names: Seq<Seq<char>>, n: int)
    requires
        0 <= n,
    ensures
        return_names(names, n).0.len() <= names.len() + n,
        return_names(names, n).1.len() == n,
    decreases n,
{
    if n > 0 {
        lemma_return_names_len(names, n - 1);
    }
}

/// The borrow signature of a function: its reference parameters, and one
/// name for each reference that it returns. A parameter is given by its
/// name, whether it is a reference, whether it is mutable, and its lifetime.
pub fn extract_borrow_signature(
    params: &Vec<(Symbol, bool, bool, Option<Symbol>)>,
    return_refs: usize,
    names: &mut Interner,
) -> (r: BorrowSignature)
    requires
        old(names)@.len() + return_refs <= u32::MAX,
    ensures
        r.input_borrows@ == reference_params(params@, params@.len() as int),
        r.input_lifetimes@ == reference_lifetimes(params@, params@.len() as int),
        (final(names)@, r.output_borrows@) == return_names(old(names)@, return_refs as int),
{
    let mut input_borrows: Vec<(Symbol, bool)> = Vec::new();
    let mut input_lifetimes: Vec<Option<Symbol>> = Vec::new();
    let mut i: usize = 0;
    while i < params.len()
        invariant
            0 <= i <= params@.len(),
            input_borrows@ == reference_params(params@, i as int),
            input_lifetimes@ == reference_lifetimes(params@, i as int),
        decreases params.len() - i,
    {
        let (name, is_ref, mutable, lifetime) = params[i];
        if is_ref {
            input_borrows.push((name, mutable));
            input_lifetimes.push(lifetime);
        }
        i += 1;
    }
    let mut output_borrows: Vec<Symbol> = Vec::new();
    let mut k: usize = 0;
    assert(output_borrows@ =~= Seq::empty());
    while k < return_refs
        invariant
            k <= return_refs,
            old(names)@.len() + return_refs <= u32::MAX,
            (names@, output_borrows@) == return_names(old(names)@, k as int),
        decreases return_refs - k,
    {
        proof {
            lemma_return_names_len(old(names)@, k as int);
        }
        let mut t = String::new();
        t.push_str("__ret");
        text::push_decimal(&mut t, k as u64);
        assert(t@ =~= return_text(k as nat));
        let s = names.intern(t);
        output_borrows.push(s);
        k += 1;
    }
    BorrowSignature { input_borrows, input_lifetimes, output_borrows }
}

/// Each returned reference has the name that stands for its text.
pub proof fn law_returns_are_named(names: Seq<Seq<char>>, n: int, k: int)
    requires
        0 <= k < n,
        names.len() + n <= u32::MAX,
    ensures
        return_names(names, n).1.len() == n,
        ({
            let (all, list) = return_names(names, n);
            (list[k].0 as int) < all.len() && all[list[k].0 as int] == return_text(k as nat)
        }),
    decreases n,
{
    lemma_return_names_len(names, n - 1);
    let (before, list) = return_names(names, n - 1);
    if k < n - 1 {
        law_returns_are_named(names, n - 1, k);
    } else {
        symbol::law_interned_text(before, return_text(k as nat));
        let (after, s) = symbol::interned(before, return_text(k as nat));
        symbol::lemma_first_named_is(before, return_text(k as nat), before.len() as int);
    }
}

// ---------------------------------------------------------------------------
// Roots
// ---------------------------------------------------------------------------

/// The variable that a place expression starts at.
pub open spec fn root_of(e: HirExpr) -> Option<Symbol>
    decreases e,
{
    match e {
        HirExpr::Ident(name) => Some(name),
        HirExpr::FieldAccess { base, field } => root_of(*base),
        HirExpr::Index { base, index } => root_of(*base),
        HirExpr::UnaryOp { op: UnaryOp::Deref, expr } => root_of(*expr),
        HirExpr::UnaryOp { op: UnaryOp::Ref, expr } => root_of(*expr),
        HirExpr::UnaryOp { op: UnaryOp::RefMut, expr } => root_of(*expr),
        HirExpr::UnaryOp { op: UnaryOp::Ro, expr } => root_of(*expr),
        _ => None,
    }
}

/// The variable that a place expression starts at.
fn place_root(e: &HirExpr) -> (r: Option<Symbol>)
    ensures
        r == root_of(*e),
    decreases *e,
{
    match e {
        HirExpr::Ident(name) => Some(*name),
        HirExpr::FieldAccess { base, .. } => place_root(base),
        HirExpr::Index { base, .. } => place_root(base),
        HirExpr::UnaryOp { op, expr } => match op {
            UnaryOp::Deref | UnaryOp::Ref | UnaryOp::RefMut | UnaryOp::Ro => place_root(expr),
            _ => None,
        },
        _ => None,
    }
}

/// The variable that a definition of a variable starts at, with the variable.
pub open spec fn definition(name: Option<Symbol>, value: Option<HirExpr>) -> Seq<(Symbol, Symbol)> {
    match (name, value) {
        (Some(n), Some(v)) => match root_of(v) {
            Some(root) => seq![(n, root)],
            None => Seq::empty(),
        },
        _ => Seq::empty(),
    }
}

/// The variables that are defined by places, with the roots of those, in the
/// order of the text and also in branches and loops.
pub open spec fn definitions(stmt: HirStmt) -> Seq<(Symbol, Symbol)>
    decreases stmt, 0nat,
{
    match stmt {
        HirStmt::VariableDef { name, value } => definition(name, value),
        HirStmt::If { then_branch, else_branch } => definitions_in(
            then_branch@,
            then_branch@.len() as int,
        ) + match else_branch {
            Some(e) => definitions_in(e@, e@.len() as int),
            None => Seq::empty(),
        },
        HirStmt::IfLet { then_branch, else_branch } => definitions_in(
            then_branch@,
            then_branch@.len() as int,
        ) + match else_branch {
            Some(e) => definitions_in(e@, e@.len() as int),
            None => Seq::empty(),
        },
        HirStmt::While { body } => definitions_in(body@, body@.len() as int),
        HirStmt::WhileLet { body } => definitions_in(body@, body@.len() as int),
        HirStmt::For { body } => definitions_in(body@, body@.len() as int),
        HirStmt::Loop { body } => definitions_in(body@, body@.len() as int),
        _ => Seq::empty(),
    }
}

pub open spec fn definitions_in(stmts: Seq<HirStmt>, n: int) -> Seq<(Symbol, Symbol)>
    decreases stmts, n,
{
    if n <= 0 || n > stmts.len() {
        Seq::empty()
    } else {
        definitions_in(stmts, n - 1) + definitions(stmts[n - 1])
    }
}

fn push_definitions(stmt: &HirStmt, out: &mut Vec<(Symbol, Symbol)>)
    ensures
        final(out)@ == old(out)@ + definitions(*stmt),
    decreases *stmt, 0nat,
{
    let ghost start = out@;
    match stmt {
        HirStmt::VariableDef { name, value } => {
            if let Some(n) = name {
                if let Some(v) = value {
                    if let Some(root) = place_root(v) {
                        out.push((*n, root));
                    }
                }
            }
        },
        HirStmt::If { then_branch, else_branch } => {
            push_all_definitions(then_branch, out);
            if let Some(e) = else_branch {
                push_all_definitions(e, out);
            }
        },
        HirStmt::IfLet { then_branch, else_branch } => {
            push_all_definitions(then_branch, out);
            if let Some(e) = else_branch {
                push_all_definitions(e, out);
            }
        },
        HirStmt::While { body } => push_all_definitions(body, out),
        HirStmt::WhileLet { body } => push_all_definitions(body, out),
        HirStmt::For { body } => push_all_definitions(body, out),
        HirStmt::Loop { body } => push_all_definitions(body, out),
        _ => {},
    }
    assert(out@ =~= start + definitions(*stmt));
}

fn push_all_definitions(stmts: &Vec<HirStmt>, out: &mut Vec<(Symbol, Symbol)>)
    ensures
        final(out)@ == old(out)@ + definitions_in(stmts@, stmts@.len() as int),
    decreases *stmts, 0nat,
{
    let ghost start = out@;
    let mut i: usize = 0;
    assert(out@ =~= start + definitions_in(stmts@, 0));
    while i < stmts.len()
        invariant
            0 <= i <= stmts@.len(),
            out@ == start + definitions_in(stmts@, i as int),
        decreases stmts.len() - i,
    {
        push_definitions(&stmts[i], out);
        assert(out@ =~= start + definitions_in(stmts@, i + 1));
        i += 1;
    }
}

// ---------------------------------------------------------------------------
// Dangling returns
// ---------------------------------------------------------------------------

/// The variable of a return of a place, with the position of the return.
pub open spec fn returned(value: Option<HirExpr>, span: Span) -> Seq<(Symbol, Span)> {
    match value {
        Some(v) => match root_of(v) {
            Some(root) => seq![(root, span)],
            None => Seq::empty(),
        },
        None => Seq::empty(),
    }
}

/// The returns of places in a statement, also in branches and loops.
pub open spec fn place_returns(stmt: HirStmt) -> Seq<(Symbol, Span)>
    decreases stmt, 0nat,
{
    match stmt {
        HirStmt::Return { value, span } => returned(value, span),
        HirStmt::If { then_branch, else_branch } => place_returns_in(
            then_branch@,
            then_branch@.len() as int,
        ) + match else_branch {
            Some(e) => place_returns_in(e@, e@.len() as int),
            None => Seq::empty(),
        },
        HirStmt::IfLet { then_branch, else_branch } => place_returns_in(
            then_branch@,
            then_branch@.len() as int,
        ) + match else_branch {
            Some(e) => place_returns_in(e@, e@.len() as int),
            None => Seq::empty(),
        },
        HirStmt::While { body } => place_returns_in(body@, body@.len() as int),
        HirStmt::WhileLet { body } => place_returns_in(body@, body@.len() as int),
        HirStmt::For { body } => place_returns_in(body@, body@.len() as int),
        HirStmt::Loop { body } => place_returns_in(body@, body@.len() as int),
        _ => Seq::empty(),
    }
}

pub open spec fn place_returns_in(stmts: Seq<HirStmt>, n: int) -> Seq<(Symbol, Span)>
    decreases stmts, n,
{
    if n <= 0 || n > stmts.len() {
        Seq::empty()
    } else {
        place_returns_in(stmts, n - 1) + place_returns(stmts[n - 1])
    }
}

fn push_place_returns(stmt: &HirStmt, out: &mut Vec<(Symbol, Span)>)
    ensures
        final(out)@ == old(out)@ + place_returns(*stmt),
    decreases *stmt, 0nat,
{
    let ghost start = out@;
    match stmt {
        HirStmt::Return { value, span } => {
            if let Some(v) = value {
                if let Some(root) = place_root(v) {
                    out.push((root, *span));
                }
            }
        },
        HirStmt::If { then_branch, else_branch } => {
            push_all_place_returns(then_branch, out);
            if let Some(e) = else_branch {
                push_all_place_returns(e, out);
            }
        },
        HirStmt::IfLet { then_branch, else_branch } => {
            push_all_place_returns(then_branch, out);
            if let Some(e) = else_branch {
                push_all_place_returns(e, out);
            }
        },
        HirStmt::While { body } => push_all_place_returns(body, out),
        HirStmt::WhileLet { body } => push_all_place_returns(body, out),
        HirStmt::For { body } => push_all_place_returns(body, out),
        HirStmt::Loop { body } => push_all_place_returns(body, out),
        _ => {},
    }
    assert(out@ =~= start + place_returns(*stmt));
}

fn push_all_place_returns(stmts: &Vec<HirStmt>, out: &mut Vec<(Symbol, Span)>)
    ensures
        final(out)@ == old(out)@ + place_returns_in(stmts@, stmts@.len() as int),
    decreases *stmts, 0nat,
{
    let ghost start = out@;
    let mut i: usize = 0;
    assert(out@ =~= start + place_returns_in(stmts@, 0));
    while i < stmts.len()
        invariant
            0 <= i <= stmts@.len(),
            out@ == start + place_returns_in(stmts@, i as int),
        decreases stmts.len() - i,
    {
        push_place_returns(&stmts[i], out);
        assert(out@ =~= start + place_returns_in(stmts@, i + 1));
        i += 1;
    }
}

/// With the root of a definition, or a parameter, the set holds the variable
/// that is defined.
pub open spec fn alias_closed(
    defs: Seq<(Symbol, Symbol)>,
    params: Seq<Symbol>,
    s: Set<Symbol>,
) -> bool {
    forall|k: int|
        0 <= k < defs.len() && (params.contains(defs[k].1) || s.contains(defs[k].1))
            ==> s.contains((#[trigger] defs[k]).0)
}

/// The variable is defined through parameters, directly or not.
pub open spec fn aliases_param(
    defs: Seq<(Symbol, Symbol)>,
    params: Seq<Symbol>,
    v: Symbol,
) -> bool {
    forall|s: Set<Symbol>| #[trigger] alias_closed(defs, params, s) ==> s.contains(v)
}

/// The positions of returns of what does not outlive the call.
pub open spec fn dangling(
    exits: Seq<(Symbol, Span)>,
    defs: Seq<(Symbol, Symbol)>,
    params: Seq<Symbol>,
    n: int,
) -> Seq<Span>
    decreases n,
{
    if n <= 0 {
        Seq::empty()
    } else if !params.contains(exits[n - 1].0) && !aliases_param(
        defs,
        params,
        exits[n - 1].0,
    ) {
        dangling(exits, defs, params, n - 1).push(exits[n - 1].1)
    } else {
        dangling(exits, defs, params, n - 1)
    }
}

fn holds_name(list: &Vec<Symbol>, v: Symbol) -> (r: bool)
    ensures
        r == list@.contains(v),
{
    let mut i: usize = 0;
    while i < list.len()
        invariant
            0 <= i <= list@.len(),
            forall|k: int| 0 <= k < i ==> list@[k] != v,
        decreases list.len() - i,
    {
        if list[i] == v {
            return true;
        }
        i += 1;
    }
    false
}

/// Each alias is one of the variables that are defined.
spec fn among_definitions(aliases: Seq<Symbol>, defs: Seq<(Symbol, Symbol)>) -> bool {
    forall|i: int|
        0 <= i < aliases.len() ==> exists|k: int|
            0 <= k < defs.len() && #[trigger] defs[k].0 == #[trigger] aliases[i]
}

/// There are no more aliases than definitions.
proof fn lemma_aliases_bounded(aliases: Seq<Symbol>, defs: Seq<(Symbol, Symbol)>)
    requires
        aliases.no_duplicates(),
        among_definitions(aliases, defs),
    ensures
        aliases.len() <= defs.len(),
{
    let names = defs.map_values(|d: (Symbol, Symbol)| d.0);
    assert forall|x: Symbol| aliases.to_set().contains(x) implies names.to_set().contains(x) by {
        let i = choose|i: int| 0 <= i < aliases.len() && aliases[i] == x;
        let k = choose|k: int| 0 <= k < defs.len() && #[trigger] defs[k].0 == aliases[i];
        assert(names[k] == x);
    }
    vstd::seq_lib::seq_to_set_is_finite(names);
    vstd::set_lib::lemma_len_subset(aliases.to_set(), names.to_set());
    aliases.unique_seq_to_set();
    names.lemma_cardinality_of_set();
}

/// The variables that are defined through parameters.
fn collect_param_aliases(defs: &Vec<(Symbol, Symbol)>, params: &Vec<Symbol>) -> (r: Vec<Symbol>)
    ensures
        forall|v: Symbol| #[trigger] r@.contains(v) <==> aliases_param(defs@, params@, v),
{
    let mut aliases: Vec<Symbol> = Vec::new();
    let mut changed = true;
    while changed
        invariant
            aliases@.no_duplicates(),
            among_definitions(aliases@, defs@),
            forall|s: Set<Symbol>, i: int|
                #![trigger alias_closed(defs@, params@, s), aliases@[i]]
                alias_closed(defs@, params@, s) && 0 <= i < aliases@.len() ==> s.contains(
                    aliases@[i],
                ),
            !changed ==> alias_closed(defs@, params@, aliases@.to_set()),
            aliases@.len() <= defs@.len(),
        decreases defs@.len() - aliases@.len() + (if changed {
            1int
        } else {
            0
        }),
    {
        let ghost before = aliases@;
        changed = false;
        let mut k: usize = 0;
        while k < defs.len()
            invariant
                0 <= k <= defs@.len(),
                aliases@.no_duplicates(),
                among_definitions(aliases@, defs@),
                forall|s: Set<Symbol>, i: int|
                    #![trigger alias_closed(defs@, params@, s), aliases@[i]]
                    alias_closed(defs@, params@, s) && 0 <= i < aliases@.len() ==> s.contains(
                        aliases@[i],
                    ),
                before.len() <= aliases@.len(),
                changed ==> before.len() < aliases@.len(),
                !changed ==> aliases@ == before,
                !changed ==> forall|j: int|
                    0 <= j < k && (params@.contains(defs@[j].1) || aliases@.contains(defs@[j].1))
                        ==> aliases@.contains((#[trigger] defs@[j]).0),
            decreases defs.len() - k,
        {
            let (n, root) = defs[k];
            if (holds_name(params, root) || holds_name(&aliases, root)) && !holds_name(
                &aliases,
                n,
            ) {
                proof {
                    assert forall|s: Set<Symbol>| #[trigger]
                        alias_closed(defs@, params@, s) implies s.contains(n) by {
                        if !params@.contains(root) {
                            let i = choose|i: int| 0 <= i < aliases@.len() && aliases@[i] == root;
                            assert(s.contains(aliases@[i]));
                        }
                        assert(s.contains(defs@[k as int].0));
                    }
                    assert(defs@[k as int].0 == n);
                }
                let ghost prior = aliases@;
                aliases.push(n);
                changed = true;
                proof {
                    assert forall|i: int| 0 <= i < aliases@.len() implies exists|k: int|
                        0 <= k < defs@.len() && #[trigger] defs@[k].0 == #[trigger] aliases@[i] by {
                        if i < prior.len() {
                            assert(aliases@[i] == prior[i]);
                        } else {
                            assert(defs@[k as int].0 == aliases@[i]);
                        }
                    }
                    assert forall|s: Set<Symbol>, i: int|
                        #![trigger alias_closed(defs@, params@, s), aliases@[i]]
                        alias_closed(defs@, params@, s) && 0 <= i
                            < aliases@.len() implies s.contains(aliases@[i]) by {
                        if i < prior.len() {
                            assert(aliases@[i] == prior[i]);
                        }
                    }
                }
            }
            k += 1;
        }
        proof {
            lemma_aliases_bounded(aliases@, defs@);
            if !changed {
                let s = aliases@.to_set();
                assert(alias_closed(defs@, params@, s)) by {
                    assert forall|j: int|
                        0 <= j < defs@.len() && (params@.contains(defs@[j].1) || s.contains(
                            defs@[j].1,
                        )) implies s.contains((#[trigger] defs@[j]).0) by {
                        assert(s.contains(defs@[j].1) == aliases@.contains(defs@[j].1));
                        assert(aliases@.contains(defs@[j].0));
                    }
                }
            }
        }
    }
    proof {
        assert forall|v: Symbol| #[trigger] aliases@.contains(v) <==> aliases_param(
            defs@,
            params@,
            v,
        ) by {
            if aliases@.contains(v) {
                let i = choose|i: int| 0 <= i < aliases@.len() && aliases@[i] == v;
                assert forall|s: Set<Symbol>| #[trigger] alias_closed(
                    defs@,
                    params@,
                    s,
                ) implies s.contains(v) by {
                    assert(s.contains(aliases@[i]));
                }
            }
            if aliases_param(defs@, params@, v) {
                assert(aliases@.to_set().contains(v));
            }
        }
    }
    aliases
}

/// The positions of returns that refer to a variable of the function itself:
/// neither a parameter nor defined through one.
pub fn dangling_return_spans(body: &Vec<HirStmt>, params: &Vec<Symbol>) -> (r: Vec<Span>)
    ensures
        ({
            let exits = place_returns_in(body@, body@.len() as int);
            r@ == dangling(
                exits,
                definitions_in(body@, body@.len() as int),
                params@,
                exits.len() as int,
            )
        }),
{
    let mut defs: Vec<(Symbol, Symbol)> = Vec::new();
    push_all_definitions(body, &mut defs);
    assert(defs@ =~= definitions_in(body@, body@.len() as int));
    let aliases = collect_param_aliases(&defs, params);
    let mut exits: Vec<(Symbol, Span)> = Vec::new();
    push_all_place_returns(body, &mut exits);
    assert(exits@ =~= place_returns_in(body@, body@.len() as int));
    let mut spans: Vec<Span> = Vec::new();
    let mut i: usize = 0;
    while i < exits.len()
        invariant
            0 <= i <= exits@.len(),
            forall|v: Symbol| #[trigger]
                aliases@.contains(v) <==> aliases_param(defs@, params@, v),
            spans@ == dangling(exits@, defs@, params@, i as int),
        decreases exits.len() - i,
    {
        let (root, span) = exits[i];
        if !holds_name(params, root) && !holds_name(&aliases, root) {
            spans.push(span);
        }
        i += 1;
    }
    spans
}

// ---------------------------------------------------------------------------
// What returns derive from
// ---------------------------------------------------------------------------

/// The position of a name among the first `n`.
pub open spec fn position(list: Seq<Symbol>, v: Symbol, n: int) -> Option<int>
    decreases n,
{
    if n <= 0 {
        None
    } else {
        match position(list, v, n - 1) {
            Some(k) => Some(k),
            None => if list[n - 1] == v {
                Some(n - 1)
            } else {
                None
            },
        }
    }
}

/// The definitions of variables that are no parameters, among the first `n`.
pub open spec fn local_definitions(
    defs: Seq<(Symbol, Symbol)>,
    params: Seq<Symbol>,
    n: int,
) -> Seq<(Symbol, Symbol)>
    decreases n,
{
    if n <= 0 {
        Seq::empty()
    } else {
        let before = local_definitions(defs, params, n - 1);
        if params.contains(defs[n - 1].0) {
            before
        } else {
            before.push(defs[n - 1])
        }
    }
}

/// A variable stands for a parameter: it is the parameter, or it is defined
/// through it, directly or not. It may stand for several.
pub open spec fn stands_for(
    defs: Seq<(Symbol, Symbol)>,
    params: Seq<Symbol>,
    v: Symbol,
    i: int,
) -> bool {
    match position(params, v, params.len() as int) {
        Some(k) => k == i,
        None => position(params, params[i], params.len() as int) == Some(i) && aliases_param(
            local_definitions(defs, params, defs.len() as int),
            seq![params[i]],
            v,
        ),
    }
}

/// The roots of the values that a statement can return, also in branches,
/// loops and the arms of what is returned.
pub open spec fn return_roots(stmt: HirStmt) -> Seq<Symbol>
    decreases stmt, 0nat,
{
    match stmt {
        HirStmt::Return { value: Some(v), span } => value_roots(v),
        HirStmt::If { then_branch, else_branch } => return_roots_in(
            then_branch@,
            then_branch@.len() as int,
        ) + match else_branch {
            Some(e) => return_roots_in(e@, e@.len() as int),
            None => Seq::empty(),
        },
        HirStmt::IfLet { then_branch, else_branch } => return_roots_in(
            then_branch@,
            then_branch@.len() as int,
        ) + match else_branch {
            Some(e) => return_roots_in(e@, e@.len() as int),
            None => Seq::empty(),
        },
        HirStmt::While { body } => return_roots_in(body@, body@.len() as int),
        HirStmt::WhileLet { body } => return_roots_in(body@, body@.len() as int),
        HirStmt::For { body } => return_roots_in(body@, body@.len() as int),
        HirStmt::Loop { body } => return_roots_in(body@, body@.len() as int),
        HirStmt::Expression(e) => value_roots(e),
        _ => Seq::empty(),
    }
}

pub open spec fn return_roots_in(stmts: Seq<HirStmt>, n: int) -> Seq<Symbol>
    decreases stmts, n,
{
    if n <= 0 || n > stmts.len() {
        Seq::empty()
    } else {
        return_roots_in(stmts, n - 1) + return_roots(stmts[n - 1])
    }
}

/// The roots of the values that an expression can have.
pub open spec fn value_roots(e: HirExpr) -> Seq<Symbol>
    decreases e, 0nat,
{
    match root_of(e) {
        Some(root) => seq![root],
        None => match e {
            HirExpr::If { then_branch, else_branch } => return_roots_in(
                then_branch@,
                then_branch@.len() as int,
            ) + match else_branch {
                Some(b) => return_roots_in(b@, b@.len() as int),
                None => Seq::empty(),
            },
            HirExpr::IfLet { then_branch, else_branch } => return_roots_in(
                then_branch@,
                then_branch@.len() as int,
            ) + match else_branch {
                Some(b) => return_roots_in(b@, b@.len() as int),
                None => Seq::empty(),
            },
            HirExpr::Match { arms } => value_roots_all(arms@, arms@.len() as int),
            HirExpr::Block(stmts) => return_roots_in(stmts@, stmts@.len() as int),
            _ => Seq::empty(),
        },
    }
}

pub open spec fn value_roots_all(s: Seq<HirExpr>, n: int) -> Seq<Symbol>
    decreases s, n,
{
    if n <= 0 || n > s.len() {
        Seq::empty()
    } else {
        value_roots_all(s, n - 1) + value_roots(s[n - 1])
    }
}

/// The positions with those of the first `m` parameters that a variable
/// stands for, each once.
pub open spec fn with_origins(
    list: Seq<usize>,
    defs: Seq<(Symbol, Symbol)>,
    params: Seq<Symbol>,
    v: Symbol,
    m: int,
) -> Seq<usize>
    decreases m,
{
    if m <= 0 {
        list
    } else {
        let before = with_origins(list, defs, params, v, m - 1);
        if stands_for(defs, params, v, m - 1) && !before.contains((m - 1) as usize) {
            before.push((m - 1) as usize)
        } else {
            before
        }
    }
}

/// The positions of the parameters that the first `n` roots stand for, each
/// once.
pub open spec fn derived(
    roots: Seq<Symbol>,
    defs: Seq<(Symbol, Symbol)>,
    params: Seq<Symbol>,
    n: int,
) -> Seq<usize>
    decreases n,
{
    if n <= 0 {
        Seq::empty()
    } else {
        with_origins(
            derived(roots, defs, params, n - 1),
            defs,
            params,
            roots[n - 1],
            params.len() as int,
        )
    }
}

fn push_return_roots(stmt: &HirStmt, out: &mut Vec<Symbol>)
    ensures
        final(out)@ == old(out)@ + return_roots(*stmt),
    decreases *stmt, 0nat,
{
    let ghost start = out@;
    match stmt {
        HirStmt::Return { value, .. } => {
            if let Some(v) = value {
                push_value_roots(v, out);
            }
        },
        HirStmt::If { then_branch, else_branch } => {
            push_all_return_roots(then_branch, out);
            if let Some(e) = else_branch {
                push_all_return_roots(e, out);
            }
        },
        HirStmt::IfLet { then_branch, else_branch } => {
            push_all_return_roots(then_branch, out);
            if let Some(e) = else_branch {
                push_all_return_roots(e, out);
            }
        },
        HirStmt::While { body } => push_all_return_roots(body, out),
        HirStmt::WhileLet { body } => push_all_return_roots(body, out),
        HirStmt::For { body } => push_all_return_roots(body, out),
        HirStmt::Loop { body } => push_all_return_roots(body, out),
        HirStmt::Expression(e) => push_value_roots(e, out),
        _ => {},
    }
    assert(out@ =~= start + return_roots(*stmt));
}

fn push_all_return_roots(stmts: &Vec<HirStmt>, out: &mut Vec<Symbol>)
    ensures
        final(out)@ == old(out)@ + return_roots_in(stmts@, stmts@.len() as int),
    decreases *stmts, 0nat,
{
    let ghost start = out@;
    let mut i: usize = 0;
    assert(out@ =~= start + return_roots_in(stmts@, 0));
    while i < stmts.len()
        invariant
            0 <= i <= stmts@.len(),
            out@ == start + return_roots_in(stmts@, i as int),
        decreases stmts.len() - i,
    {
        push_return_roots(&stmts[i], out);
        assert(out@ =~= start + return_roots_in(stmts@, i + 1));
        i += 1;
    }
}

fn push_value_roots(e: &HirExpr, out: &mut Vec<Symbol>)
    ensures
        final(out)@ == old(out)@ + value_roots(*e),
    decreases *e, 0nat,
{
    let ghost start = out@;
    match place_root(e) {
        Some(root) => {
            out.push(root);
        },
        None => match e {
            HirExpr::If { then_branch, else_branch } => {
                push_all_return_roots(then_branch, out);
                if let Some(b) = else_branch {
                    push_all_return_roots(b, out);
                }
            },
            HirExpr::IfLet { then_branch, else_branch } => {
                push_all_return_roots(then_branch, out);
                if let Some(b) = else_branch {
                    push_all_return_roots(b, out);
                }
            },
            HirExpr::Match { arms } => push_all_value_roots(arms, out),
            HirExpr::Block(stmts) => push_all_return_roots(stmts, out),
            _ => {},
        },
    }
    assert(out@ =~= start + value_roots(*e));
}

fn push_all_value_roots(s: &Vec<HirExpr>, out: &mut Vec<Symbol>)
    ensures
        final(out)@ == old(out)@ + value_roots_all(s@, s@.len() as int),
    decreases *s, 0nat,
{
    let ghost start = out@;
    let mut i: usize = 0;
    assert(out@ =~= start + value_roots_all(s@, 0));
    while i < s.len()
        invariant
            0 <= i <= s@.len(),
            out@ == start + value_roots_all(s@, i as int),
        decreases s.len() - i,
    {
        push_value_roots(&s[i], out);
        assert(out@ =~= start + value_roots_all(s@, i + 1));
        i += 1;
    }
}

/// The first position of a name.
fn find_position(list: &Vec<Symbol>, v: Symbol) -> (r: Option<usize>)
    ensures
        match r {
            Some(k) => position(list@, v, list@.len() as int) == Some(k as int),
            None => position(list@, v, list@.len() as int) is None,
        },
{
    let mut i: usize = 0;
    while i < list.len()
        invariant
            0 <= i <= list@.len(),
            position(list@, v, i as int) is None,
        decreases list.len() - i,
    {
        if list[i] == v {
            proof {
                lemma_position(list@, v, i + 1, list@.len() as int);
            }
            return Some(i);
        }
        i += 1;
    }
    None
}

proof fn lemma_position(list: Seq<Symbol>, v: Symbol, k: int, n: int)
    requires
        k <= n,
        position(list, v, k) is Some,
    ensures
        position(list, v, n) == position(list, v, k),
    decreases n - k,
{
    if k < n {
        lemma_position(list, v, k, n - 1);
    }
}

/// The definitions of variables that are no parameters.
fn collect_local_definitions(defs: &Vec<(Symbol, Symbol)>, params: &Vec<Symbol>) -> (r: Vec<
    (Symbol, Symbol),
>)
    ensures
        r@ == local_definitions(defs@, params@, defs@.len() as int),
{
    let mut out: Vec<(Symbol, Symbol)> = Vec::new();
    let mut k: usize = 0;
    while k < defs.len()
        invariant
            0 <= k <= defs@.len(),
            out@ == local_definitions(defs@, params@, k as int),
        decreases defs.len() - k,
    {
        if !holds_name(params, defs[k].0) {
            out.push(defs[k]);
        }
        k += 1;
    }
    out
}

/// The variables that are defined through each parameter. A parameter whose
/// name an earlier one has counts for none.
spec fn is_alias_map(
    map: Seq<Vec<Symbol>>,
    defs: Seq<(Symbol, Symbol)>,
    params: Seq<Symbol>,
) -> bool {
    forall|i: int, v: Symbol|
        #![trigger map[i]@.contains(v)]
        0 <= i < map.len() ==> (map[i]@.contains(v) <==> position(
            params,
            params[i],
            params.len() as int,
        ) == Some(i) && aliases_param(
            local_definitions(defs, params, defs.len() as int),
            seq![params[i]],
            v,
        ))
}

/// The variables that are defined through each parameter.
fn collect_param_alias_map(defs: &Vec<(Symbol, Symbol)>, params: &Vec<Symbol>) -> (r: Vec<
    Vec<Symbol>,
>)
    ensures
        r@.len() == params@.len(),
        is_alias_map(r@, defs@, params@),
{
    let locals = collect_local_definitions(defs, params);
    let mut map: Vec<Vec<Symbol>> = Vec::new();
    let mut i: usize = 0;
    while i < params.len()
        invariant
            0 <= i <= params@.len(),
            map@.len() == i,
            locals@ == local_definitions(defs@, params@, defs@.len() as int),
            is_alias_map(map@, defs@, params@),
        decreases params.len() - i,
    {
        let ghost before = map@;
        let aliases = if let Some(k) = find_position(params, params[i]) {
            if k == i {
                let mut only: Vec<Symbol> = Vec::new();
                only.push(params[i]);
                assert(only@ =~= seq![params@[i as int]]);
                collect_param_aliases(&locals, &only)
            } else {
                Vec::new()
            }
        } else {
            Vec::new()
        };
        map.push(aliases);
        assert(is_alias_map(map@, defs@, params@)) by {
            assert forall|j: int, v: Symbol|
                #![trigger map@[j]@.contains(v)]
                0 <= j < map@.len() implies (map@[j]@.contains(v) <==> position(
                params@,
                params@[j],
                params@.len() as int,
            ) == Some(j) && aliases_param(
                local_definitions(defs@, params@, defs@.len() as int),
                seq![params@[j]],
                v,
            )) by {
                if j < i {
                    assert(map@[j] == before[j]);
                    assert(before[j]@.contains(v) == map@[j]@.contains(v));
                }
            }
        }
        i += 1;
    }
    map
}

/// The parameters that the returned references can derive from, on any way
/// out, through places and through the variables that are defined by them.
pub fn derive_output_origins(body: &Vec<HirStmt>, params: &Vec<Symbol>) -> (r: Vec<usize>)
    ensures
        ({
            let roots = return_roots_in(body@, body@.len() as int);
            let defs = definitions_in(body@, body@.len() as int);
            r@ == derived(roots, defs, params@, roots.len() as int)
        }),
{
    let mut defs: Vec<(Symbol, Symbol)> = Vec::new();
    push_all_definitions(body, &mut defs);
    assert(defs@ =~= definitions_in(body@, body@.len() as int));
    let map = collect_param_alias_map(&defs, params);
    let mut roots: Vec<Symbol> = Vec::new();
    push_all_return_roots(body, &mut roots);
    assert(roots@ =~= return_roots_in(body@, body@.len() as int));
    let mut out: Vec<usize> = Vec::new();
    let mut n: usize = 0;
    while n < roots.len()
        invariant
            0 <= n <= roots@.len(),
            map@.len() == params@.len(),
            is_alias_map(map@, defs@, params@),
            out@ == derived(roots@, defs@, params@, n as int),
        decreases roots.len() - n,
    {
        let v = roots[n];
        let found = find_position(params, v);
        let ghost before = out@;
        let mut i: usize = 0;
        while i < params.len()
            invariant
                0 <= i <= params@.len(),
                map@.len() == params@.len(),
                is_alias_map(map@, defs@, params@),
                match found {
                    Some(k) => position(params@, v, params@.len() as int) == Some(k as int),
                    None => position(params@, v, params@.len() as int) is None,
                },
                out@ == with_origins(before, defs@, params@, v, i as int),
            decreases params.len() - i,
        {
            let stands = match found {
                Some(k) => k == i,
                None => holds_name(&map[i], v),
            };
            assert(stands == stands_for(defs@, params@, v, i as int));
            if stands && !holds_position(&out, i) {
                out.push(i);
            }
            i += 1;
        }
        n += 1;
    }
    out
}

fn holds_position(list: &Vec<usize>, x: usize) -> (r: bool)
    ensures
        r == list@.contains(x),
{
    let mut i: usize = 0;
    while i < list.len()
        invariant
            0 <= i <= list@.len(),
            forall|k: int| 0 <= k < i ==> list@[k] != x,
        decreases list.len() - i,
    {
        if list[i] == x {
            return true;
        }
        i += 1;
    }
    false
}

proof fn lemma_with_origins(
    list: Seq<usize>,
    defs: Seq<(Symbol, Symbol)>,
    params: Seq<Symbol>,
    v: Symbol,
    m: int,
)
    requires
        0 <= m <= params.len(),
        params.len() <= usize::MAX,
        list.no_duplicates(),
    ensures
        with_origins(list, defs, params, v, m).no_duplicates(),
        forall|x: usize| #[trigger]
            with_origins(list, defs, params, v, m).contains(x) <==> list.contains(x) || (x < m
                && stands_for(defs, params, v, x as int)),
    decreases m,
{
    if m > 0 {
        lemma_with_origins(list, defs, params, v, m - 1);
        let before = with_origins(list, defs, params, v, m - 1);
        let now = with_origins(list, defs, params, v, m);
        assert forall|x: usize| #[trigger] now.contains(x) <==> list.contains(x) || (x < m
            && stands_for(defs, params, v, x as int)) by {
            if now != before {
                if now.contains(x) && x != (m - 1) as usize {
                    let k = choose|k: int| 0 <= k < now.len() && now[k] == x;
                    assert(before[k] == x);
                }
                if before.contains(x) {
                    let k = choose|k: int| 0 <= k < before.len() && before[k] == x;
                    assert(now[k] == x);
                }
                assert(now[before.len() as int] == (m - 1) as usize);
            }
            assert(before.contains(x) <==> list.contains(x) || (x < m - 1 && stands_for(
                defs,
                params,
                v,
                x as int,
            )));
        }
    }
}

/// The derivation is the union over all that can be returned: it names the
/// parameters that a root stands for, each once, and no others.
pub proof fn law_derivation_is_the_union(
    roots: Seq<Symbol>,
    defs: Seq<(Symbol, Symbol)>,
    params: Seq<Symbol>,
    n: int,
)
    requires
        0 <= n <= roots.len(),
        params.len() <= usize::MAX,
    ensures
        derived(roots, defs, params, n).no_duplicates(),
        forall|x: usize| #[trigger]
            derived(roots, defs, params, n).contains(x) <==> x < params.len() && exists|k: int|
                0 <= k < n && stands_for(defs, params, #[trigger] roots[k], x as int),
    decreases n,
{
    if n > 0 {
        law_derivation_is_the_union(roots, defs, params, n - 1);
        let before = derived(roots, defs, params, n - 1);
        lemma_with_origins(before, defs, params, roots[n - 1], params.len() as int);
        assert forall|x: usize| #[trigger] derived(roots, defs, params, n).contains(x) <==> x
            < params.len() && exists|k: int|
            0 <= k < n && stands_for(defs, params, #[trigger] roots[k], x as int) by {
            if before.contains(x) {
                let k = choose|k: int|
                    0 <= k < n - 1 && stands_for(defs, params, #[trigger] roots[k], x as int);
                assert(stands_for(defs, params, roots[k], x as int));
            }
            if x < params.len() && exists|k: int|
                0 <= k < n && stands_for(defs, params, #[trigger] roots[k], x as int) {
                let k = choose|k: int|
                    0 <= k < n && stands_for(defs, params, #[trigger] roots[k], x as int);
                if k < n - 1 {
                    assert(before.contains(x));
                }
            }
        }
    }
}

} // verus!
