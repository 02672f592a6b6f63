//! Laws of name resolution.
use super::diag::{DiagKind, Diagnostic};
use super::growth;
use super::resolve::Resolution;
use super::state::{ResolutionMap, State};
use super::table;
use crate::ast::Stmt;
use crate::list::List;
use crate::symbol::{Span, Symbol, RESULT};
use crate::types::TypeId;
use vstd::prelude::*;

verus! {

/// One list of items after another.
pub open spec fn joined(a: List<Stmt>, b: List<Stmt>) -> List<Stmt>
    decreases a,
{
    match a {
        List::Nil => b,
        List::Cons(link) => joined(link.tail, b).cons(link.head),
    }
}

/// Items are resolved in order: resolving two lists one after the other is
/// resolving the list that they make together.
pub proof fn law_items_compose(s: State, a: List<Stmt>, b: List<Stmt>, fuel: nat)
    ensures
        s.items(joined(a, b), fuel) == s.items(a, fuel).items(b, fuel),
    decreases a,
{
    reveal(State::items);
    reveal(State::item);
    if a is Cons {
        law_items_compose(s.item(a.first(), fuel), a.rest(), b, fuel);
    }
}

/// Results that are handed back are what was handed out: the resolver goes on
/// from the same symbols, types and aliases, with no diagnostics.
pub proof fn law_results_restore(s: State)
    ensures
        s.taken().restored(Resolution::of(s).symbols, Resolution::of(s).map) == (State {
            diagnostics: List::Nil,
            map: ResolutionMap { has_main: s.has_main, ..s.map },
            ..s
        }),
{
}

/// A function of the outermost scope can be referred to from everywhere: its
/// name is found, and nothing is reported.
pub proof fn law_known_function_is_found(s: State, name: Symbol, span: Span)
    requires
        growth::knows_function(s.symbols.scopes, name),
    ensures
        s.ident(name, span).0.diagnostics == s.diagnostics,
        s.ident(name, span).0.symbols == s.symbols,
        s.ident(name, span).1 is Some,
{
    growth::lemma_known_is_found(s.symbols.scopes, name);
}

/// A variable that is bound is found from then on, with its type, and the other
/// names are found as before; a name that its scope has bound already is
/// reported, and keeps what it was bound to.
pub proof fn law_bound_variable_is_found(
    s: State,
    name: Symbol,
    ty: TypeId,
    mutable: bool,
    span: Span,
    other: Symbol,
    place: Span,
)
    requires
        s.symbols.scopes is Cons,
    ensures
        ({
            let t = s.bind(name, ty, mutable, span);
            if table::entry(s.symbols.top().variables, name) is None {
                &&& t.ident(name, place) == (t, Some(ty))
                &&& t.diagnostics == s.diagnostics
            } else {
                &&& t.symbols.scopes == s.symbols.scopes
                &&& t.diagnostics == s.report(
                    DiagKind::DuplicateVariable(name),
                    Some(span),
                ).diagnostics
            }
        }),
        other != name ==> table::variable_in(
            s.bind(name, ty, mutable, span).symbols.scopes,
            other,
        ) == table::variable_in(s.symbols.scopes, other),
{
}

/// A variable of an inner scope hides one of the same name further out, and is
/// gone with its scope.
pub proof fn law_inner_variable_hides(
    s: State,
    name: Symbol,
    ty: TypeId,
    mutable: bool,
    span: Span,
    place: Span,
)
    requires
        s.symbols.scopes is Cons,
    ensures
        s.enter().bind(name, ty, mutable, span).ident(name, place).1 == Some(ty),
        s.enter().bind(name, ty, mutable, span).diagnostics == s.diagnostics,
        s.enter().bind(name, ty, mutable, span).exit().symbols.scopes == s.symbols.scopes,
{
    let t = s.enter();
    assert(table::entry(t.symbols.top().variables, name) is None);
    law_bound_variable_is_found(t, name, ty, mutable, span, name, place);
}

/// A name that no scope knows is reported where it is used, and its type is the
/// one that stands for an error.
pub proof fn law_unknown_name_is_reported(s: State, name: Symbol, span: Span)
    requires
        table::variable_in(s.symbols.scopes, name) is None,
        table::function_in(s.symbols.scopes, name) is None,
        s.symbols.named_type(name) is None,
        name.0 != RESULT,
    ensures
        s.ident(name, span).1 == Some(s.error()),
        s.ident(name, span).0.diagnostics@ == seq![
            Diagnostic { kind: DiagKind::UndefinedName(name), span: Some(span) },
        ] + s.diagnostics@,
        s.ident(name, span).0.symbols == s.symbols,
{
}

/// What growth means: the scopes that were open are the scopes that are open,
/// the functions of the outermost scope stay known, new definitions have new
/// numbers, old diagnostics and types stay where they are.
pub proof fn law_growth_keeps(a: State, b: State)
    requires
        growth::grows(a, b),
        a.symbols.scopes@.len() > 0,
    ensures
        b.symbols.scopes@.len() == a.symbols.scopes@.len(),
        growth::functions_stay(a.symbols.scopes, b.symbols.scopes),
        a.symbols.next_def <= b.symbols.next_def,
        growth::adds_to(a.diagnostics, b.diagnostics),
        a.ctx.types.is_prefix_of(b.ctx.types),
        a.has_main ==> b.has_main,
{
    reveal(growth::grows);
}

} // verus!
