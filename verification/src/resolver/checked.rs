//! What is checked of enums, and what imports bring in.
use super::diag::{DiagKind, Diagnostic};
use super::names;
use super::state;
use super::state::State;
use super::syntax;
use super::table;
use super::table::SymbolTable;
use crate::ast::{Type, TypeParam, VariantDef};
use crate::list::List;
use crate::symbol::{Span, Symbol};
use crate::types::DefId;
use std::rc::Rc;
use vstd::prelude::*;

verus! {

/// The diagnostic has been reported.
pub open spec fn is_reported(s: State, d: Diagnostic) -> bool {
    s.diagnostics@.contains(d)
}

proof fn lemma_cons<T>(list: List<T>)
    requires
        list is Cons,
    ensures
        list@.len() == list.rest()@.len() + 1,
        list@[0] == list.first(),
        forall|k: int| 0 < k < list@.len() ==> #[trigger] list@[k] == list.rest()@[k - 1],
{
    assert(list@ == seq![list.first()] + list.rest()@);
}

proof fn lemma_one_more(s: State, kind: DiagKind, span: Option<Span>, d: Diagnostic)
    ensures
        is_reported(s, d) ==> is_reported(s.report(kind, span), d),
        is_reported(s.report(kind, span), Diagnostic { kind, span }),
{
    let x = Diagnostic { kind, span };
    let t = s.report(kind, span);
    assert(t.diagnostics@ == seq![x] + s.diagnostics@);
    crate::gather::lemma_in_both(seq![x], s.diagnostics@, d);
    assert(t.diagnostics@[0] == x);
}

// ---------------------------------------------------------------------------
// Constraints of variants
// ---------------------------------------------------------------------------

/// What `when_names` does with the first constraint.
spec fn when_first(
    s: State,
    eq: (Symbol, Rc<Type>),
    params: List<TypeParam>,
    vars: List<Symbol>,
    span: Span,
) -> State {
    let t = if syntax::is_param(params, eq.0) || syntax::has_name(vars, eq.0) {
        s
    } else {
        s.report(
            DiagKind::UnknownWhenParam(eq.0, state::param_names(params, vars)),
            Some(span),
        )
    };
    match syntax::param_in_type(*eq.1, params) {
        Some(bad) => t.report(DiagKind::WhenRefersToParam(bad), Some(state::type_span(*eq.1))),
        None => t,
    }
}

proof fn lemma_when(
    s: State,
    eqs: List<(Symbol, Rc<Type>)>,
    params: List<TypeParam>,
    vars: List<Symbol>,
    span: Span,
    d: Diagnostic,
)
    ensures
        is_reported(s, d) ==> is_reported(s.when_names(eqs, params, vars, span), d),
        forall|k: int|
            #![trigger eqs@[k]]
            0 <= k < eqs@.len() ==> {
                &&& !syntax::is_param(params, eqs@[k].0) && !syntax::has_name(vars, eqs@[k].0)
                    && d == (Diagnostic {
                    kind: DiagKind::UnknownWhenParam(eqs@[k].0, state::param_names(params, vars)),
                    span: Some(span),
                }) ==> is_reported(s.when_names(eqs, params, vars, span), d)
                &&& (syntax::param_in_type(*eqs@[k].1, params) matches Some(bad) && d
                    == (Diagnostic {
                    kind: DiagKind::WhenRefersToParam(bad),
                    span: Some(state::type_span(*eqs@[k].1)),
                })) ==> is_reported(s.when_names(eqs, params, vars, span), d)
            },
    decreases eqs,
{
    if eqs is Cons {
        lemma_cons(eqs);
        let eq = eqs.first();
        let u = when_first(s, eq, params, vars, span);
        assert(s.when_names(eqs, params, vars, span) == u.when_names(
            eqs.rest(),
            params,
            vars,
            span,
        ));
        let unknown = DiagKind::UnknownWhenParam(eq.0, state::param_names(params, vars));
        lemma_one_more(s, unknown, Some(span), d);
        let t = if syntax::is_param(params, eq.0) || syntax::has_name(vars, eq.0) {
            s
        } else {
            s.report(unknown, Some(span))
        };
        if let Some(bad) = syntax::param_in_type(names::of(eq.1), params) {
            lemma_one_more(
                t,
                DiagKind::WhenRefersToParam(bad),
                Some(state::type_span(names::of(eq.1))),
                d,
            );
        }
        lemma_when(u, eqs.rest(), params, vars, span, d);
        assert forall|k: int|
            #![trigger eqs@[k]]
            0 <= k < eqs@.len() implies {
            &&& !syntax::is_param(params, eqs@[k].0) && !syntax::has_name(vars, eqs@[k].0) && d
                == (Diagnostic {
                kind: DiagKind::UnknownWhenParam(eqs@[k].0, state::param_names(params, vars)),
                span: Some(span),
            }) ==> is_reported(s.when_names(eqs, params, vars, span), d)
            &&& (syntax::param_in_type(*eqs@[k].1, params) matches Some(bad) && d == (Diagnostic {
                kind: DiagKind::WhenRefersToParam(bad),
                span: Some(state::type_span(*eqs@[k].1)),
            })) ==> is_reported(s.when_names(eqs, params, vars, span), d)
        } by {
            if k > 0 {
                assert(eqs@[k] == eqs.rest()@[k - 1]);
            }
        }
    } else {
        assert(eqs@.len() == 0);
    }
}

proof fn lemma_exists(
    s: State,
    vars: List<Symbol>,
    params: List<TypeParam>,
    span: Span,
    d: Diagnostic,
)
    ensures
        is_reported(s, d) ==> is_reported(s.exists_names(vars, params, span), d),
        forall|k: int|
            #![trigger vars@[k]]
            0 <= k < vars@.len() && syntax::is_param(params, vars@[k]) && d == (Diagnostic {
                kind: DiagKind::ExistsShadows(vars@[k]),
                span: Some(span),
            }) ==> is_reported(s.exists_names(vars, params, span), d),
    decreases vars,
{
    if vars is Cons {
        lemma_cons(vars);
        let h = vars.first();
        let t = if syntax::is_param(params, h) {
            s.report(DiagKind::ExistsShadows(h), Some(span))
        } else {
            s
        };
        lemma_one_more(s, DiagKind::ExistsShadows(h), Some(span), d);
        lemma_exists(t, vars.rest(), params, span, d);
        assert(s.exists_names(vars, params, span) == t.exists_names(vars.rest(), params, span));
        assert forall|k: int|
            #![trigger vars@[k]]
            0 <= k < vars@.len() && syntax::is_param(params, vars@[k]) && d == (Diagnostic {
                kind: DiagKind::ExistsShadows(vars@[k]),
                span: Some(span),
            }) implies is_reported(s.exists_names(vars, params, span), d) by {
            if k > 0 {
                assert(vars@[k] == vars.rest()@[k - 1]);
            }
        }
    } else {
        assert(vars@.len() == 0);
    }
}

/// The two constraints are on one parameter, are both concrete, and exclude each other.
pub open spec fn is_contradiction(
    a: (Symbol, Rc<Type>),
    b: (Symbol, Rc<Type>),
    vars: List<Symbol>,
    symbols: SymbolTable,
) -> bool {
    &&& a.0 == b.0
    &&& syntax::concrete(*a.1, vars, symbols)
    &&& syntax::concrete(*b.1, vars, symbols)
    &&& syntax::types_differ(*a.1, *b.1, symbols)
}

proof fn lemma_with(
    s: State,
    first: (Symbol, Rc<Type>),
    later: List<(Symbol, Rc<Type>)>,
    vars: List<Symbol>,
    d: Diagnostic,
)
    ensures
        s.contradictions_with(first, later, vars).symbols == s.symbols,
        is_reported(s, d) ==> is_reported(s.contradictions_with(first, later, vars), d),
        forall|k: int|
            #![trigger later@[k]]
            0 <= k < later@.len() && is_contradiction(first, later@[k], vars, s.symbols) && d
                == (Diagnostic {
                kind: DiagKind::Contradictory(first.0, first.1, later@[k].1),
                span: Some(state::type_span(*later@[k].1)),
            }) ==> is_reported(s.contradictions_with(first, later, vars), d),
    decreases later,
{
    if later is Cons {
        lemma_cons(later);
        let h = later.first();
        let kind = DiagKind::Contradictory(h.0, first.1, h.1);
        let at = Some(state::type_span(names::of(h.1)));
        let t = if is_contradiction(first, h, vars, s.symbols) {
            s.report(kind, at)
        } else {
            s
        };
        lemma_one_more(s, kind, at, d);
        assert(s.contradictions_with(first, later, vars) == t.contradictions_with(
            first,
            later.rest(),
            vars,
        ));
        lemma_with(t, first, later.rest(), vars, d);
        assert forall|k: int|
            #![trigger later@[k]]
            0 <= k < later@.len() && is_contradiction(first, later@[k], vars, s.symbols) && d
                == (Diagnostic {
                kind: DiagKind::Contradictory(first.0, first.1, later@[k].1),
                span: Some(state::type_span(*later@[k].1)),
            }) implies is_reported(s.contradictions_with(first, later, vars), d) by {
            if k > 0 {
                assert(later@[k] == later.rest()@[k - 1]);
            }
        }
    } else {
        assert(later@.len() == 0);
    }
}

proof fn lemma_contradictions(
    s: State,
    eqs: List<(Symbol, Rc<Type>)>,
    vars: List<Symbol>,
    i: int,
    j: int,
    d: Diagnostic,
)
    ensures
        s.contradictions(eqs, vars).symbols == s.symbols,
        is_reported(s, d) ==> is_reported(s.contradictions(eqs, vars), d),
        0 <= i < j < eqs@.len() && is_contradiction(eqs@[i], eqs@[j], vars, s.symbols) && d
            == (Diagnostic {
            kind: DiagKind::Contradictory(eqs@[i].0, eqs@[i].1, eqs@[j].1),
            span: Some(state::type_span(*eqs@[j].1)),
        }) ==> is_reported(s.contradictions(eqs, vars), d),
    decreases eqs,
{
    if eqs is Cons {
        lemma_cons(eqs);
        lemma_with(s, eqs.first(), eqs.rest(), vars, d);
        let t = s.contradictions_with(eqs.first(), eqs.rest(), vars);
        lemma_contradictions(t, eqs.rest(), vars, i - 1, j - 1, d);
        if 0 <= i < j < eqs@.len() {
            assert(eqs@[j] == eqs.rest()@[j - 1]);
            if i > 0 {
                assert(eqs@[i] == eqs.rest()@[i - 1]);
            }
        }
    } else {
        assert(eqs@.len() == 0);
    }
}

/// Each constraint of each variant is checked: a name that is no parameter of the enum and
/// no variable of the variant is reported, so is a right side that refers to a parameter, a
/// variable with the name of a parameter, and two constraints that exclude each other.
pub proof fn law_constraints_are_checked(
    s: State,
    variants: List<VariantDef>,
    params: List<TypeParam>,
    span: Span,
    n: int,
    i: int,
    j: int,
    d: Diagnostic,
)
    ensures
        s.variant_checks(variants, params, span).symbols == s.symbols,
        is_reported(s, d) ==> is_reported(s.variant_checks(variants, params, span), d),
        0 <= n < variants@.len() ==> ({
            let v = variants@[n];
            let t = s.variant_checks(variants, params, span);
            &&& 0 <= i < v.eq_spec@.len() && !syntax::is_param(params, v.eq_spec@[i].0)
                && !syntax::has_name(v.exists_params, v.eq_spec@[i].0) && d == (Diagnostic {
                kind: DiagKind::UnknownWhenParam(
                    v.eq_spec@[i].0,
                    state::param_names(params, v.exists_params),
                ),
                span: Some(span),
            }) ==> is_reported(t, d)
            &&& 0 <= i < v.eq_spec@.len() && (syntax::param_in_type(
                *v.eq_spec@[i].1,
                params,
            ) matches Some(bad) && d == (Diagnostic {
                kind: DiagKind::WhenRefersToParam(bad),
                span: Some(state::type_span(*v.eq_spec@[i].1)),
            })) ==> is_reported(t, d)
            &&& 0 <= i < v.exists_params@.len() && syntax::is_param(params, v.exists_params@[i])
                && d == (Diagnostic {
                kind: DiagKind::ExistsShadows(v.exists_params@[i]),
                span: Some(span),
            }) ==> is_reported(t, d)
            &&& 0 <= i < j < v.eq_spec@.len() && is_contradiction(
                v.eq_spec@[i],
                v.eq_spec@[j],
                v.exists_params,
                s.symbols,
            ) && d == (Diagnostic {
                kind: DiagKind::Contradictory(
                    v.eq_spec@[i].0,
                    v.eq_spec@[i].1,
                    v.eq_spec@[j].1,
                ),
                span: Some(state::type_span(*v.eq_spec@[j].1)),
            }) ==> is_reported(t, d)
        }),
    decreases variants,
{
    if variants is Cons {
        lemma_cons(variants);
        let v = variants.first();
        lemma_when(s, v.eq_spec, params, v.exists_params, span, d);
        let a = s.when_names(v.eq_spec, params, v.exists_params, span);
        names::lemma_when_names(s, v.eq_spec, params, v.exists_params, span, Symbol(0), span);
        lemma_exists(a, v.exists_params, params, span, d);
        let b = a.exists_names(v.exists_params, params, span);
        names::lemma_exists_names(a, v.exists_params, params, span, Symbol(0), span);
        lemma_contradictions(b, v.eq_spec, v.exists_params, i, j, d);
        let c = b.contradictions(v.eq_spec, v.exists_params);
        law_constraints_are_checked(c, variants.rest(), params, span, n - 1, i, j, d);
        assert(s.variant_checks(variants, params, span) == c.variant_checks(
            variants.rest(),
            params,
            span,
        ));
        if n > 0 && n < variants@.len() {
            assert(variants@[n] == variants.rest()@[n - 1]);
        }
        if 0 <= i < v.eq_spec@.len() {
            let x = v.eq_spec@[i];
        }
        if 0 <= i < v.exists_params@.len() {
            let x = v.exists_params@[i];
        }
    } else {
        assert(variants@.len() == 0);
    }
}

// ---------------------------------------------------------------------------
// Imports
// ---------------------------------------------------------------------------

/// The name that an import brings in: its alias, or the last name of its path.
pub open spec fn imported(path: List<Symbol>, alias: Option<Symbol>) -> Option<Symbol> {
    match alias {
        Some(a) => Some(a),
        None => if path@.len() > 0 {
            Some(path@.last())
        } else {
            None
        },
    }
}

proof fn lemma_last(path: List<Symbol>)
    ensures
        state::last_name(path) == (if path@.len() > 0 {
            Some(path@.last())
        } else {
            None
        }),
    decreases path,
{
    if path is Cons {
        lemma_cons(path);
        lemma_last(path.rest());
        if path.rest() is Nil {
            assert(path.rest()@.len() == 0);
        } else {
            lemma_cons(path.rest());
            assert(path@.last() == path@[path@.len() - 1]);
        }
    } else {
        assert(path@.len() == 0);
    }
}

/// An imported type is known under the name of the import, unless the scope has one of that
/// name already, and under its full path.
pub proof fn law_imported_types_are_found(
    s: State,
    path: List<Symbol>,
    alias: Option<Symbol>,
    span: Span,
    name: Symbol,
    d: DefId,
)
    requires
        s.symbols.type_by_path(path) == Some(d),
        s.symbols.type_def(d) is Some,
        s.symbols.type_def(d)->0.def_id == d,
        imported(path, alias) == Some(name),
        table::entry(s.symbols.top().types, name) is None,
    ensures
        ({
            let t = s.import(path, None, alias, span);
            &&& table::type_in(t.symbols.scopes, name) == Some(d)
            &&& t.symbols.named_type(name) == s.symbols.type_def(d)
            &&& table::path_entry(t.symbols.full_paths, path@) == Some(d)
            &&& t.diagnostics == s.diagnostics
        }),
{
    lemma_last(path);
    let t = s.import(path, None, alias, span);
    let b = s.symbols.type_def(d)->0;
    let w = s.symbols.with_type(name, b, span).0;
    assert(t.symbols.scopes == w.scopes);
    assert(t.symbols.type_defs == w.type_defs);
    assert(w.scopes.first().types == s.symbols.top().types.cons((name, d)));
    assert(table::entry(w.scopes.first().types, name) == Some(d));
    assert(w.type_defs == s.symbols.type_defs.cons((d, b)));
    assert(t.symbols.full_paths == w.full_paths.cons((path, d)));
}

/// What can be imported neither as a type nor as a trait nor as a function is reported.
pub proof fn law_failed_imports_are_reported(
    s: State,
    path: List<Symbol>,
    items: Option<List<Symbol>>,
    alias: Option<Symbol>,
    span: Span,
)
    requires
        s.symbols.type_by_path(path) is None,
        s.trait_at(path) is None,
        s.function_at(path) is None,
    ensures
        s.import(path, items, alias, span).diagnostics == s.diagnostics.cons(
            Diagnostic { kind: DiagKind::CannotImport(path), span: Some(span) },
        ),
        s.import(path, items, alias, span).symbols == s.symbols,
{
}

/// An imported function is known under the name of the import.
pub proof fn law_imported_functions_are_found(
    s: State,
    path: List<Symbol>,
    alias: Symbol,
    span: Span,
)
    requires
        s.symbols.type_by_path(path) is None,
        s.trait_at(path) is None,
        s.function_at(path) is Some,
        table::entry(s.symbols.top().functions, alias) is None,
    ensures
        table::function_in(s.import(path, None, Some(alias), span).symbols.scopes, alias)
            == s.function_at(path),
        s.import(path, None, Some(alias), span).diagnostics == s.diagnostics,
{
    let t = s.import(path, None, Some(alias), span);
    let f = s.function_at(path)->0;
    assert(t.symbols.scopes.first().functions == s.symbols.top().functions.cons((alias, f)));
}

} // verus!
