//! That names which nothing stands for are reported, in a whole program.
use super::diag::{DiagKind, Diagnostic};
use super::laws;
use super::names;
use super::names::Word;
use super::resolve::{Resolution, EXPANSIONS};
use super::state;
use super::state::State;
use super::syntax;
use super::table;
use super::table::{
    ConstraintBinding, FunctionBinding, FunctionSignature, ImplBinding, Scope, SymbolTable,
    TraitBinding,
};
use crate::ast::{AssocType, ImplMethod, Param, Predicate, Stmt, TraitMethod, Type};
use crate::list::List;
use crate::symbol::{Span, Symbol};
use crate::types::DefId;
use std::rc::Rc;
use vstd::prelude::*;

verus! {

// ---------------------------------------------------------------------------
// Occurrences in items
// ---------------------------------------------------------------------------

/// The word occurs in the type of one of the parameters.
pub open spec fn in_param_types(list: List<Param>, w: Word) -> bool
    decreases list,
{
    match list {
        List::Nil => false,
        List::Cons(link) => names::in_optional_type(link.head.ty, w) || in_param_types(
            link.tail,
            w,
        ),
    }
}

/// The word occurs in the signature of one of the methods.
pub open spec fn in_trait_methods(list: List<TraitMethod>, w: Word) -> bool
    decreases list,
{
    match list {
        List::Nil => false,
        List::Cons(link) => in_param_types(link.head.params, w) || names::in_type(
            *link.head.return_type,
            w,
        ) || in_trait_methods(link.tail, w),
    }
}

/// The word occurs in the type of one of the parameters, with `Self` put in.
pub open spec fn in_self_params(list: List<Param>, for_type: Type, w: Word) -> bool
    decreases list,
{
    match list {
        List::Nil => false,
        List::Cons(link) => (match link.head.ty {
            Some(t) => names::in_type(syntax::with_self(*t, for_type), w),
            None => false,
        }) || in_self_params(link.tail, for_type, w),
    }
}

/// The word occurs in the signature of one of the methods, with `Self` put in.
pub open spec fn in_impl_methods(list: List<ImplMethod>, for_type: Type, w: Word) -> bool
    decreases list,
{
    match list {
        List::Nil => false,
        List::Cons(link) => in_self_params(link.head.params, for_type, w) || names::in_type(
            syntax::with_self(*link.head.return_type, for_type),
            w,
        ) || in_impl_methods(link.tail, for_type, w),
    }
}

/// The word occurs in one of the associated types.
pub open spec fn in_assoc_types(list: List<AssocType>, w: Word) -> bool
    decreases list,
{
    match list {
        List::Nil => false,
        List::Cons(link) => names::in_optional_type(link.head.default, w) || in_assoc_types(
            link.tail,
            w,
        ),
    }
}

/// The word occurs in one of the predicates.
pub open spec fn in_predicates(list: List<Predicate>, w: Word) -> bool
    decreases list,
{
    match list {
        List::Nil => false,
        List::Cons(link) => names::in_type(*link.head.ty, w) || names::in_types(
            link.head.bounds,
            w,
        ) || in_predicates(link.tail, w),
    }
}

/// The name is one of the list.
pub open spec fn is_among(list: List<Symbol>, w: Word) -> bool
    decreases list,
{
    match list {
        List::Nil => false,
        List::Cons(link) => w == Word::Bound(link.head) || is_among(link.tail, w),
    }
}

/// The word occurs in the item. An import brings in the names that it lists, and its alias
/// or else the last name of its path.
pub open spec fn in_item(stmt: Stmt, w: Word) -> bool {
    match stmt {
        Stmt::TraitDef { methods, .. } => in_trait_methods(methods, w),
        Stmt::ImplBlock { trait_path, for_type, methods, associated_types, .. } => {
            ||| names::in_type(*for_type, w)
            ||| names::in_optional_type(trait_path, w)
            ||| w is Bound && in_impl_methods(methods, *for_type, w)
            ||| in_assoc_types(associated_types, w)
        },
        Stmt::Import { path, items, alias, .. } => {
            ||| match alias {
                Some(a) => w == Word::Bound(a),
                None => path@.len() > 0 && w == Word::Bound(path@.last()),
            }
            ||| match items {
                Some(list) => is_among(list, w),
                None => false,
            }
        },
        Stmt::Constraint { predicates, .. } => in_predicates(predicates, w),
        Stmt::ExternFunction { name, params, return_type, .. } => w == Word::Bound(name)
            || in_param_types(params, w) || names::in_type(*return_type, w),
        Stmt::FunctionDef { .. } => names::in_stmt(stmt, w),
        Stmt::TypeDef { .. } => names::in_stmt(stmt, w),
        _ => false,
    }
}

/// The word occurs in one of the items.
pub open spec fn in_items(list: List<Stmt>, w: Word) -> bool
    decreases list,
{
    match list {
        List::Nil => false,
        List::Cons(link) => in_item(link.head, w) || in_items(link.tail, w),
    }
}

// ---------------------------------------------------------------------------
// Items other than functions and types
// ---------------------------------------------------------------------------

/// A change of the innermost scope that leaves the name alone.
proof fn lemma_top(s: SymbolTable, top: Scope, n: Symbol)
    requires
        top.variables == s.top().variables,
        top.functions == s.top().functions,
        top.types == s.top().types,
    ensures
        names::is_nowhere(s.scopes, s.type_defs, n) ==> names::is_nowhere(
            s.with_top(top).scopes,
            s.type_defs,
            n,
        ),
{
    reveal(names::is_nowhere);
    let b = s.with_top(top).scopes;
    assert(b.rest() == s.outer());
    assert(b.first() == top);
    if names::is_nowhere(s.scopes, s.type_defs, n) {
        assert(table::entry(top.variables, n) is None);
        assert(table::entry(top.functions, n) is None);
        assert(table::entry(top.types, n) is None);
        assert(table::variable_in(b, n) is None);
        assert(table::function_in(b, n) is None);
        assert(table::type_in(b, n) is None);
    }
}

proof fn lemma_with_trait(s: SymbolTable, name: Symbol, b: Rc<TraitBinding>, at: Span, n: Symbol)
    ensures
        names::is_nowhere(s.scopes, s.type_defs, n) ==> names::is_nowhere(
            s.with_trait(name, b, at).0.scopes,
            s.with_trait(name, b, at).0.type_defs,
            n,
        ),
{
    let top = Scope { traits: s.top().traits.cons((name, b.def_id)), ..s.top() };
    lemma_top(s, top, n);
}

proof fn lemma_with_constraint(
    s: SymbolTable,
    name: Symbol,
    b: Rc<ConstraintBinding>,
    at: Span,
    n: Symbol,
)
    ensures
        names::is_nowhere(s.scopes, s.type_defs, n) ==> names::is_nowhere(
            s.with_constraint(name, b, at).0.scopes,
            s.with_constraint(name, b, at).0.type_defs,
            n,
        ),
{
    let top = Scope { constraints: s.top().constraints.cons((name, b)), ..s.top() };
    lemma_top(s, top, n);
}

#[verifier::spinoff_prover]
proof fn lemma_param_types(s: State, list: List<Param>, fuel: nat, n: Symbol, sp: Span)
    ensures
        names::follows(
            s,
            s.parameters(list, fuel).0,
            n,
            sp,
            in_param_types(list, Word::Bound(n)),
            in_param_types(list, Word::Used(n, sp)),
        ),
    decreases list,
{
    reveal(State::parameters);
    reveal(State::optional_type);
    if list is Cons {
        names::lemma_optional_type(s, list.first().ty, fuel, n, sp);
        lemma_param_types(s.optional_type(list.first().ty, fuel).0, list.rest(), fuel, n, sp);
    }
}

#[verifier::spinoff_prover]
proof fn lemma_trait_methods(s: State, list: List<TraitMethod>, fuel: nat, n: Symbol, sp: Span)
    ensures
        names::follows(
            s,
            s.trait_methods(list, fuel).0,
            n,
            sp,
            in_trait_methods(list, Word::Bound(n)),
            in_trait_methods(list, Word::Used(n, sp)),
        ),
    decreases list,
{
    reveal(State::trait_methods);
    reveal(State::parameters);
    reveal(State::type_expr);
    if list is Cons {
        let m = list.first();
        lemma_param_types(s, m.params, fuel, n, sp);
        let t = s.parameters(m.params, fuel).0;
        names::lemma_type(t, names::of(m.return_type), fuel, n, sp);
        let u = t.type_expr(names::of(m.return_type), fuel).0;
        lemma_trait_methods(u, list.rest(), fuel, n, sp);
    }
}

#[verifier::spinoff_prover]
proof fn lemma_self_type(s: State, ty: Type, for_type: Type, fuel: nat, n: Symbol, sp: Span)
    ensures
        names::follows(
            s,
            s.self_type(ty, for_type, fuel),
            n,
            sp,
            names::in_type(syntax::with_self(ty, for_type), Word::Bound(n)),
            false,
        ),
{
    reveal(State::self_type);
    reveal(State::type_expr);
    if fuel > 0 {
        names::lemma_type(s, syntax::with_self(ty, for_type), (fuel - 1) as nat, n, sp);
    }
}

#[verifier::spinoff_prover]
proof fn lemma_method_params(
    s: State,
    list: List<Param>,
    for_type: Type,
    fuel: nat,
    n: Symbol,
    sp: Span,
)
    ensures
        names::follows(
            s,
            s.method_params(list, for_type, fuel),
            n,
            sp,
            in_self_params(list, for_type, Word::Bound(n)),
            false,
        ),
    decreases list,
{
    reveal(State::method_params);
    reveal(State::self_type);
    if list is Cons {
        let t = match list.first().ty {
            Some(t) => s.self_type(names::of(t), for_type, fuel),
            None => s,
        };
        if let Some(ty) = list.first().ty {
            lemma_self_type(s, names::of(ty), for_type, fuel, n, sp);
        }
        lemma_method_params(t, list.rest(), for_type, fuel, n, sp);
    }
}

#[verifier::spinoff_prover]
proof fn lemma_impl_methods(
    s: State,
    list: List<ImplMethod>,
    receiver: Option<DefId>,
    for_type: Type,
    fuel: nat,
    n: Symbol,
    sp: Span,
)
    ensures
        names::follows(
            s,
            s.impl_methods(list, receiver, for_type, fuel),
            n,
            sp,
            in_impl_methods(list, for_type, Word::Bound(n)),
            false,
        ),
    decreases list,
{
    reveal(State::impl_methods);
    reveal(State::method_params);
    reveal(State::self_type);
    if list is Cons {
        let m = list.first();
        let (t, d) = s.define();
        let u = match receiver {
            Some(r) => State {
                symbols: SymbolTable {
                    method_ids: t.symbols.method_ids.cons((r, m.name, d)),
                    ..t.symbols
                },
                ..t
            },
            None => t,
        };
        lemma_method_params(u, m.params, for_type, fuel, n, sp);
        let v = u.method_params(m.params, for_type, fuel);
        lemma_self_type(v, names::of(m.return_type), for_type, fuel, n, sp);
        let x = v.self_type(names::of(m.return_type), for_type, fuel);
        lemma_impl_methods(x, list.rest(), receiver, for_type, fuel, n, sp);
        assert(s.impl_methods(list, receiver, for_type, fuel) == x.impl_methods(
            list.rest(),
            receiver,
            for_type,
            fuel,
        ));
    }
}

#[verifier::spinoff_prover]
proof fn lemma_assoc_types(s: State, list: List<AssocType>, fuel: nat, n: Symbol, sp: Span)
    ensures
        names::follows(
            s,
            s.assoc_types(list, fuel),
            n,
            sp,
            in_assoc_types(list, Word::Bound(n)),
            in_assoc_types(list, Word::Used(n, sp)),
        ),
    decreases list,
{
    reveal(State::assoc_types);
    reveal(State::type_expr);
    if list is Cons {
        let t = match list.first().default {
            Some(t) => s.type_expr(names::of(t), fuel).0,
            None => s,
        };
        if let Some(ty) = list.first().default {
            names::lemma_type(s, names::of(ty), fuel, n, sp);
        }
        lemma_assoc_types(t, list.rest(), fuel, n, sp);
    }
}

#[verifier::spinoff_prover]
proof fn lemma_bounds(s: State, list: List<Type>, fuel: nat, n: Symbol, sp: Span)
    ensures
        names::follows(
            s,
            s.bounds(list, fuel).0,
            n,
            sp,
            names::in_types(list, Word::Bound(n)),
            names::in_types(list, Word::Used(n, sp)),
        ),
    decreases list,
{
    reveal(State::bounds);
    reveal(State::type_expr);
    if list is Cons {
        let t = match s.bound_trait(list.first()) {
            Some(d) => s.add_type(
                crate::types::TypeData::DynTrait { traits: List::Nil.cons(d) },
            ).0,
            None => s.type_expr(list.first(), fuel).0,
        };
        if s.bound_trait(list.first()) is None {
            names::lemma_type(s, list.first(), fuel, n, sp);
        } else {
            assert(list.first() is Path);
            assert(!names::in_type(list.first(), Word::Used(n, sp)));
            assert(!names::in_type(list.first(), Word::Bound(n)));
        }
        lemma_bounds(t, list.rest(), fuel, n, sp);
    }
}

#[verifier::spinoff_prover]
proof fn lemma_predicates(s: State, list: List<Predicate>, fuel: nat, n: Symbol, sp: Span)
    ensures
        names::follows(
            s,
            s.predicates(list, fuel).0,
            n,
            sp,
            in_predicates(list, Word::Bound(n)),
            in_predicates(list, Word::Used(n, sp)),
        ),
    decreases list,
{
    reveal(State::predicates);
    reveal(State::bounds);
    reveal(State::type_expr);
    if list is Cons {
        let p = list.first();
        names::lemma_type(s, names::of(p.ty), fuel, n, sp);
        let t = s.type_expr(names::of(p.ty), fuel).0;
        lemma_bounds(t, p.bounds, fuel, n, sp);
        lemma_predicates(t.bounds(p.bounds, fuel).0, list.rest(), fuel, n, sp);
    }
}

proof fn lemma_import_type(
    s: State,
    name: Symbol,
    d: DefId,
    full: List<Symbol>,
    at: Span,
    n: Symbol,
    sp: Span,
)
    ensures
        names::follows(s, s.import_type(name, d, full, at), n, sp, name == n, false),
{
    if let Some(b) = s.symbols.type_def(d) {
        names::lemma_known_type(s, d, n);
        if name != n && names::is_unknown(s, n) {
            names::lemma_with_type(s, name, b, at, n);
        }
    }
}

proof fn lemma_import_type_items(
    s: State,
    items: List<Symbol>,
    path: List<Symbol>,
    at: Span,
    n: Symbol,
    sp: Span,
)
    ensures
        names::follows(
            s,
            s.import_type_items(items, path, at),
            n,
            sp,
            is_among(items, Word::Bound(n)),
            false,
        ),
    decreases items,
{
    if items is Cons {
        let h = items.first();
        let found = s.symbols.type_by_path(List::Nil.cons(h));
        let t = match found {
            Some(d) => s.import_type(h, d, path.snoc(h), at),
            None => s,
        };
        if let Some(d) = found {
            lemma_import_type(s, h, d, path.snoc(h), at, n, sp);
        }
        lemma_import_type_items(t, items.rest(), path, at, n, sp);
    }
}

proof fn lemma_import_trait_items(s: State, items: List<Symbol>, at: Span, n: Symbol, sp: Span)
    ensures
        names::follows(s, s.import_trait_items(items, at), n, sp, false, false),
    decreases items,
{
    if items is Cons {
        let h = items.first();
        let t = match s.symbols.trait_by_path(List::Nil.cons(h)) {
            Some(d) => match s.symbols.trait_def(d) {
                Some(b) => State { symbols: s.symbols.with_trait(h, b, at).0, ..s },
                None => s,
            },
            None => s,
        };
        if let Some(d) = s.symbols.trait_by_path(List::Nil.cons(h)) {
            if let Some(b) = s.symbols.trait_def(d) {
                lemma_with_trait(s.symbols, h, b, at, n);
            }
        }
        lemma_import_trait_items(t, items.rest(), at, n, sp);
    }
}

proof fn lemma_last_name(path: List<Symbol>)
    ensures
        state::last_name(path) == (if path@.len() > 0 {
            Some(path@.last())
        } else {
            None
        }),
    decreases path,
{
    if path is Cons {
        lemma_last_name(path.rest());
        assert(path@ == seq![path.first()] + path.rest()@);
        if path.rest() is Nil {
            assert(path.rest()@.len() == 0);
            assert(path@.last() == path.first());
        } else {
            assert(path.rest()@ == seq![path.rest().first()] + path.rest().rest()@);
            assert(path@.last() == path.rest()@.last());
        }
    } else {
        assert(path@.len() == 0);
    }
}

#[verifier::spinoff_prover]
proof fn lemma_import(s: State, stmt: Stmt, n: Symbol, sp: Span)
    requires
        stmt is Import,
    ensures
        names::follows(
            s,
            s.import(
                stmt->Import_path,
                stmt->Import_items,
                stmt->Import_alias,
                stmt->Import_span,
            ),
            n,
            sp,
            in_item(stmt, Word::Bound(n)),
            in_item(stmt, Word::Used(n, sp)),
        ),
{
    if let Stmt::Import { path, items, alias, span } = stmt {
        lemma_last_name(path);
        let name = match alias {
            Some(a) => Some(a),
            None => state::last_name(path),
        };
        if let Some(list) = items {
            lemma_no_use(list, n, sp);
        }
        assert(!in_item(stmt, Word::Used(n, sp)));
        if let Some(d) = s.symbols.type_by_path(path) {
            let t = match name {
                Some(x) => s.import_type(x, d, path, span),
                None => s,
            };
            if let Some(x) = name {
                lemma_import_type(s, x, d, path, span, n, sp);
            }
            if let Some(list) = items {
                lemma_import_type_items(t, list, path, span, n, sp);
            }
        } else if let Some(b) = s.trait_at(path) {
            let t = match name {
                Some(x) => State { symbols: s.symbols.with_trait(x, b, span).0, ..s },
                None => s,
            };
            if let Some(x) = name {
                lemma_with_trait(s.symbols, x, b, span, n);
            }
            if let Some(list) = items {
                lemma_import_trait_items(t, list, span, n, sp);
            }
        } else if let Some(f) = s.function_at(path) {
            if let Some(x) = name {
                if x != n {
                    names::lemma_with_function(s, x, f, span, n);
                }
            }
        }
    }
}

proof fn lemma_no_use(list: List<Symbol>, n: Symbol, sp: Span)
    ensures
        !is_among(list, Word::Used(n, sp)),
    decreases list,
{
    if list is Cons {
        lemma_no_use(list.rest(), n, sp);
    }
}

#[verifier::spinoff_prover]
proof fn lemma_trait_def(s: State, stmt: Stmt, fuel: nat, n: Symbol, sp: Span)
    requires
        stmt is TraitDef,
    ensures
        names::follows(
            s,
            s.trait_def(stmt, fuel),
            n,
            sp,
            in_item(stmt, Word::Bound(n)),
            in_item(stmt, Word::Used(n, sp)),
        ),
{
    reveal(State::trait_def);
    reveal(State::trait_methods);
    if let Stmt::TraitDef { span, name, methods, associated_types, attributes } = stmt {
        let (s0, def_id) = s.define();
        let (s1, t) = s0.add_type(
            crate::types::TypeData::GenericParam {
                index: 0,
                name: Symbol(crate::symbol::SELF_TYPE),
            },
        );
        let r = State { impl_for: Some(t), ..s1 };
        lemma_trait_methods(r, methods, fuel, n, sp);
        let (s2, sigs) = r.trait_methods(methods, fuel);
        let s3 = State { impl_for: None, ..s2 };
        let b = Rc::new(
            TraitBinding {
                def_id,
                methods: sigs,
                associated_types: state::assoc_defaults(associated_types),
                span,
                attributes,
                crate_id: s3.symbols.local_crate_id,
            },
        );
        lemma_with_trait(s3.symbols, name, b, span, n);
        assert(s.trait_def(stmt, fuel) == s3.note(s3.symbols.with_trait(name, b, span)));
    }
}

#[verifier::spinoff_prover]
#[verifier::rlimit(40)]
proof fn lemma_impl_block(s: State, stmt: Stmt, fuel: nat, n: Symbol, sp: Span)
    requires
        stmt is ImplBlock,
    ensures
        names::follows(
            s,
            s.impl_block(stmt, fuel),
            n,
            sp,
            in_item(stmt, Word::Bound(n)),
            in_item(stmt, Word::Used(n, sp)),
        ),
{
    reveal(State::impl_block);
    reveal(State::type_expr);
    reveal(State::impl_trait);
    reveal(State::impl_methods);
    reveal(State::assoc_types);
    if let Stmt::ImplBlock {
        span,
        attributes,
        trait_path,
        for_type,
        methods,
        associated_types,
        type_params,
    } = stmt {
        let r = s.with_generics(type_params);
        names::lemma_generics(s, type_params, 0, List::Nil);
        let ft = names::of(for_type);
        names::lemma_type(r, ft, fuel, n, sp);
        let (s0, resolved_for) = r.type_expr(ft, fuel);
        let q = State { impl_for: Some(resolved_for), ..s0 };
        lemma_impl_trait(q, trait_path, fuel, n, sp);
        let (s1, of_trait) = q.impl_trait(trait_path, fuel);
        let m = s1.mark_drop(of_trait, resolved_for);
        assert(m.symbols == s1.symbols && m.diagnostics == s1.diagnostics);
        names::lemma_enter(m, n);
        let (s2, def_id) = m.enter().define();
        let s3 = State {
            symbols: SymbolTable {
                impls: s2.symbols.impls.cons(Rc::new(ImplBinding { def_id, methods, span })),
                ..s2.symbols
            },
            ..s2
        };
        let receiver = s3.ctx.def_of(resolved_for);
        lemma_impl_methods(s3, methods, receiver, ft, fuel, n, sp);
        let u = s3.impl_methods(methods, receiver, ft, fuel);
        lemma_assoc_types(u, associated_types, fuel, n, sp);
        let s4 = u.assoc_types(associated_types, fuel);
        let s5 = State { impl_params: None, impl_for: None, ..s4 };
        names::lemma_exit(s5, n);
        assert(s.impl_block(stmt, fuel) == s5.exit());
    }
}

#[verifier::spinoff_prover]
proof fn lemma_impl_trait(s: State, path: Option<Rc<Type>>, fuel: nat, n: Symbol, sp: Span)
    ensures
        names::follows(
            s,
            s.impl_trait(path, fuel).0,
            n,
            sp,
            names::in_optional_type(path, Word::Bound(n)),
            names::in_optional_type(path, Word::Used(n, sp)),
        ),
{
    reveal(State::impl_trait);
    reveal(State::type_expr);
    if let Some(t) = path {
        let ty = names::of(t);
        assert(names::in_optional_type(path, Word::Used(n, sp)) == names::in_type(
            ty,
            Word::Used(n, sp),
        ));
        assert(names::in_optional_type(path, Word::Bound(n)) == names::in_type(ty, Word::Bound(n)));
        if !(ty is Path) {
            names::lemma_type(s, ty, fuel, n, sp);
        }
    }
}

#[verifier::spinoff_prover]
proof fn lemma_constraint_def(s: State, stmt: Stmt, fuel: nat, n: Symbol, sp: Span)
    requires
        stmt is Constraint,
    ensures
        names::follows(
            s,
            s.constraint_def(stmt, fuel),
            n,
            sp,
            in_item(stmt, Word::Bound(n)),
            in_item(stmt, Word::Used(n, sp)),
        ),
{
    reveal(State::constraint_def);
    reveal(State::predicates);
    if let Stmt::Constraint { name, params, predicates, span } = stmt {
        let r = s.with_generics(params);
        names::lemma_generics(s, params, 0, List::Nil);
        lemma_predicates(r, predicates, fuel, n, sp);
        let (s0, list) = r.predicates(predicates, fuel);
        let s1 = State { impl_params: None, ..s0 };
        let b = Rc::new(ConstraintBinding { predicates: list, params, span });
        lemma_with_constraint(s1.symbols, name, b, span, n);
        assert(s.constraint_def(stmt, fuel) == s1.note(
            s1.symbols.with_constraint(name, b, span),
        ));
    }
}

#[verifier::spinoff_prover]
proof fn lemma_foreign_function(s: State, stmt: Stmt, fuel: nat, n: Symbol, sp: Span)
    requires
        stmt is ExternFunction,
    ensures
        names::follows(
            s,
            s.foreign_function(stmt, fuel),
            n,
            sp,
            in_item(stmt, Word::Bound(n)),
            in_item(stmt, Word::Used(n, sp)),
        ),
{
    reveal(State::foreign_function);
    reveal(State::parameters);
    reveal(State::type_expr);
    if let Stmt::ExternFunction { name, params, return_type, span, attributes } = stmt {
        let (s0, def_id) = s.define();
        lemma_param_types(s0, params, fuel, n, sp);
        let (s1, ps) = s0.parameters(params, fuel);
        let rt = names::of(return_type);
        names::lemma_type(s1, rt, fuel, n, sp);
        let (s2, ret) = s1.type_expr(rt, fuel);
        let b = Rc::new(
            FunctionBinding {
                def_id,
                signature: FunctionSignature {
                    params: ps,
                    return_type: ret,
                    type_params: List::Nil,
                },
                is_comptime: false,
                is_async: false,
                is_pure: false,
                is_ieee_contracts: state::has_attribute(
                    attributes,
                    crate::symbol::IEEE_CONTRACTS,
                ),
                hints: state::hints(attributes),
                contracts: List::Nil,
                attributes,
            },
        );
        if name != n {
            names::lemma_with_function(s2, name, b, span, n);
        }
        assert(s.foreign_function(stmt, fuel) == s2.note(
            s2.symbols.with_function(name, b, span),
        ));
    }
}

// ---------------------------------------------------------------------------
// All the items
// ---------------------------------------------------------------------------

#[verifier::spinoff_prover]
#[verifier::rlimit(40)]
proof fn lemma_item(s: State, stmt: Stmt, fuel: nat, n: Symbol, sp: Span)
    ensures
        names::follows(
            s,
            s.item(stmt, fuel),
            n,
            sp,
            in_item(stmt, Word::Bound(n)),
            in_item(stmt, Word::Used(n, sp)),
        ),
{
    reveal(State::item);
    if stmt is FunctionDef {
        reveal(State::function_def);
        names::lemma_function(s, stmt, fuel, n, sp);
        assert(s.item(stmt, fuel) == s.function_def(stmt, fuel));
    } else if stmt is TypeDef {
        reveal(State::type_def);
        names::lemma_type_def(s, stmt, fuel, n, sp);
        assert(s.item(stmt, fuel) == s.type_def(stmt, fuel));
    } else if stmt is TraitDef {
        lemma_trait_def(s, stmt, fuel, n, sp);
        reveal(State::trait_def);
        assert(s.item(stmt, fuel) == s.trait_def(stmt, fuel));
    } else if stmt is ImplBlock {
        lemma_impl_block(s, stmt, fuel, n, sp);
        reveal(State::impl_block);
        assert(s.item(stmt, fuel) == s.impl_block(stmt, fuel));
    } else if stmt is Import {
        lemma_import(s, stmt, n, sp);
    } else if stmt is Constraint {
        lemma_constraint_def(s, stmt, fuel, n, sp);
        reveal(State::constraint_def);
        assert(s.item(stmt, fuel) == s.constraint_def(stmt, fuel));
    } else if stmt is ExternFunction {
        lemma_foreign_function(s, stmt, fuel, n, sp);
        reveal(State::foreign_function);
        assert(s.item(stmt, fuel) == s.foreign_function(stmt, fuel));
    }
}

proof fn lemma_items(s: State, list: List<Stmt>, fuel: nat, n: Symbol, sp: Span)
    ensures
        names::follows(
            s,
            s.items(list, fuel),
            n,
            sp,
            in_items(list, Word::Bound(n)),
            in_items(list, Word::Used(n, sp)),
        ),
    decreases list,
{
    reveal(State::items);
    if list is Cons {
        reveal(State::item);
        lemma_item(s, list.first(), fuel, n, sp);
        lemma_items(s.item(list.first(), fuel), list.rest(), fuel, n, sp);
        assert(s.items(list, fuel) == s.item(list.first(), fuel).items(list.rest(), fuel));
    }
}

/// Every name that is used in a program, in whatever expression of whatever statement, and
/// that neither the program nor what is in scope before it brings in, is reported where it
/// stands. An assignment uses the names of its target and those of its value.
pub proof fn law_undefined_names_are_reported(
    s: State,
    program: List<Stmt>,
    name: Symbol,
    span: Span,
)
    requires
        names::is_unknown(s, name),
        in_items(program, Word::Used(name, span)),
        !in_items(program, Word::Bound(name)),
    ensures
        Resolution::of(s.items(program, EXPANSIONS as nat)).diagnostics@.contains(
            Diagnostic { kind: DiagKind::UndefinedName(name), span: Some(span) },
        ),
{
    let after = s.items(program, EXPANSIONS as nat);
    lemma_items(s, program, EXPANSIONS as nat, name, span);
    names::lemma_listed(after.diagnostics, name, span);
}

/// What comes later in a program does not take back what was reported: a name that is used
/// before the items that bring it in is reported too.
pub proof fn law_names_are_not_known_early(
    s: State,
    first: List<Stmt>,
    later: List<Stmt>,
    name: Symbol,
    span: Span,
)
    requires
        names::is_unknown(s, name),
        in_items(first, Word::Used(name, span)),
        !in_items(first, Word::Bound(name)),
    ensures
        Resolution::of(
            s.items(laws::joined(first, later), EXPANSIONS as nat),
        ).diagnostics@.contains(
            Diagnostic { kind: DiagKind::UndefinedName(name), span: Some(span) },
        ),
{
    let fuel = EXPANSIONS as nat;
    laws::law_items_compose(s, first, later, fuel);
    lemma_items(s, first, fuel, name, span);
    let mid = s.items(first, fuel);
    lemma_items(mid, later, fuel, name, span);
    names::lemma_listed(mid.items(later, fuel).diagnostics, name, span);
}

// ---------------------------------------------------------------------------
// Items whose functions may refer to each other
// ---------------------------------------------------------------------------

/// The word occurs in one of the items, functions without their bodies.
spec fn in_heads(list: List<Stmt>, w: Word) -> bool
    decreases list,
{
    match list {
        List::Nil => false,
        List::Cons(link) => (match link.head {
            Stmt::FunctionDef { params, return_type, .. } => names::in_params(params, w)
                || names::in_optional_type(return_type, w),
            _ => in_item(link.head, w),
        }) || in_heads(link.tail, w),
    }
}

/// The word occurs in the body or the parameters of one of the functions.
spec fn in_bodies(list: List<Stmt>, w: Word) -> bool
    decreases list,
{
    match list {
        List::Nil => false,
        List::Cons(link) => (match link.head {
            Stmt::FunctionDef { params, body, .. } => names::in_params(params, w)
                || names::in_optional_stmts(body, w),
            _ => false,
        }) || in_bodies(link.tail, w),
    }
}

proof fn lemma_heads_and_bodies(list: List<Stmt>, n: Symbol, sp: Span)
    ensures
        in_items(list, Word::Used(n, sp)) ==> in_heads(list, Word::Used(n, sp)) || in_bodies(
            list,
            Word::Used(n, sp),
        ),
    decreases list,
{
    if list is Cons {
        lemma_heads_and_bodies(list.rest(), n, sp);
    }
}

#[verifier::spinoff_prover]
proof fn lemma_all_declared(s: State, list: List<Stmt>, fuel: nat, n: Symbol, sp: Span)
    ensures
        names::follows(
            s,
            s.all_declared(list, fuel),
            n,
            sp,
            in_items(list, Word::Bound(n)),
            in_heads(list, Word::Used(n, sp)),
        ),
    decreases list,
{
    reveal(State::all_declared);
    reveal(State::declared);
    if list is Cons {
        let h = list.first();
        let t = s.declared(h, fuel);
        if h is FunctionDef {
            names::lemma_head(s, h, fuel, n, sp);
        } else {
            lemma_item(s, h, fuel, n, sp);
        }
        lemma_all_declared(t, list.rest(), fuel, n, sp);
    }
}

#[verifier::spinoff_prover]
proof fn lemma_bodies_resolved(s: State, list: List<Stmt>, fuel: nat, n: Symbol, sp: Span)
    ensures
        names::follows(
            s,
            s.bodies_resolved(list, fuel),
            n,
            sp,
            in_items(list, Word::Bound(n)),
            in_bodies(list, Word::Used(n, sp)),
        ),
    decreases list,
{
    reveal(State::bodies_resolved);
    reveal(State::body_resolved);
    if list is Cons {
        let h = list.first();
        let t = s.body_resolved(h, fuel);
        if let Stmt::FunctionDef { type_params, .. } = h {
            let r = s.with_generics(type_params);
            names::lemma_generics(s, type_params, 0, List::Nil);
            names::lemma_body(r, h, fuel, n, sp);
        }
        lemma_bodies_resolved(t, list.rest(), fuel, n, sp);
    }
}

/// The same holds of items that are added to a program.
pub proof fn law_undefined_names_are_reported_in_additions(
    s: State,
    additions: List<Stmt>,
    name: Symbol,
    span: Span,
)
    requires
        names::is_unknown(s, name),
        in_items(additions, Word::Used(name, span)),
        !in_items(additions, Word::Bound(name)),
    ensures
        Resolution::of(s.batch(additions, EXPANSIONS as nat)).diagnostics@.contains(
            Diagnostic { kind: DiagKind::UndefinedName(name), span: Some(span) },
        ),
{
    let fuel = EXPANSIONS as nat;
    lemma_heads_and_bodies(additions, name, span);
    lemma_all_declared(s, additions, fuel, name, span);
    lemma_bodies_resolved(s.all_declared(additions, fuel), additions, fuel, name, span);
    names::lemma_listed(s.batch(additions, fuel).diagnostics, name, span);
}

// ---------------------------------------------------------------------------
// What is in scope where a statement stands
// ---------------------------------------------------------------------------

/// The branch, if there is one.
pub open spec fn branch(b: Option<List<Stmt>>) -> List<Stmt> {
    match b {
        Some(stmts) => stmts,
        None => List::Nil,
    }
}

/// The block is one of the statement, and is entered in the state: after the condition,
/// what is matched and the pattern, the invariant, the measure and the blocks before it.
pub open spec fn is_entered(s: State, stmt: Stmt, t: State, block: List<Stmt>, fuel: nat) -> bool {
    match stmt {
        Stmt::If { cond, then_branch, else_branch } => {
            let a = s.expr(*cond, fuel).0;
            ||| t == a && block == then_branch
            ||| t == a.block(then_branch, fuel) && Some(block) == else_branch
        },
        Stmt::IfLet { pattern, scrutinee, then_branch, else_branch } => {
            let a = s.expr(*scrutinee, fuel).0.pattern(*pattern, fuel);
            ||| t == a && block == then_branch
            ||| t == a.block(then_branch, fuel) && Some(block) == else_branch
        },
        Stmt::While { cond, body, loop_invariant, measure } => {
            &&& t == s.expr(*cond, fuel).0.optional_expr(loop_invariant, fuel).optional_expr(
                measure,
                fuel,
            )
            &&& block == body
        },
        Stmt::WhileLet { pattern, scrutinee, body, loop_invariant, measure } => {
            &&& t == s.expr(*scrutinee, fuel).0.pattern(*pattern, fuel).optional_expr(
                loop_invariant,
                fuel,
            ).optional_expr(measure, fuel)
            &&& block == body
        },
        Stmt::For { pattern, iterable, body, loop_invariant, measure } => {
            &&& t == s.expr(*iterable, fuel).0.pattern(*pattern, fuel).optional_expr(
                loop_invariant,
                fuel,
            ).optional_expr(measure, fuel)
            &&& block == body
        },
        Stmt::Loop { body } => t == s && block == body,
        Stmt::ComptimeBlock { body } => t == s && block == body,
        Stmt::ScopeCleanup { body } => t == s && block == body,
        Stmt::Unsafe { body } => t == s && block == body,
        Stmt::Isolate { body } => t == s && block == body,
        _ => false,
    }
}

/// The statement stands in the list, or in a block of it at most `depth` deep, and what is
/// in scope where it stands is what is in scope in `t`.
pub open spec fn stands_in(
    s: State,
    list: List<Stmt>,
    t: State,
    x: Stmt,
    fuel: nat,
    depth: nat,
) -> bool
    decreases depth, list,
{
    match list {
        List::Nil => false,
        List::Cons(link) => {
            ||| t == s && x == link.head
            ||| stands_in(s.stmt(link.head, fuel), link.tail, t, x, fuel, depth)
            ||| depth > 0 && exists|u: State, block: List<Stmt>| #[trigger]
                is_entered(s, link.head, u, block, fuel) && stands_in(
                    u.enter(),
                    block,
                    t,
                    x,
                    fuel,
                    (depth - 1) as nat,
                )
        },
    }
}

#[verifier::spinoff_prover]
#[verifier::rlimit(40)]
proof fn lemma_entered_stays(
    s: State,
    stmt: Stmt,
    t: State,
    block: List<Stmt>,
    fuel: nat,
    n: Symbol,
    sp: Span,
)
    requires
        is_entered(s, stmt, t, block, fuel),
        names::is_listed(t.enter().stmts(block, fuel).diagnostics, n, sp),
    ensures
        names::is_listed(s.stmt(stmt, fuel).diagnostics, n, sp),
{
    reveal(State::stmt);
    reveal(State::expr);
    reveal(State::block);
    reveal(State::stmts);
    reveal(State::pattern);
    reveal(State::optional_expr);
    reveal(State::optional_block);
    let done = t.block(block, fuel);
    assert(names::is_listed(done.diagnostics, n, sp));
    match stmt {
        Stmt::If { cond, then_branch, else_branch } => {
            let a = s.expr(names::of(cond), fuel).0;
            let b = a.block(then_branch, fuel);
            names::lemma_optional_block(b, else_branch, fuel, n, sp);
            assert(s.stmt(stmt, fuel) == b.optional_block(else_branch, fuel));
        },
        Stmt::IfLet { pattern, scrutinee, then_branch, else_branch } => {
            let a = s.expr(names::of(scrutinee), fuel).0.pattern(names::of(pattern), fuel);
            let b = a.block(then_branch, fuel);
            names::lemma_optional_block(b, else_branch, fuel, n, sp);
            assert(s.stmt(stmt, fuel) == b.optional_block(else_branch, fuel));
        },
        _ => {
            assert(s.stmt(stmt, fuel) == done);
        },
    }
}

proof fn lemma_stands(
    s: State,
    list: List<Stmt>,
    t: State,
    x: Stmt,
    fuel: nat,
    depth: nat,
    n: Symbol,
    sp: Span,
)
    requires
        stands_in(s, list, t, x, fuel, depth),
        names::is_listed(t.stmt(x, fuel).diagnostics, n, sp),
    ensures
        names::is_listed(s.stmts(list, fuel).diagnostics, n, sp),
    decreases depth, list,
{
    let h = list.first();
    let next = s.stmt(h, fuel);
    assert(s.stmts(list, fuel) == next.stmts(list.rest(), fuel)) by {
        reveal(State::stmts);
        reveal(State::stmt);
    }
    names::lemma_stmts(next, list.rest(), fuel, n, sp);
    if t == s && x == h {
    } else if stands_in(next, list.rest(), t, x, fuel, depth) {
        lemma_stands(next, list.rest(), t, x, fuel, depth, n, sp);
    } else {
        let (u, block) = choose|u: State, block: List<Stmt>| #[trigger]
            is_entered(s, h, u, block, fuel) && stands_in(
                u.enter(),
                block,
                t,
                x,
                fuel,
                (depth - 1) as nat,
            );
        lemma_stands(u.enter(), block, t, x, fuel, (depth - 1) as nat, n, sp);
        lemma_entered_stays(s, h, u, block, fuel, n, sp);
    }
}

/// The state in which the body of a function is resolved: its name and its parameters are
/// in scope.
pub open spec fn at_body(s: State, function: Stmt, fuel: nat) -> State {
    s.function_head(function, fuel).enter().bind_params(function->FunctionDef_params, fuel)
}

/// A name that a statement of the body of a function uses is reported where it stands if
/// nothing that is in scope there has the name, and the statement itself does not bring it
/// in: whatever is brought in elsewhere, in other blocks or later.
pub proof fn law_names_out_of_scope_are_reported(
    s: State,
    before: List<Stmt>,
    function: Stmt,
    later: List<Stmt>,
    t: State,
    x: Stmt,
    depth: nat,
    name: Symbol,
    span: Span,
)
    requires
        function is FunctionDef,
        stands_in(
            at_body(s.items(before, EXPANSIONS as nat), function, EXPANSIONS as nat),
            branch(function->FunctionDef_body),
            t,
            x,
            EXPANSIONS as nat,
            depth,
        ),
        names::is_unknown(t, name),
        names::in_stmt(x, Word::Used(name, span)),
        !names::in_stmt(x, Word::Bound(name)),
    ensures
        Resolution::of(
            s.items(laws::joined(before, later.cons(function)), EXPANSIONS as nat),
        ).diagnostics@.contains(
            Diagnostic { kind: DiagKind::UndefinedName(name), span: Some(span) },
        ),
{
    let fuel = EXPANSIONS as nat;
    let a = s.items(before, fuel);
    laws::law_items_compose(s, before, later.cons(function), fuel);
    names::lemma_stmt(t, x, fuel, name, span);
    let b = at_body(a, function, fuel);
    lemma_stands(b, branch(function->FunctionDef_body), t, x, fuel, depth, name, span);
    assert(function->FunctionDef_body is Some);
    let c = b.stmts(branch(function->FunctionDef_body), fuel);
    let d = a.item(function, fuel);
    assert(d.diagnostics == c.diagnostics) by {
        reveal(State::item);
        reveal(State::function_def);
        reveal(State::function_head);
        reveal(State::function_body);
        reveal(State::bind_params);
        reveal(State::stmts);
        assert(d == a.function_def(function, fuel));
        assert(d == a.function_head(function, fuel).function_body(function, fuel));
        assert(d == State { impl_params: None, ..c }.exit());
    }
    assert(a.items(later.cons(function), fuel) == d.items(later, fuel)) by {
        reveal(State::items);
        reveal(State::item);
        let l = later.cons(function);
        assert(l.first() == function && l.rest() == later);
    }
    lemma_items(d, later, fuel, name, span);
    names::lemma_listed(d.items(later, fuel).diagnostics, name, span);
}

} // verus!
