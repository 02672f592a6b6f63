//! Patterns, blocks, modifiers, type arguments, editions and layouts.
use super::diag::{DiagKind, Diagnostic};
use super::kinds::is_data;
use super::mentions;
use super::names;
use super::state;
use super::state::State;
use super::table;
use super::table::TypeKind;
use crate::ast::{
    Attribute, Expr, GenericArg, Pattern, Stmt, Type, TypeModifier, TypeParam, VariantDef,
};
use crate::list::List;
use crate::symbol::{Span, Symbol, DROP};
use crate::types;
use crate::types::{AdtKind, DefId, Edition, TypeData, TypeId, TY_ERROR};
use std::rc::Rc;
use vstd::prelude::*;

verus! {

proof fn lemma_cons<T>(list: List<T>)
    requires
        list is Cons,
    ensures
        list@ == seq![list.first()] + list.rest()@,
        list@.len() == list.rest()@.len() + 1,
        list@[0] == list.first(),
        forall|k: int| 0 < k < list@.len() ==> #[trigger] list@[k] == list.rest()@[k - 1],
        forall|k: int| 0 <= k < list.rest()@.len() ==> #[trigger] list.rest()@[k] == list@[k + 1],
{
}

// ---------------------------------------------------------------------------
// Patterns
// ---------------------------------------------------------------------------

/// The names that a pattern binds, from left to right, with their places.
pub open spec fn bound_names(p: Pattern) -> Seq<(Symbol, Span)>
    decreases p,
{
    match p {
        Pattern::Ident(name, span) => seq![(name, span)],
        Pattern::Tuple(ps) | Pattern::Or(ps) => all_bound_names(ps),
        Pattern::Struct { fields } => field_bound_names(fields),
        Pattern::Enum { inner: Some(x) } => bound_names(*x),
        Pattern::Slice(before, Some(x), after) => all_bound_names(before) + bound_names(*x)
            + all_bound_names(after),
        Pattern::Slice(before, None, after) => all_bound_names(before) + all_bound_names(after),
        _ => Seq::empty(),
    }
}

pub open spec fn all_bound_names(ps: List<Pattern>) -> Seq<(Symbol, Span)>
    decreases ps,
{
    match ps {
        List::Nil => Seq::empty(),
        List::Cons(link) => bound_names(link.head) + all_bound_names(link.tail),
    }
}

pub open spec fn field_bound_names(ps: List<(Symbol, Pattern)>) -> Seq<(Symbol, Span)>
    decreases ps,
{
    match ps {
        List::Nil => Seq::empty(),
        List::Cons(link) => bound_names(link.head.1) + field_bound_names(link.tail),
    }
}

/// No literal stands in the pattern.
pub open spec fn has_no_literal(p: Pattern) -> bool
    decreases p,
{
    match p {
        Pattern::Literal(_) => false,
        Pattern::Tuple(ps) | Pattern::Or(ps) => none_has_literal(ps),
        Pattern::Struct { fields } => no_field_has_literal(fields),
        Pattern::Enum { inner: Some(x) } => has_no_literal(*x),
        Pattern::Slice(before, Some(x), after) => none_has_literal(before) && has_no_literal(*x)
            && none_has_literal(after),
        Pattern::Slice(before, None, after) => none_has_literal(before) && none_has_literal(after),
        _ => true,
    }
}

pub open spec fn none_has_literal(ps: List<Pattern>) -> bool
    decreases ps,
{
    match ps {
        List::Nil => true,
        List::Cons(link) => has_no_literal(link.head) && none_has_literal(link.tail),
    }
}

pub open spec fn no_field_has_literal(ps: List<(Symbol, Pattern)>) -> bool
    decreases ps,
{
    match ps {
        List::Nil => true,
        List::Cons(link) => has_no_literal(link.head.1) && no_field_has_literal(link.tail),
    }
}

/// The state once the names are bound one after the other: they cannot be changed, and their
/// types are not known.
pub open spec fn after_binding(s: State, names: Seq<(Symbol, Span)>) -> State
    decreases names.len(),
{
    if names.len() == 0 {
        s
    } else {
        after_binding(s, names.drop_last()).bind(
            names.last().0,
            TypeId(TY_ERROR),
            false,
            names.last().1,
        )
    }
}

proof fn lemma_binding_composes(s: State, a: Seq<(Symbol, Span)>, b: Seq<(Symbol, Span)>)
    ensures
        after_binding(s, a + b) == after_binding(after_binding(s, a), b),
    decreases b.len(),
{
    if b.len() == 0 {
        assert(a + b == a);
    } else {
        lemma_binding_composes(s, a, b.drop_last());
        assert((a + b).drop_last() == a + b.drop_last());
        assert((a + b).last() == b.last());
    }
}

/// A pattern without literals binds the names that stand in it, from left to right, and does
/// nothing else.
pub proof fn law_patterns_bind_their_names(s: State, p: Pattern, fuel: nat)
    requires
        has_no_literal(p),
    ensures
        s.pattern(p, fuel) == after_binding(s, bound_names(p)),
    decreases p,
{
    reveal(State::pattern);
    reveal(State::patterns);
    reveal(State::field_patterns);
    reveal(State::optional_pattern);
    match p {
        Pattern::Ident(name, span) => {
            let one = seq![(name, span)];
            assert(one.drop_last() == Seq::<(Symbol, Span)>::empty());
            assert(after_binding(s, one.drop_last()) == s);
        },
        Pattern::Tuple(ps) => {
            lemma_patterns_bind(s, ps, fuel);
            assert(s.pattern(p, fuel) == s.patterns(ps, fuel));
            assert(bound_names(p) == all_bound_names(ps));
        },
        Pattern::Or(ps) => {
            lemma_patterns_bind(s, ps, fuel);
            assert(s.pattern(p, fuel) == s.patterns(ps, fuel));
            assert(bound_names(p) == all_bound_names(ps));
        },
        Pattern::Struct { fields } => {
            lemma_field_patterns_bind(s, fields, fuel);
            assert(s.pattern(p, fuel) == s.field_patterns(fields, fuel));
        },
        Pattern::Enum { inner } => {
            match inner {
                Some(x) => {
                    assert(s.optional_pattern(inner, fuel) == s.pattern(names::of(x), fuel));
                    law_patterns_bind_their_names(s, names::of(x), fuel);
                },
                None => {
                    assert(s.optional_pattern(inner, fuel) == s);
                },
            }
        },
        Pattern::Slice(before, slice, after) => {
            let t = s.patterns(before, fuel);
            assert(s.pattern(p, fuel) == t.optional_pattern(slice, fuel).patterns(after, fuel));
            lemma_patterns_bind(s, before, fuel);
            match slice {
                Some(x) => {
                    let u = t.pattern(names::of(x), fuel);
                    assert(t.optional_pattern(slice, fuel) == u);
                    law_patterns_bind_their_names(t, names::of(x), fuel);
                    lemma_patterns_bind(u, after, fuel);
                    lemma_binding_composes(s, all_bound_names(before), bound_names(names::of(x)));
                    lemma_binding_composes(
                        s,
                        all_bound_names(before) + bound_names(names::of(x)),
                        all_bound_names(after),
                    );
                },
                None => {
                    assert(t.optional_pattern(slice, fuel) == t);
                    lemma_patterns_bind(t, after, fuel);
                    lemma_binding_composes(s, all_bound_names(before), all_bound_names(after));
                },
            }
        },
        _ => {
            assert(s.pattern(p, fuel) == s);
            assert(bound_names(p) == Seq::<(Symbol, Span)>::empty());
            assert(after_binding(s, bound_names(p)) == s);
        },
    }
}

proof fn lemma_patterns_bind(s: State, ps: List<Pattern>, fuel: nat)
    requires
        none_has_literal(ps),
    ensures
        s.patterns(ps, fuel) == after_binding(s, all_bound_names(ps)),
    decreases ps,
{
    reveal(State::patterns);
    reveal(State::pattern);
    if ps is Cons {
        let t = s.pattern(ps.first(), fuel);
        law_patterns_bind_their_names(s, ps.first(), fuel);
        lemma_patterns_bind(t, ps.rest(), fuel);
        lemma_binding_composes(s, bound_names(ps.first()), all_bound_names(ps.rest()));
    }
}

proof fn lemma_field_patterns_bind(s: State, ps: List<(Symbol, Pattern)>, fuel: nat)
    requires
        no_field_has_literal(ps),
    ensures
        s.field_patterns(ps, fuel) == after_binding(s, field_bound_names(ps)),
    decreases ps,
{
    reveal(State::field_patterns);
    reveal(State::pattern);
    if ps is Cons {
        let t = s.pattern(ps.first().1, fuel);
        law_patterns_bind_their_names(s, ps.first().1, fuel);
        lemma_field_patterns_bind(t, ps.rest(), fuel);
        lemma_binding_composes(s, bound_names(ps.first().1), field_bound_names(ps.rest()));
    }
}

// ---------------------------------------------------------------------------
// Blocks
// ---------------------------------------------------------------------------

/// The value of a block is that of its last expression: an expression at the end decides, in
/// the state that the statements before it lead to, and any other statement leaves the value
/// as it was.
pub proof fn law_last_expressions_decide(
    s: State,
    stmts: List<Stmt>,
    last: Option<TypeId>,
    stmt: Stmt,
    fuel: nat,
)
    ensures
        ({
            let (t, before) = s.block_value(stmts, last, fuel);
            let now = s.block_value(stmts.snoc(stmt), last, fuel);
            match stmt {
                Stmt::Expression(e) => now == t.expr(*e, fuel),
                _ => now == (t.stmt(stmt, fuel), before),
            }
        }),
        stmts is Nil ==> s.block_value(stmts, last, fuel) == (s, last),
    decreases stmts,
{
    reveal(State::block_value);
    let all = stmts.snoc(stmt);
    if stmts is Cons {
        let h = stmts.first();
        let rest = stmts.rest();
        assert(all.first() == h);
        assert(all.rest() == rest.snoc(stmt));
        match h {
            Stmt::Expression(e) => {
                let (t, ty) = s.expr(names::of(e), fuel);
                law_last_expressions_decide(t, rest, ty, stmt, fuel);
                assert(s.block_value(stmts, last, fuel) == t.block_value(rest, ty, fuel));
                assert(s.block_value(all, last, fuel) == t.block_value(rest.snoc(stmt), ty, fuel));
            },
            _ => {
                let t = s.stmt(h, fuel);
                law_last_expressions_decide(t, rest, last, stmt, fuel);
                assert(s.block_value(stmts, last, fuel) == t.block_value(rest, last, fuel));
                assert(s.block_value(all, last, fuel) == t.block_value(rest.snoc(stmt), last, fuel));
            },
        }
    } else {
        let nil = List::<Stmt>::Nil;
        assert(all == nil.cons(stmt));
        assert(all.first() == stmt && all.rest() == nil);
        match stmt {
            Stmt::Expression(e) => {
                let (t, ty) = s.expr(names::of(e), fuel);
                assert(t.block_value(nil, ty, fuel) == (t, ty));
            },
            _ => {
                let t = s.stmt(stmt, fuel);
                assert(t.block_value(nil, last, fuel) == (t, last));
            },
        }
    }
}

// ---------------------------------------------------------------------------
// Modifiers
// ---------------------------------------------------------------------------

/// The last default among the modifiers counts; without one, there is none.
pub proof fn law_last_default_counts(mods: List<TypeModifier>, found: Option<Rc<Expr>>, i: int)
    requires
        0 <= i < mods@.len() ==> forall|j: int|
            i < j < mods@.len() ==> !((#[trigger] mods@[j]) is Default),
    ensures
        0 <= i < mods@.len() && mods@[i] is Default ==> state::last_default(mods, found) == Some(
            mods@[i]->Default_0,
        ),
        (forall|j: int| 0 <= j < mods@.len() ==> !((#[trigger] mods@[j]) is Default))
            ==> state::last_default(mods, found) == found,
    decreases mods,
{
    if mods is Cons {
        lemma_cons(mods);
        let rest = mods.rest();
        let next = match mods.first() {
            TypeModifier::Default(e) => Some(e),
            _ => found,
        };
        if 0 <= i < mods@.len() {
            assert forall|j: int| i - 1 < j < rest@.len() && 0 <= j implies !((
            #[trigger] rest@[j]) is Default) by {
                assert(rest@[j] == mods@[j + 1]);
            }
        }
        law_last_default_counts(rest, next, i - 1);
        if forall|j: int| 0 <= j < mods@.len() ==> !((#[trigger] mods@[j]) is Default) {
            assert(!(mods@[0] is Default));
            assert forall|j: int| 0 <= j < rest@.len() implies !((
            #[trigger] rest@[j]) is Default) by {
                assert(rest@[j] == mods@[j + 1]);
            }
        }
    }
}

/// A definition is without a default iff a modifier says so.
pub proof fn law_defaults_are_ruled_out(mods: List<TypeModifier>)
    ensures
        state::without_default(mods) <==> exists|j: int|
            0 <= j < mods@.len() && (#[trigger] mods@[j]) is NoDefault,
    decreases mods,
{
    if mods is Cons {
        lemma_cons(mods);
        let rest = mods.rest();
        law_defaults_are_ruled_out(rest);
        if state::without_default(mods) {
            if mods.first() is NoDefault {
                assert(mods@[0] is NoDefault);
            } else {
                let j = choose|j: int| 0 <= j < rest@.len() && (#[trigger] rest@[j]) is NoDefault;
                assert(mods@[j + 1] is NoDefault);
            }
        }
        if exists|j: int| 0 <= j < mods@.len() && (#[trigger] mods@[j]) is NoDefault {
            let j = choose|j: int| 0 <= j < mods@.len() && (#[trigger] mods@[j]) is NoDefault;
            if j > 0 {
                assert(rest@[j - 1] is NoDefault);
            }
        }
    }
}

/// The number of defaults among the modifiers.
pub open spec fn defaults(mods: Seq<TypeModifier>) -> nat
    decreases mods.len(),
{
    if mods.len() == 0 {
        0
    } else if mods[0] is Default {
        1 + defaults(mods.drop_first())
    } else {
        defaults(mods.drop_first())
    }
}

/// Each default where none is allowed is reported at the place of the definition, and nothing
/// else changes.
pub proof fn law_misplaced_defaults_are_reported(s: State, mods: List<TypeModifier>, span: Span)
    ensures
        ({
            let t = s.default_checks(mods, span);
            let n = defaults(mods@);
            let d = Diagnostic { kind: DiagKind::DefaultOnGeneric, span: Some(span) };
            &&& t.diagnostics@ == Seq::new(n, |i: int| d) + s.diagnostics@
            &&& t == (State { diagnostics: t.diagnostics, ..s })
        }),
    decreases mods,
{
    let d = Diagnostic { kind: DiagKind::DefaultOnGeneric, span: Some(span) };
    if mods is Cons {
        lemma_cons(mods);
        let rest = mods.rest();
        assert(mods@.drop_first() == rest@);
        if mods.first() is Default {
            let t = s.report(DiagKind::DefaultOnGeneric, Some(span));
            law_misplaced_defaults_are_reported(t, rest, span);
            assert(t.diagnostics.first() == d && t.diagnostics.rest() == s.diagnostics);
            lemma_cons(t.diagnostics);
            let n = defaults(rest@);
            assert(Seq::new(n, |i: int| d) + (seq![d] + s.diagnostics@) == Seq::new(
                n + 1,
                |i: int| d,
            ) + s.diagnostics@);
        } else {
            law_misplaced_defaults_are_reported(s, rest, span);
        }
    } else {
        assert(mods@.len() == 0);
        assert(Seq::new(0, |i: int| d) + s.diagnostics@ == s.diagnostics@);
    }
}

/// A variant is constrained iff one of its equations is on a parameter of the enum or on an
/// `exists` variable of its own.
pub proof fn law_constrained_variants(
    eqs: List<(Symbol, Rc<Type>)>,
    params: List<TypeParam>,
    exists_params: List<Symbol>,
)
    ensures
        state::constrained(eqs, params, exists_params) <==> exists|k: int|
            0 <= k < eqs@.len() && is_known_name((#[trigger] eqs@[k]).0, params, exists_params),
    decreases eqs,
{
    if eqs is Cons {
        lemma_cons(eqs);
        let rest = eqs.rest();
        law_constrained_variants(rest, params, exists_params);
        mentions::law_parameters_are_listed(params, eqs.first().0);
        mentions::law_names_are_listed(exists_params, eqs.first().0);
        if state::constrained(eqs, params, exists_params) {
            if is_known_name(eqs.first().0, params, exists_params) {
                assert(is_known_name(eqs@[0].0, params, exists_params));
            } else {
                let k = choose|k: int|
                    0 <= k < rest@.len() && is_known_name(
                        (#[trigger] rest@[k]).0,
                        params,
                        exists_params,
                    );
                assert(is_known_name(eqs@[k + 1].0, params, exists_params));
            }
        }
        if exists|k: int|
            0 <= k < eqs@.len() && is_known_name((#[trigger] eqs@[k]).0, params, exists_params) {
            let k = choose|k: int|
                0 <= k < eqs@.len() && is_known_name((#[trigger] eqs@[k]).0, params, exists_params);
            if k > 0 {
                assert(is_known_name(rest@[k - 1].0, params, exists_params));
            }
        }
    }
}

/// The name is that of a parameter or of an `exists` variable.
pub open spec fn is_known_name(
    name: Symbol,
    params: List<TypeParam>,
    exists_params: List<Symbol>,
) -> bool {
    ||| exists|k: int| 0 <= k < params@.len() && (#[trigger] params@[k]).name == name
    ||| exists_params@.contains(name)
}

/// An enum has a constrained variant iff one of its variants is constrained.
pub proof fn law_constrained_enums(variants: List<VariantDef>, params: List<TypeParam>)
    ensures
        state::any_constrained(variants, params) <==> exists|k: int|
            0 <= k < variants@.len() && state::constrained(
                (#[trigger] variants@[k]).eq_spec,
                params,
                variants@[k].exists_params,
            ),
    decreases variants,
{
    if variants is Cons {
        lemma_cons(variants);
        let rest = variants.rest();
        law_constrained_enums(rest, params);
        let h = variants.first();
        if state::any_constrained(variants, params) {
            if state::constrained(h.eq_spec, params, h.exists_params) {
                assert(state::constrained(variants@[0].eq_spec, params, variants@[0].exists_params));
            } else {
                let k = choose|k: int|
                    0 <= k < rest@.len() && state::constrained(
                        (#[trigger] rest@[k]).eq_spec,
                        params,
                        rest@[k].exists_params,
                    );
                assert(variants@[k + 1] == rest@[k]);
            }
        }
        if exists|k: int|
            0 <= k < variants@.len() && state::constrained(
                (#[trigger] variants@[k]).eq_spec,
                params,
                variants@[k].exists_params,
            ) {
            let k = choose|k: int|
                0 <= k < variants@.len() && state::constrained(
                    (#[trigger] variants@[k]).eq_spec,
                    params,
                    variants@[k].exists_params,
                );
            if k > 0 {
                assert(rest@[k - 1] == variants@[k]);
            }
        }
    }
}

// ---------------------------------------------------------------------------
// Type arguments
// ---------------------------------------------------------------------------

/// The state once the first `n` arguments are resolved.
pub open spec fn after_args(s: State, args: Seq<GenericArg>, n: int, fuel: nat) -> State
    decreases n,
{
    if n <= 0 {
        s
    } else {
        after_args(s, args, n - 1, fuel).arg_type(args[n - 1], fuel).0
    }
}

proof fn lemma_after_args(s: State, args: List<GenericArg>, n: int, fuel: nat)
    requires
        args is Cons,
        0 < n <= args@.len(),
    ensures
        after_args(s, args@, n, fuel) == after_args(
            s.arg_type(args.first(), fuel).0,
            args.rest()@,
            n - 1,
            fuel,
        ),
    decreases n,
{
    lemma_cons(args);
    if n > 1 {
        lemma_after_args(s, args, n - 1, fuel);
        assert(args@[n - 1] == args.rest()@[n - 2]);
    } else {
        assert(after_args(s, args@, 0, fuel) == s);
    }
}

/// Type arguments are resolved one after the other, each to one type.
pub proof fn law_arguments_are_resolved_in_order(s: State, args: List<GenericArg>, fuel: nat)
    ensures
        s.arg_types(args, fuel).1@.len() == args@.len(),
        s.arg_types(args, fuel).0 == after_args(s, args@, args@.len() as int, fuel),
        forall|i: int|
            0 <= i < args@.len() ==> #[trigger] s.arg_types(args, fuel).1@[i] == after_args(
                s,
                args@,
                i,
                fuel,
            ).arg_type(args@[i], fuel).1,
    decreases args,
{
    reveal(State::arg_types);
    reveal(State::arg_type);
    if args is Cons {
        lemma_cons(args);
        let (t, id) = s.arg_type(args.first(), fuel);
        let rest = args.rest();
        law_arguments_are_resolved_in_order(t, rest, fuel);
        let ids = t.arg_types(rest, fuel).1;
        let all = s.arg_types(args, fuel).1;
        assert(all == ids.cons(id));
        lemma_cons(all);
        lemma_after_args(s, args, args@.len() as int, fuel);
        assert forall|i: int| 0 <= i < args@.len() implies #[trigger] s.arg_types(args, fuel).1@[i]
            == after_args(s, args@, i, fuel).arg_type(args@[i], fuel).1 by {
            if i > 0 {
                lemma_after_args(s, args, i, fuel);
                assert(all@[i] == ids@[i - 1]);
            } else {
                assert(after_args(s, args@, 0, fuel) == s);
            }
        }
    }
}

/// A struct or an enum with type arguments is an instance of its definition with what the
/// arguments are resolved to. Arguments on anything else are reported where they stand.
pub proof fn law_instances_have_arguments(
    s: State,
    base: Type,
    args: List<GenericArg>,
    span: Span,
    fuel: nat,
)
    requires
        ({
            let (t, id) = s.type_expr(base, fuel);
            &&& t.ctx.def_of(id) is Some
            &&& t.symbols.type_def(t.ctx.def_of(id)->0) is Some
            &&& t.arg_types(args, fuel).0.ctx.types.len() < usize::MAX
        }),
    ensures
        ({
            let (t, id) = s.type_expr(base, fuel);
            let d = t.ctx.def_of(id)->0;
            let kind = t.symbols.type_def(d)->0.kind;
            let (u, ids) = t.arg_types(args, fuel);
            let r = s.applied(Type::Generic(Rc::new(base), args, span), fuel);
            &&& kind == TypeKind::Struct ==> is_data(
                r,
                TypeData::Adt { kind: AdtKind::Struct, def_id: d, args: ids },
            )
            &&& kind == TypeKind::Enum ==> is_data(
                r,
                TypeData::Adt { kind: AdtKind::Enum, def_id: d, args: ids },
            )
            &&& kind != TypeKind::Struct && kind != TypeKind::Enum ==> r.1 == TypeId(TY_ERROR)
                && r.0.diagnostics == u.diagnostics.cons(
                Diagnostic { kind: DiagKind::GenericOnNonGeneric, span: Some(span) },
            )
        }),
{
    reveal(State::applied);
    reveal(State::type_expr);
    reveal(State::arg_types);
}

// ---------------------------------------------------------------------------
// Editions and layouts
// ---------------------------------------------------------------------------

/// The edition of a program is the one that it names; one that there is not is reported where
/// it is named, and changes nothing else.
pub proof fn law_editions_are_named(s: State, version: Rc<String>, span: Span, fuel: nat)
    ensures
        ({
            let t = s.item(Stmt::Edition(version, span), fuel);
            let text = version@;
            &&& text == "2024"@ ==> t.ctx.edition == Some(Edition::E2024) && t.diagnostics
                == s.diagnostics
            &&& text == "2026"@ ==> t.ctx.edition == Some(Edition::E2026) && t.diagnostics
                == s.diagnostics
            &&& text != "2024"@ && text != "2026"@ ==> t == s.report(
                DiagKind::UnknownEdition(version),
                Some(span),
            )
            &&& t.symbols == s.symbols && t.layout_aliases == s.layout_aliases
        }),
{
    reveal(State::item);
    reveal_strlit("2024");
    reveal_strlit("2026");
    assert("2024"@[3] != "2026"@[3]);
}

/// A layout that is defined is found from then on, and the others stay; a second one of the
/// same name is reported, and changes nothing else.
pub proof fn law_layouts_are_defined(
    s: State,
    name: Symbol,
    attrs: List<Attribute>,
    other: Symbol,
    fuel: nat,
)
    ensures
        ({
            let t = s.item((Stmt::LayoutDef { name, attributes: attrs }), fuel);
            let known = exists|k: int|
                0 <= k < s.layout_aliases@.len() && (#[trigger] s.layout_aliases@[k]).0 == name;
            &&& !known ==> table::entry(t.layout_aliases, name) == Some(attrs) && t.diagnostics
                == s.diagnostics
            &&& known ==> t.layout_aliases == s.layout_aliases && t.diagnostics
                == s.diagnostics.cons(
                Diagnostic {
                    kind: DiagKind::DuplicateLayout(name),
                    span: Some(Span { start: 0, end: 0 }),
                },
            )
            &&& other != name ==> table::entry(t.layout_aliases, other) == table::entry(
                s.layout_aliases,
                other,
            )
            &&& t.symbols == s.symbols && t.ctx == s.ctx
        }),
{
    reveal(State::item);
    super::found::law_first_entry_counts(s.layout_aliases, name);
}

// ---------------------------------------------------------------------------
// Dropping
// ---------------------------------------------------------------------------

/// An impl of the trait for dropping marks the type that it is for: from then on that type has
/// a drop, and it keeps its fields. No other impl marks anything, and no other type changes.
pub proof fn law_drop_impls_mark_types(
    s: State,
    of_trait: Option<DefId>,
    ty: TypeId,
    other: DefId,
)
    ensures
        ({
            let t = s.mark_drop(of_trait, ty);
            let named = s.symbols.named_trait(Symbol(DROP));
            let is_drop = of_trait is Some && (s.builtin_drop == of_trait || (s.builtin_drop is None
                && named is Some && Some(named->0.def_id) == of_trait));
            let is_meant = is_drop && s.ctx.def_of(ty) == Some(other);
            &&& match types::find_adt(s.ctx.adts, other) {
                Some(def) => {
                    let now = types::find_adt(t.ctx.adts, other);
                    &&& now is Some
                    &&& now->0.fields == def.fields
                    &&& now->0.has_drop == (def.has_drop || is_meant)
                },
                None => types::find_adt(t.ctx.adts, other) is None,
            }
            &&& t.symbols == s.symbols
            &&& t.diagnostics == s.diagnostics
            &&& t.ctx.types == s.ctx.types
        }),
{
}

} // verus!
