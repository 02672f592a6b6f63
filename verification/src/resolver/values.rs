//! What compound expressions and the parts of definitions are of.
use super::declared;
use super::names;
use super::state::State;
use super::table;
use super::table::{ConstraintPredicate, FieldBinding, FunctionSignature, TypeKind};
use crate::ast::{Expr, Param, Predicate, Stmt, TraitMethod, Type, VariantDef};
use crate::list::List;
use crate::symbol::Symbol;
use crate::types::{AdtKind, DefId, TypeData, TypeId, TY_ERROR, TY_UNIT};
use std::rc::Rc;
use vstd::prelude::*;

verus! {

proof fn lemma_cons<T>(list: List<T>)
    requires
        list is Cons,
    ensures
        list@ == seq![list.first()] + list.rest()@,
        list@.len() == list.rest()@.len() + 1,
        list@[0] == list.first(),
        forall|k: int| 0 < k < list@.len() ==> #[trigger] list@[k] == list.rest()@[k - 1],
{
}

/// The type, or the one that stands for an error.
pub open spec fn or_error(t: Option<TypeId>) -> TypeId {
    match t {
        Some(x) => x,
        None => TypeId(TY_ERROR),
    }
}

/// The state once the first `n` expressions have been resolved.
pub open spec fn after_exprs(s: State, es: Seq<Expr>, n: int, fuel: nat) -> State
    decreases n,
{
    if n <= 0 {
        s
    } else {
        after_exprs(s, es, n - 1, fuel).expr(es[n - 1], fuel).0
    }
}

proof fn lemma_after_exprs(s: State, list: List<Expr>, n: int, fuel: nat)
    requires
        list is Cons,
        0 < n <= list@.len(),
    ensures
        after_exprs(s, list@, n, fuel) == after_exprs(
            s.expr(list.first(), fuel).0,
            list.rest()@,
            n - 1,
            fuel,
        ),
    decreases n,
{
    lemma_cons(list);
    if n > 1 {
        lemma_after_exprs(s, list, n - 1, fuel);
    } else {
        assert(after_exprs(s, list@, 0, fuel) == s);
    }
}

proof fn lemma_expr_types(s: State, list: List<Expr>, fuel: nat)
    ensures
        s.expr_types(list, fuel).1@.len() == list@.len(),
        s.expr_types(list, fuel).0 == after_exprs(s, list@, list@.len() as int, fuel),
        forall|i: int|
            0 <= i < list@.len() ==> #[trigger] s.expr_types(list, fuel).1@[i] == or_error(
                after_exprs(s, list@, i, fuel).expr(list@[i], fuel).1,
            ),
    decreases list,
{
    reveal(State::expr_types);
    reveal(State::expr);
    if list is Cons {
        lemma_cons(list);
        let rest = list.rest();
        let (t, id) = s.expr(list.first(), fuel);
        lemma_expr_types(t, rest, fuel);
        let more = t.expr_types(rest, fuel).1;
        let r = s.expr_types(list, fuel).1;
        assert(r == more.cons(or_error(id)));
        lemma_cons(r);
        lemma_after_exprs(s, list, list@.len() as int, fuel);
        assert forall|i: int| 0 <= i < list@.len() implies #[trigger] s.expr_types(list, fuel).1@[i]
            == or_error(after_exprs(s, list@, i, fuel).expr(list@[i], fuel).1) by {
            if i > 0 {
                lemma_after_exprs(s, list, i, fuel);
                assert(list@[i] == rest@[i - 1]);
                assert(r@[i] == more@[i - 1]);
            } else {
                assert(after_exprs(s, list@, 0, fuel) == s);
            }
        }
    } else {
        assert(list@.len() == 0);
        assert(s.expr_types(list, fuel).1@.len() == 0);
    }
}

/// A tuple is of the types of its elements, in their order.
pub proof fn law_tuples_have_types(s: State, es: List<Expr>, fuel: nat) -> (elems: List<TypeId>)
    requires
        after_exprs(s, es@, es@.len() as int, fuel).ctx.types.len() < usize::MAX,
    ensures
        ({
            let (t, id) = s.expr(Expr::Tuple(es), fuel);
            id is Some && t.ctx.data(id->0) == Some(TypeData::Tuple { elems })
        }),
        elems@.len() == es@.len(),
        forall|i: int|
            0 <= i < es@.len() ==> #[trigger] elems@[i] == or_error(
                after_exprs(s, es@, i, fuel).expr(es@[i], fuel).1,
            ),
{
    reveal(State::expr);
    reveal(State::expr_types);
    lemma_expr_types(s, es, fuel);
    let (u, elems) = s.expr_types(es, fuel);
    let (w, x) = u.add_type(TypeData::Tuple { elems });
    assert(s.expr(Expr::Tuple(es), fuel) == (w, Some(x)));
    elems
}

proof fn lemma_first_type(s: State, list: List<Expr>, seen: Option<TypeId>, fuel: nat)
    ensures
        s.first_type(list, seen, fuel).0 == after_exprs(s, list@, list@.len() as int, fuel),
        seen is Some ==> s.first_type(list, seen, fuel).1 == seen,
        seen is None ==> forall|i: int|
            #![trigger list@[i]]
            0 <= i < list@.len() && after_exprs(s, list@, i, fuel).expr(list@[i], fuel).1 is Some
                && (forall|j: int|
                #![trigger list@[j]]
                0 <= j < i ==> after_exprs(s, list@, j, fuel).expr(list@[j], fuel).1 is None)
                ==> s.first_type(list, seen, fuel).1 == after_exprs(s, list@, i, fuel).expr(
                list@[i],
                fuel,
            ).1,
    decreases list,
{
    reveal(State::first_type);
    reveal(State::expr);
    if list is Cons {
        lemma_cons(list);
        let rest = list.rest();
        let (t, id) = s.expr(list.first(), fuel);
        let next = match seen {
            Some(x) => Some(x),
            None => id,
        };
        lemma_first_type(t, rest, next, fuel);
        lemma_after_exprs(s, list, list@.len() as int, fuel);
        assert(s.first_type(list, seen, fuel) == t.first_type(rest, next, fuel));
        assert(after_exprs(s, list@, 0, fuel) == s);
        if seen is None {
            assert forall|i: int|
                #![trigger list@[i]]
                0 <= i < list@.len() && after_exprs(s, list@, i, fuel).expr(
                    list@[i],
                    fuel,
                ).1 is Some && (forall|j: int|
                    #![trigger list@[j]]
                    0 <= j < i ==> after_exprs(s, list@, j, fuel).expr(list@[j], fuel).1 is None)
                implies s.first_type(list, seen, fuel).1 == after_exprs(s, list@, i, fuel).expr(
                list@[i],
                fuel,
            ).1 by {
                if i > 0 {
                    let z = list@[0];
                    assert(id is None);
                    lemma_after_exprs(s, list, i, fuel);
                    assert(rest@[i - 1] == list@[i]);
                    assert forall|j: int|
                        #![trigger rest@[j]]
                        0 <= j < i - 1 implies after_exprs(t, rest@, j, fuel).expr(
                        rest@[j],
                        fuel,
                    ).1 is None by {
                        assert(list@[j + 1] == rest@[j]);
                        lemma_after_exprs(s, list, j + 1, fuel);
                    }
                }
            }
        }
    } else {
        assert(list@.len() == 0);
    }
}

/// An array is as long as it has elements, and is of the first type that one of them has.
pub proof fn law_arrays_have_types(s: State, es: List<Expr>, i: int, fuel: nat)
    requires
        es@.len() <= usize::MAX,
        after_exprs(s, es@, es@.len() as int, fuel).ctx.types.len() < usize::MAX,
        0 <= i < es@.len(),
        after_exprs(s, es@, i, fuel).expr(es@[i], fuel).1 is Some,
        forall|j: int|
            #![trigger es@[j]]
            0 <= j < i ==> after_exprs(s, es@, j, fuel).expr(es@[j], fuel).1 is None,
    ensures
        ({
            let (t, id) = s.expr(Expr::Array(es), fuel);
            id is Some && t.ctx.data(id->0) == Some(
                TypeData::Array {
                    elem: after_exprs(s, es@, i, fuel).expr(es@[i], fuel).1->0,
                    size: es@.len() as u64,
                },
            )
        }),
{
    reveal(State::expr);
    reveal(State::first_type);
    lemma_first_type(s, es, None, fuel);
    let (u, first) = s.first_type(es, None, fuel);
    let x = es@[i];
    let elem = after_exprs(s, es@, i, fuel).expr(x, fuel).1;
    assert(first == elem);
    let d = TypeData::Array { elem: elem->0, size: super::state::counted(es) };
    let (w, y) = u.add_type(d);
    assert(s.expr(Expr::Array(es), fuel) == (w, Some(y)));
}

/// A literal of a struct is of the struct that its path names, one of an enum of the enum.
pub proof fn law_literals_of_types(s: State, d: DefId, kind: TypeKind)
    requires
        s.symbols.type_def(d) is Some,
        s.ctx.types.len() < usize::MAX,
    ensures
        ({
            let (t, id) = s.literal_of(Some(d), kind);
            let b = s.symbols.type_def(d)->0;
            &&& b.kind != kind ==> id is None && t == s
            &&& b.kind == kind && kind == TypeKind::Struct ==> id is Some && t.ctx.data(id->0)
                == Some(TypeData::Adt { kind: AdtKind::Struct, def_id: d, args: List::Nil })
            &&& b.kind == kind && kind == TypeKind::Enum ==> id is Some && t.ctx.data(id->0)
                == Some(TypeData::Adt { kind: AdtKind::Enum, def_id: d, args: List::Nil })
        }),
        s.literal_of(None, kind) == (s, None::<TypeId>),
{
}

/// A closure is a function of the types of its parameters, with the declared result or the
/// unit type; what its body brings in is gone after it.
pub proof fn law_closures_have_types(
    s: State,
    params: List<Param>,
    return_type: Option<Rc<Type>>,
    body: List<Stmt>,
    fuel: nat,
)
    requires
        ({
            let a = s.enter().bind_params(params, fuel).stmts(body, fuel).exit();
            let b = a.returned(return_type, fuel).0;
            b.param_types(params, fuel).0.ctx.types.len() < usize::MAX
        }),
    ensures
        ({
            let a = s.enter().bind_params(params, fuel).stmts(body, fuel).exit();
            let (b, ret) = a.returned(return_type, fuel);
            let (t, id) = s.expr(Expr::Closure { params, return_type, body }, fuel);
            id is Some && t.ctx.data(id->0) == Some(
                TypeData::Function { params: b.param_types(params, fuel).1, ret },
            )
        }),
{
    reveal(State::expr);
    reveal(State::bind_params);
    reveal(State::stmts);
    reveal(State::returned);
    reveal(State::param_types);
    let a = s.enter().bind_params(params, fuel).stmts(body, fuel).exit();
    let (b, ret) = a.returned(return_type, fuel);
    let (c, ps) = b.param_types(params, fuel);
    let (w, y) = c.add_type(TypeData::Function { params: ps, ret });
    assert(s.expr(Expr::Closure { params, return_type, body }, fuel) == (w, Some(y)));
}

/// The types of the parameters of a closure are the declared ones, in their order.
pub proof fn law_closure_parameters_have_types(s: State, list: List<Param>, fuel: nat)
    ensures
        s.param_types(list, fuel).1@.len() == list@.len(),
        s.param_types(list, fuel).0 == declared::after_params(
            s,
            list@,
            list@.len() as int,
            fuel,
        ),
        forall|i: int|
            0 <= i < list@.len() ==> #[trigger] s.param_types(list, fuel).1@[i]
                == declared::after_params(s, list@, i, fuel).optional_type(list@[i].ty, fuel).1,
    decreases list,
{
    reveal(State::param_types);
    reveal(State::optional_type);
    if list is Cons {
        lemma_cons(list);
        let rest = list.rest();
        let (t, ty) = s.optional_type(list.first().ty, fuel);
        law_closure_parameters_have_types(t, rest, fuel);
        let more = t.param_types(rest, fuel).1;
        let r = s.param_types(list, fuel).1;
        assert(r == more.cons(ty));
        lemma_cons(r);
        declared::lemma_after_params(s, list, list@.len() as int, fuel);
        assert forall|i: int| 0 <= i < list@.len() implies #[trigger] s.param_types(
            list,
            fuel,
        ).1@[i] == declared::after_params(s, list@, i, fuel).optional_type(list@[i].ty, fuel).1 by {
            if i > 0 {
                declared::lemma_after_params(s, list, i, fuel);
                assert(list@[i] == rest@[i - 1]);
                assert(r@[i] == more@[i - 1]);
            } else {
                assert(declared::after_params(s, list@, 0, fuel) == s);
            }
        }
    } else {
        assert(list@.len() == 0);
        assert(s.param_types(list, fuel).1@.len() == 0);
    }
}

// ---------------------------------------------------------------------------
// Parts of definitions
// ---------------------------------------------------------------------------

/// The first method of a trait is kept with its name and its types; the others follow.
pub proof fn law_trait_methods_are_kept(s: State, list: List<TraitMethod>, fuel: nat)
    requires
        list is Cons,
    ensures
        ({
            let m = list.first();
            let (t, params) = s.parameters(m.params, fuel);
            let (u, return_type) = t.type_expr(*m.return_type, fuel);
            let r = s.trait_methods(list, fuel);
            &&& r.1@.len() == list@.len()
            &&& r.1@[0].0 == m.name
            &&& r.1@[0].1 == (FunctionSignature { params, return_type, type_params: List::Nil })
            &&& r.0 == u.trait_methods(list.rest(), fuel).0
            &&& r.1.rest() == u.trait_methods(list.rest(), fuel).1
        }),
    decreases list,
{
    reveal(State::trait_methods);
    reveal(State::parameters);
    reveal(State::type_expr);
    let m = list.first();
    let (t, params) = s.parameters(m.params, fuel);
    let (u, return_type) = t.type_expr(names::of(m.return_type), fuel);
    let (v, rest) = u.trait_methods(list.rest(), fuel);
    let one = (m.name, FunctionSignature { params, return_type, type_params: List::Nil });
    let r = s.trait_methods(list, fuel);
    assert(r == (v, rest.cons(one)));
    lemma_cons(list);
    lemma_cons(r.1);
    if list.rest() is Cons {
        law_trait_methods_are_kept(u, list.rest(), fuel);
    } else {
        assert(list.rest()@.len() == 0);
        assert(rest is Nil);
        assert(rest@.len() == 0);
    }
}

/// The first predicate of a constraint is kept with its type and its bounds; the others
/// follow.
pub proof fn law_predicates_are_kept(s: State, list: List<Predicate>, fuel: nat)
    requires
        list is Cons,
    ensures
        ({
            let p = list.first();
            let (t, subject) = s.type_expr(*p.ty, fuel);
            let (u, bounds) = t.bounds(p.bounds, fuel);
            let r = s.predicates(list, fuel);
            &&& r.1@.len() == list@.len()
            &&& r.1@[0] == (ConstraintPredicate { subject, bounds })
            &&& r.0 == u.predicates(list.rest(), fuel).0
            &&& r.1.rest() == u.predicates(list.rest(), fuel).1
        }),
    decreases list,
{
    reveal(State::predicates);
    reveal(State::bounds);
    reveal(State::type_expr);
    let p = list.first();
    let (t, subject) = s.type_expr(names::of(p.ty), fuel);
    let (u, bounds) = t.bounds(p.bounds, fuel);
    let (v, rest) = u.predicates(list.rest(), fuel);
    let one = ConstraintPredicate { subject, bounds };
    let r = s.predicates(list, fuel);
    assert(r == (v, rest.cons(one)));
    lemma_cons(list);
    lemma_cons(r.1);
    if list.rest() is Cons {
        law_predicates_are_kept(u, list.rest(), fuel);
    } else {
        assert(list.rest()@.len() == 0);
        assert(rest is Nil);
        assert(rest@.len() == 0);
    }
}

/// A variant with a payload has a field of its name, of what the payload is resolved to; one
/// without has none. What is wrong in a payload is not reported with it.
pub proof fn law_payloads_are_kept(s: State, list: List<VariantDef>, fuel: nat)
    requires
        list is Cons,
    ensures
        ({
            let v = list.first();
            let r = s.payloads(list, fuel);
            match v.payload {
                Some(p) => {
                    let (t, ty) = s.type_expr(*p, fuel);
                    let u = State { diagnostics: s.diagnostics, ..t };
                    &&& r.0 == u.payloads(list.rest(), fuel).0
                    &&& r.1 is Cons && r.1.rest() == u.payloads(list.rest(), fuel).1
                    &&& r.1.first() == (FieldBinding {
                        name: v.name,
                        ty,
                        default: None,
                        span: v.span,
                    })
                },
                None => r == s.payloads(list.rest(), fuel),
            }
        }),
        s.payloads(list, fuel).0.diagnostics == s.diagnostics,
    decreases list,
{
    reveal(State::payloads);
    reveal(State::type_expr);
    let v = list.first();
    if let Some(p) = v.payload {
        let (t, ty) = s.type_expr(names::of(p), fuel);
        let u = State { diagnostics: s.diagnostics, ..t };
        let (w, rest) = u.payloads(list.rest(), fuel);
        let one = FieldBinding { name: v.name, ty, default: None, span: v.span };
        assert(s.payloads(list, fuel) == (w, rest.cons(one)));
        if list.rest() is Cons {
            law_payloads_are_kept(u, list.rest(), fuel);
        }
    } else {
        assert(s.payloads(list, fuel) == s.payloads(list.rest(), fuel));
        if list.rest() is Cons {
            law_payloads_are_kept(s, list.rest(), fuel);
        }
    }
}

} // verus!
