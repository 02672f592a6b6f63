//! What types and expressions are made of.
use super::names::of;
use super::syntax;
use super::table::SymbolTable;
use crate::ast::{Expr, GenericArg, Literal, Stmt, Type, TypeParam};
use crate::list::List;
use crate::symbol::{Span, Symbol};
use std::rc::Rc;
use vstd::prelude::*;

verus! {

/// A type or an expression.
pub enum Node {
    OfType(Type),
    OfExpr(Expr),
}

proof fn lemma_cons<T>(list: List<T>)
    requires
        list is Cons,
    ensures
        list@.len() == list.rest()@.len() + 1,
        list@[0] == list.first(),
        forall|k: int| 0 < k < list@.len() ==> #[trigger] list@[k] == list.rest()@[k - 1],
{
    assert(list@ == seq![list.first()] + list.rest()@);
}

proof fn lemma_nil<T>(list: List<T>)
    requires
        list is Nil,
    ensures
        list@.len() == 0,
{
}

// ---------------------------------------------------------------------------
// Type parameters
// ---------------------------------------------------------------------------

/// A name is a parameter iff it is in the list.
pub proof fn law_parameters_are_listed(params: List<TypeParam>, name: Symbol)
    ensures
        syntax::is_param(params, name) <==> exists|k: int|
            0 <= k < params@.len() && (#[trigger] params@[k]).name == name,
    decreases params,
{
    if params is Cons {
        lemma_cons(params);
        law_parameters_are_listed(params.rest(), name);
        let rest = params.rest()@;
        if exists|k: int| 0 <= k < rest.len() && (#[trigger] rest[k]).name == name {
            let k = choose|k: int| 0 <= k < rest.len() && (#[trigger] rest[k]).name == name;
            assert(params@[k + 1] == rest[k]);
        }
        if exists|k: int| 0 <= k < params@.len() && (#[trigger] params@[k]).name == name {
            let k = choose|k: int| 0 <= k < params@.len() && (#[trigger] params@[k]).name == name;
            if k > 0 {
                assert(rest[k - 1].name == name);
            }
        }
        assert(params@[0].name == params.first().name);
    } else {
        lemma_nil(params);
    }
}

/// A name is in the list iff it is one of its items.
pub proof fn law_names_are_listed(list: List<Symbol>, name: Symbol)
    ensures
        syntax::has_name(list, name) <==> list@.contains(name),
    decreases list,
{
    if list is Cons {
        law_names_are_listed(list.rest(), name);
        assert(list@ == seq![list.first()] + list.rest()@);
        crate::gather::lemma_in_both(seq![list.first()], list.rest()@, name);
        assert(seq![list.first()].contains(name) == (list.first() == name)) by {
            assert(seq![list.first()][0] == list.first());
        }
    } else {
        lemma_nil(list);
    }
}

/// The type argument is the type.
pub open spec fn is_argument(arg: GenericArg, t: Type) -> bool {
    match arg {
        GenericArg::Positional(x) => *x == t,
        GenericArg::Named(_, x) => *x == t,
        GenericArg::Const(_) => false,
    }
}

/// The statement evaluates the expression: it is it, or it is the value of a variable, or a
/// condition.
pub open spec fn is_evaluated(stmt: Stmt, e: Expr) -> bool {
    match stmt {
        Stmt::Expression(x) => *x == e,
        Stmt::VariableDef { value, .. } => value matches Some(v) && *v == e,
        Stmt::If { cond, .. } => *cond == e,
        _ => false,
    }
}

/// The second is a part of the first in which a type parameter can be referred to.
pub open spec fn is_part(x: Node, y: Node) -> bool {
    match (x, y) {
        (Node::OfType(t), Node::OfType(u)) => match t {
            Type::Generic(base, args, _) => *base == u || exists|k: int|
                0 <= k < args@.len() && is_argument(#[trigger] args@[k], u),
            Type::Tuple(elems, _) => elems@.contains(u),
            Type::Slice(elem, _) => *elem == u,
            Type::Array(elem, _, _) => *elem == u,
            Type::Reference { inner, .. } => *inner == u,
            Type::Pointer(inner, _) => *inner == u,
            Type::Function { params, ret, .. } => params@.contains(u) || *ret == u,
            Type::Projection { impl_type, trait_path, .. } => *impl_type == u || *trait_path == u,
            Type::DynTrait(bounds, _) => bounds@.contains(u),
            Type::Exists { base, .. } => *base == u,
            _ => false,
        },
        (Node::OfType(t), Node::OfExpr(e)) => match t {
            Type::Expr(x, _) => *x == e,
            _ => false,
        },
        (Node::OfExpr(e), Node::OfExpr(f)) => match e {
            Expr::TypeAnnotated { expr, .. } => *expr == f,
            Expr::UnaryOp { expr } => *expr == f,
            Expr::Cast { expr, .. } => *expr == f,
            Expr::BinaryOp { left, right } => *left == f || *right == f,
            Expr::Call { callee, args } => *callee == f || args@.contains(f),
            Expr::Index { base, index } => *base == f || *index == f,
            Expr::FieldAccess { base, .. } => *base == f,
            Expr::AttrAccess { base, .. } => *base == f,
            Expr::Range { start, end } => {
                ||| start matches Some(s) && *s == f
                ||| end matches Some(s) && *s == f
            },
            Expr::Tuple(elems) => elems@.contains(f),
            Expr::Array(elems) => elems@.contains(f),
            Expr::Block(stmts) => exists|k: int|
                0 <= k < stmts@.len() && is_evaluated(#[trigger] stmts@[k], f),
            _ => false,
        },
        _ => false,
    }
}

/// The name stands there by itself.
pub open spec fn is_mention(x: Node, name: Symbol) -> bool {
    match x {
        Node::OfType(t) => t matches Type::Path(path, _) && path@ == seq![name],
        Node::OfExpr(e) => e matches Expr::Ident(n, _) && n == name,
    }
}

/// The name stands in the type or expression, at most `depth` deep.
pub open spec fn mentions(x: Node, name: Symbol, depth: nat) -> bool
    decreases depth,
{
    ||| is_mention(x, name)
    ||| depth > 0 && exists|y: Node| #[trigger]
        is_part(x, y) && mentions(y, name, (depth - 1) as nat)
}

/// The first parameter that is found.
pub open spec fn found(x: Node, params: List<TypeParam>) -> Option<Symbol> {
    match x {
        Node::OfType(t) => syntax::param_in_type(t, params),
        Node::OfExpr(e) => syntax::param_in_expr(e, params),
    }
}

proof fn lemma_types_found(tys: List<Type>, k: int, params: List<TypeParam>)
    requires
        0 <= k < tys@.len(),
        syntax::param_in_type(tys@[k], params) is Some,
    ensures
        syntax::param_in_types(tys, params) is Some,
    decreases tys,
{
    if tys is Nil {
        lemma_nil(tys);
    }
    lemma_cons(tys);
    if k > 0 {
        lemma_types_found(tys.rest(), k - 1, params);
    }
}

proof fn lemma_exprs_found(es: List<Expr>, k: int, params: List<TypeParam>)
    requires
        0 <= k < es@.len(),
        syntax::param_in_expr(es@[k], params) is Some,
    ensures
        syntax::param_in_exprs(es, params) is Some,
    decreases es,
{
    if es is Nil {
        lemma_nil(es);
    }
    lemma_cons(es);
    if k > 0 {
        lemma_exprs_found(es.rest(), k - 1, params);
    }
}

proof fn lemma_args_found(args: List<GenericArg>, k: int, t: Type, params: List<TypeParam>)
    requires
        0 <= k < args@.len(),
        is_argument(args@[k], t),
        syntax::param_in_type(t, params) is Some,
    ensures
        syntax::param_in_args(args, params) is Some,
    decreases args,
{
    if args is Nil {
        lemma_nil(args);
    }
    lemma_cons(args);
    if k > 0 {
        lemma_args_found(args.rest(), k - 1, t, params);
    }
}

proof fn lemma_stmts_found(stmts: List<Stmt>, k: int, e: Expr, params: List<TypeParam>)
    requires
        0 <= k < stmts@.len(),
        is_evaluated(stmts@[k], e),
        syntax::param_in_expr(e, params) is Some,
    ensures
        syntax::param_in_stmts(stmts, params) is Some,
    decreases stmts,
{
    if stmts is Nil {
        lemma_nil(stmts);
    }
    lemma_cons(stmts);
    if k > 0 {
        lemma_stmts_found(stmts.rest(), k - 1, e, params);
    } else {
        assert(syntax::param_in_stmt(stmts.first(), params) == syntax::param_in_expr(e, params));
    }
}

#[verifier::spinoff_prover]
#[verifier::rlimit(40)]
proof fn lemma_part_found(x: Node, y: Node, params: List<TypeParam>)
    requires
        is_part(x, y),
        found(y, params) is Some,
    ensures
        found(x, params) is Some,
{
    match (x, y) {
        (Node::OfType(t), Node::OfType(u)) => match t {
            Type::Generic(base, args, _) => {
                assert(syntax::param_in_type(t, params) == syntax::or(
                    syntax::param_in_type(*base, params),
                    syntax::param_in_args(args, params),
                ));
                if of(base) != u {
                    let k = choose|k: int|
                        0 <= k < args@.len() && is_argument(#[trigger] args@[k], u);
                    lemma_args_found(args, k, u, params);
                }
            },
            Type::Tuple(elems, _) => {
                let k = choose|k: int| 0 <= k < elems@.len() && elems@[k] == u;
                lemma_types_found(elems, k, params);
            },
            Type::DynTrait(elems, _) => {
                let k = choose|k: int| 0 <= k < elems@.len() && elems@[k] == u;
                lemma_types_found(elems, k, params);
            },
            Type::Function { params: ps, ret, span } => {
                assert(syntax::param_in_type(t, params) == syntax::or(
                    syntax::param_in_types(ps, params),
                    syntax::param_in_type(*ret, params),
                ));
                if ps@.contains(u) {
                    let k = choose|k: int| 0 <= k < ps@.len() && ps@[k] == u;
                    lemma_types_found(ps, k, params);
                }
            },
            _ => {},
        },
        (Node::OfExpr(e), Node::OfExpr(f)) => match e {
            Expr::Call { callee, args } => {
                assert(syntax::param_in_expr(e, params) == syntax::or(
                    syntax::param_in_expr(*callee, params),
                    syntax::param_in_exprs(args, params),
                ));
                if of(callee) != f {
                    let k = choose|k: int| 0 <= k < args@.len() && args@[k] == f;
                    lemma_exprs_found(args, k, params);
                }
            },
            Expr::Tuple(elems) => {
                let k = choose|k: int| 0 <= k < elems@.len() && elems@[k] == f;
                lemma_exprs_found(elems, k, params);
            },
            Expr::Array(elems) => {
                let k = choose|k: int| 0 <= k < elems@.len() && elems@[k] == f;
                lemma_exprs_found(elems, k, params);
            },
            Expr::Block(stmts) => {
                let k = choose|k: int|
                    0 <= k < stmts@.len() && is_evaluated(#[trigger] stmts@[k], f);
                lemma_stmts_found(stmts, k, f, params);
            },
            _ => {},
        },
        _ => {},
    }
}

proof fn lemma_path(path: List<Symbol>, name: Symbol)
    requires
        path@ == seq![name],
    ensures
        syntax::single(path) == Some(name),
{
    if path is Nil {
        lemma_nil(path);
    }
    lemma_cons(path);
    if path.rest() is Cons {
        lemma_cons(path.rest());
    }
}

/// A reference to a type parameter is found wherever it stands.
pub proof fn law_parameters_are_found(x: Node, name: Symbol, depth: nat, params: List<TypeParam>)
    requires
        mentions(x, name, depth),
        syntax::is_param(params, name),
    ensures
        found(x, params) is Some,
    decreases depth,
{
    if is_mention(x, name) {
        if let Node::OfType(t) = x {
            if let Type::Path(path, _) = t {
                lemma_path(path, name);
            }
        }
    } else {
        let y = choose|y: Node| #[trigger]
            is_part(x, y) && mentions(y, name, (depth - 1) as nat);
        law_parameters_are_found(y, name, (depth - 1) as nat, params);
        lemma_part_found(x, y, params);
    }
}

// ---------------------------------------------------------------------------
// Renaming
// ---------------------------------------------------------------------------

/// The second expression is an operand of the first, at position `k`, in which names are
/// replaced.
pub open spec fn is_operand(e: Expr, k: int, f: Expr) -> bool {
    match e {
        Expr::TypeAnnotated { expr, .. } => k == 0 && *expr == f,
        Expr::UnaryOp { expr } => k == 0 && *expr == f,
        Expr::Cast { expr, .. } => k == 0 && *expr == f,
        Expr::Old(expr) => k == 0 && *expr == f,
        Expr::BinaryOp { left, right } => k == 0 && *left == f || k == 1 && *right == f,
        Expr::Call { callee, args } => k == -1 && *callee == f || 0 <= k < args@.len() && args@[k]
            == f,
        Expr::Index { base, index } => k == 0 && *base == f || k == 1 && *index == f,
        Expr::FieldAccess { base, .. } => k == 0 && *base == f,
        Expr::AttrAccess { base, .. } => k == 0 && *base == f,
        Expr::Tuple(elems) => 0 <= k < elems@.len() && elems@[k] == f,
        Expr::Array(elems) => 0 <= k < elems@.len() && elems@[k] == f,
        _ => false,
    }
}

/// The name stands at the position, found by going down from operand to operand.
pub open spec fn stands_at(e: Expr, way: Seq<int>, name: Symbol, span: Span) -> bool
    decreases way.len(),
{
    if way.len() == 0 {
        e == Expr::Ident(name, span)
    } else {
        exists|f: Expr| #[trigger]
            is_operand(e, way[0], f) && stands_at(f, way.skip(1), name, span)
    }
}

proof fn lemma_renamed_all(es: List<Expr>, from: Symbol, to: Symbol)
    ensures
        syntax::renamed_all(es, from, to)@.len() == es@.len(),
        forall|k: int|
            0 <= k < es@.len() ==> #[trigger] syntax::renamed_all(es, from, to)@[k]
                == syntax::renamed(es@[k], from, to),
    decreases es,
{
    if es is Cons {
        lemma_cons(es);
        lemma_renamed_all(es.rest(), from, to);
        let r = syntax::renamed_all(es, from, to);
        assert(r == syntax::renamed_all(es.rest(), from, to).cons(
            syntax::renamed(es.first(), from, to),
        ));
        lemma_cons(r);
        assert forall|k: int| 0 <= k < es@.len() implies #[trigger] r@[k] == syntax::renamed(
            es@[k],
            from,
            to,
        ) by {
            if k > 0 {
                assert(r@[k] == r.rest()@[k - 1]);
                assert(es@[k] == es.rest()@[k - 1]);
            }
        }
    } else {
        lemma_nil(es);
        lemma_nil(syntax::renamed_all(es, from, to));
    }
}

/// The operands of a renamed expression are the renamed operands.
#[verifier::spinoff_prover]
#[verifier::rlimit(40)]
proof fn lemma_renamed_operand(e: Expr, k: int, f: Expr, from: Symbol, to: Symbol)
    ensures
        is_operand(e, k, f) ==> is_operand(
            syntax::renamed(e, from, to),
            k,
            syntax::renamed(f, from, to),
        ),
{
    if is_operand(e, k, f) {
        match e {
            Expr::Call { callee, args } => {
                lemma_renamed_all(args, from, to);
            },
            Expr::Tuple(elems) => {
                lemma_renamed_all(elems, from, to);
            },
            Expr::Array(elems) => {
                lemma_renamed_all(elems, from, to);
            },
            _ => {},
        }
    }
}

/// Replacing a name replaces it wherever it stands, and leaves the other names and all
/// positions as they are.
pub proof fn law_names_are_replaced(
    e: Expr,
    way: Seq<int>,
    name: Symbol,
    span: Span,
    from: Symbol,
    to: Symbol,
)
    requires
        stands_at(e, way, name, span),
    ensures
        stands_at(
            syntax::renamed(e, from, to),
            way,
            if name == from {
                to
            } else {
                name
            },
            span,
        ),
    decreases way.len(),
{
    if way.len() > 0 {
        let f = choose|f: Expr| #[trigger]
            is_operand(e, way[0], f) && stands_at(f, way.skip(1), name, span);
        law_names_are_replaced(f, way.skip(1), name, span, from, to);
        lemma_renamed_operand(e, way[0], f, from, to);
        let g = syntax::renamed(f, from, to);
        assert(is_operand(syntax::renamed(e, from, to), way[0], g));
    }
}

// ---------------------------------------------------------------------------
// Types that differ
// ---------------------------------------------------------------------------

/// No type differs from itself.
pub proof fn law_no_type_differs_from_itself(t: Type, symbols: SymbolTable)
    ensures
        !syntax::types_differ(t, t, symbols),
    decreases t, 1nat,
{
    lemma_parts_same(t, symbols);
}

#[verifier::spinoff_prover]
proof fn lemma_parts_same(t: Type, symbols: SymbolTable)
    ensures
        !syntax::parts_differ(t, t, symbols),
    decreases t, 0nat,
{
    match t {
        Type::Generic(_, xs, _) => {
            lemma_args_same(xs, symbols);
        },
        Type::Reference { inner, mutable, lifetime, span } => {
            law_no_type_differs_from_itself(of(inner), symbols);
        },
        Type::Pointer(x, _) => {
            law_no_type_differs_from_itself(of(x), symbols);
        },
        Type::Slice(x, _) => {
            law_no_type_differs_from_itself(of(x), symbols);
        },
        Type::Array(x, n, _) => {
            law_no_type_differs_from_itself(of(x), symbols);
        },
        Type::Tuple(xs, _) => {
            lemma_lists_same(xs, symbols);
        },
        Type::Function { params, ret, span } => {
            lemma_lists_same(params, symbols);
            law_no_type_differs_from_itself(of(ret), symbols);
        },
        _ => {},
    }
}

proof fn lemma_lists_same(xs: List<Type>, symbols: SymbolTable)
    ensures
        !syntax::lists_differ(xs, xs, symbols),
    decreases xs, 0nat,
{
    if xs is Cons {
        law_no_type_differs_from_itself(xs.first(), symbols);
        lemma_lists_same(xs.rest(), symbols);
    }
}

#[verifier::spinoff_prover]
proof fn lemma_args_same(xs: List<GenericArg>, symbols: SymbolTable)
    ensures
        !syntax::args_differ(xs, xs, symbols),
    decreases xs, 0nat,
{
    if xs is Cons {
        let h = xs.first();
        match h {
            GenericArg::Positional(x) => {
                law_no_type_differs_from_itself(of(x), symbols);
            },
            GenericArg::Named(_, x) => {
                law_no_type_differs_from_itself(of(x), symbols);
            },
            GenericArg::Const(x) => {},
        }
        assert(!syntax::arg_differs(h, h, symbols));
        lemma_args_same(xs.rest(), symbols);
    }
}

/// Lists of types differ where they have different lengths, or types that differ at one
/// position; they do not otherwise.
pub proof fn law_lists_differ_somewhere(xs: List<Type>, ys: List<Type>, symbols: SymbolTable)
    ensures
        syntax::lists_differ(xs, ys, symbols) <==> xs@.len() != ys@.len() || exists|k: int|
            0 <= k < xs@.len() && syntax::types_differ(#[trigger] xs@[k], ys@[k], symbols),
    decreases xs,
{
    if xs is Cons && ys is Cons {
        lemma_cons(xs);
        lemma_cons(ys);
        law_lists_differ_somewhere(xs.rest(), ys.rest(), symbols);
        let (a, b) = (xs.rest()@, ys.rest()@);
        assert(syntax::lists_differ(xs, ys, symbols) == (syntax::types_differ(
            xs.first(),
            ys.first(),
            symbols,
        ) || syntax::lists_differ(xs.rest(), ys.rest(), symbols)));
        if exists|k: int|
            0 <= k < a.len() && syntax::types_differ(#[trigger] a[k], b[k], symbols) {
            let k = choose|k: int|
                0 <= k < a.len() && syntax::types_differ(#[trigger] a[k], b[k], symbols);
            assert(xs@[k + 1] == a[k]);
            if a.len() == b.len() {
                assert(ys@[k + 1] == b[k]);
            }
        }
        if xs@.len() == ys@.len() && exists|k: int|
            0 <= k < xs@.len() && syntax::types_differ(#[trigger] xs@[k], ys@[k], symbols) {
            let k = choose|k: int|
                0 <= k < xs@.len() && syntax::types_differ(#[trigger] xs@[k], ys@[k], symbols);
            if k > 0 {
                assert(a[k - 1] == xs@[k] && b[k - 1] == ys@[k]);
            }
        }
        if syntax::types_differ(xs.first(), ys.first(), symbols) {
            assert(syntax::types_differ(xs@[0], ys@[0], symbols));
        }
    } else {
        if xs is Nil {
            lemma_nil(xs);
        } else {
            lemma_cons(xs);
        }
        if ys is Nil {
            lemma_nil(ys);
        } else {
            lemma_cons(ys);
        }
    }
}

/// Pointers, slices, references and arrays differ where what they are of does; references
/// also where one is mutable and the other is not, arrays where their sizes are different.
/// Types of different sorts differ.
#[verifier::spinoff_prover]
pub proof fn law_types_differ_in_their_parts(
    x: Type,
    y: Type,
    span: Span,
    m: bool,
    n: bool,
    lifetime: Option<Symbol>,
    symbols: SymbolTable,
)
    ensures
        syntax::types_differ(
            Type::Pointer(Rc::new(x), span),
            Type::Pointer(Rc::new(y), span),
            symbols,
        ) == syntax::types_differ(x, y, symbols),
        syntax::types_differ(
            Type::Slice(Rc::new(x), span),
            Type::Slice(Rc::new(y), span),
            symbols,
        ) == syntax::types_differ(x, y, symbols),
        syntax::types_differ(
            (Type::Reference { inner: Rc::new(x), mutable: m, lifetime, span }),
            (Type::Reference { inner: Rc::new(y), mutable: n, lifetime, span }),
            symbols,
        ) == (m != n || syntax::types_differ(x, y, symbols)),
        syntax::types_differ(
            Type::Slice(Rc::new(x), span),
            Type::Pointer(Rc::new(y), span),
            symbols,
        ),
        syntax::types_differ(Type::Never(span), Type::Slice(Rc::new(y), span), symbols),
{
    reveal_with_fuel(syntax::types_differ, 2);
    reveal_with_fuel(syntax::parts_differ, 2);
}

/// The same of arrays, tuples and functions.
#[verifier::spinoff_prover]
pub proof fn law_lists_of_types_differ(
    x: Type,
    y: Type,
    span: Span,
    m: u128,
    n: u128,
    xs: List<Type>,
    ys: List<Type>,
    symbols: SymbolTable,
)
    ensures
        syntax::types_differ(
            Type::Array(Rc::new(x), Rc::new(Expr::Literal(Literal::Int(m), span)), span),
            Type::Array(Rc::new(y), Rc::new(Expr::Literal(Literal::Int(n), span)), span),
            symbols,
        ) == (m != n || syntax::types_differ(x, y, symbols)),
        syntax::types_differ(Type::Tuple(xs, span), Type::Tuple(ys, span), symbols)
            == syntax::lists_differ(xs, ys, symbols),
        syntax::types_differ(
            (Type::Function { params: xs, ret: Rc::new(x), span }),
            (Type::Function { params: ys, ret: Rc::new(y), span }),
            symbols,
        ) == (syntax::lists_differ(xs, ys, symbols) || syntax::types_differ(x, y, symbols)),
{
    reveal_with_fuel(syntax::types_differ, 2);
    reveal_with_fuel(syntax::parts_differ, 2);
    reveal_with_fuel(syntax::lists_differ, 2);
}

// ---------------------------------------------------------------------------
// Concrete types
// ---------------------------------------------------------------------------

/// The second type is one that the first is made of.
pub open spec fn is_component(t: Type, u: Type) -> bool {
    match t {
        Type::Generic(base, args, _) => *base == u || exists|k: int|
            0 <= k < args@.len() && is_argument(#[trigger] args@[k], u),
        Type::Reference { inner, .. } => *inner == u,
        Type::Pointer(x, _) => *x == u,
        Type::Slice(x, _) => *x == u,
        Type::Array(x, _, _) => *x == u,
        Type::Tuple(xs, _) => xs@.contains(u),
        Type::Function { params, ret, .. } => params@.contains(u) || *ret == u,
        Type::Union(xs, _) => xs@.contains(u),
        _ => false,
    }
}

proof fn lemma_all_concrete(tys: List<Type>, k: int, names: List<Symbol>, symbols: SymbolTable)
    requires
        0 <= k < tys@.len(),
        syntax::concrete_all(tys, names, symbols),
    ensures
        syntax::concrete(tys@[k], names, symbols),
    decreases tys,
{
    if tys is Nil {
        lemma_nil(tys);
    }
    lemma_cons(tys);
    if k > 0 {
        lemma_all_concrete(tys.rest(), k - 1, names, symbols);
    }
}

proof fn lemma_args_concrete(
    args: List<GenericArg>,
    k: int,
    t: Type,
    names: List<Symbol>,
    symbols: SymbolTable,
)
    requires
        0 <= k < args@.len(),
        is_argument(args@[k], t),
        syntax::concrete_args(args, names, symbols),
    ensures
        syntax::concrete(t, names, symbols),
    decreases args,
{
    if args is Nil {
        lemma_nil(args);
    }
    lemma_cons(args);
    if k > 0 {
        lemma_args_concrete(args.rest(), k - 1, t, names, symbols);
    }
}

#[verifier::spinoff_prover]
#[verifier::rlimit(40)]
proof fn lemma_component(t: Type, u: Type, names: List<Symbol>, symbols: SymbolTable)
    requires
        is_component(t, u),
        syntax::concrete(t, names, symbols),
    ensures
        syntax::concrete(u, names, symbols),
{
    match t {
        Type::Generic(base, args, _) => {
            assert(syntax::concrete(t, names, symbols) == (syntax::concrete(*base, names, symbols)
                && syntax::concrete_args(args, names, symbols)));
            if of(base) != u {
                let k = choose|k: int| 0 <= k < args@.len() && is_argument(#[trigger] args@[k], u);
                lemma_args_concrete(args, k, u, names, symbols);
            }
        },
        Type::Tuple(xs, _) => {
            let k = choose|k: int| 0 <= k < xs@.len() && xs@[k] == u;
            lemma_all_concrete(xs, k, names, symbols);
        },
        Type::Union(xs, _) => {
            let k = choose|k: int| 0 <= k < xs@.len() && xs@[k] == u;
            lemma_all_concrete(xs, k, names, symbols);
        },
        Type::Function { params, ret, span } => {
            assert(syntax::concrete(t, names, symbols) == (syntax::concrete_all(
                params,
                names,
                symbols,
            ) && syntax::concrete(*ret, names, symbols)));
            if params@.contains(u) {
                let k = choose|k: int| 0 <= k < params@.len() && params@[k] == u;
                lemma_all_concrete(params, k, names, symbols);
            }
        },
        _ => {},
    }
}

/// The name is the whole of a type that the type is made of, at most `depth` deep.
pub open spec fn is_made_of(t: Type, name: Symbol, depth: nat) -> bool
    decreases depth,
{
    ||| t matches Type::Path(path, _) && path@ == seq![name]
    ||| depth > 0 && exists|u: Type| #[trigger]
        is_component(t, u) && is_made_of(u, name, (depth - 1) as nat)
}

/// A type that is made of a variable, however deep, is not concrete.
pub proof fn law_concrete_types_name_no_variable(
    t: Type,
    name: Symbol,
    depth: nat,
    names: List<Symbol>,
    symbols: SymbolTable,
)
    requires
        is_made_of(t, name, depth),
        names@.contains(name),
    ensures
        !syntax::concrete(t, names, symbols),
    decreases depth,
{
    law_names_are_listed(names, name);
    if let Type::Path(path, _) = t {
        if path@ == seq![name] {
            lemma_path(path, name);
        }
    } else {
        let u = choose|u: Type| #[trigger]
            is_component(t, u) && is_made_of(u, name, (depth - 1) as nat);
        law_concrete_types_name_no_variable(u, name, (depth - 1) as nat, names, symbols);
        if syntax::concrete(t, names, symbols) {
            lemma_component(t, u, names, symbols);
        }
    }
}

} // verus!
