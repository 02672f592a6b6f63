//! What the syntax alone says of types, expressions and attributes.
use super::table::{SymbolTable, TypeKind};
use crate::ast::{Expr, GenericArg, Literal, Stmt, Type, TypeParam};
use crate::list::List;
use crate::share;
use crate::share::share;
use crate::symbol::{
    Symbol, BOOL, BYTE, CHAR, FLOAT, INT, SELF_TYPE, SELF_VALUE, UINT, USIZE,
};
use crate::types::DefId;
use std::rc::Rc;
use vstd::prelude::*;

verus! {

// ---------------------------------------------------------------------------
// References to type parameters
// ---------------------------------------------------------------------------

/// The first of two answers.
pub open spec fn or(a: Option<Symbol>, b: Option<Symbol>) -> Option<Symbol> {
    match a {
        Some(x) => Some(x),
        None => b,
    }
}

/// The name is one of the parameters.
pub open spec fn is_param(params: List<TypeParam>, name: Symbol) -> bool
    decreases params,
{
    match params {
        List::Nil => false,
        List::Cons(link) => link.head.name == name || is_param(link.tail, name),
    }
}

/// The path is this name alone.
pub open spec fn single(path: List<Symbol>) -> Option<Symbol> {
    match path {
        List::Nil => None,
        List::Cons(link) => if link.tail is Nil {
            Some(link.head)
        } else {
            None
        },
    }
}

/// The name, if it is one of the parameters.
pub open spec fn if_param(params: List<TypeParam>, name: Option<Symbol>) -> Option<Symbol> {
    match name {
        Some(n) => if is_param(params, n) {
            Some(n)
        } else {
            None
        },
        None => None,
    }
}

/// The first type parameter that a type refers to.
pub open spec fn param_in_type(ty: Type, params: List<TypeParam>) -> Option<Symbol>
    decreases ty,
{
    match ty {
        Type::Path(path, _) => if_param(params, single(path)),
        Type::Generic(base, args, _) => or(
            param_in_type(*base, params),
            param_in_args(args, params),
        ),
        Type::Tuple(elems, _) => param_in_types(elems, params),
        Type::Slice(elem, _) => param_in_type(*elem, params),
        Type::Array(elem, _, _) => param_in_type(*elem, params),
        Type::Reference { inner, mutable, lifetime, span } => param_in_type(*inner, params),
        Type::Pointer(inner, _) => param_in_type(*inner, params),
        Type::Function { params: ps, ret, span } => or(
            param_in_types(ps, params),
            param_in_type(*ret, params),
        ),
        Type::Projection { impl_type, trait_path, assoc_name, span } => or(
            param_in_type(*impl_type, params),
            param_in_type(*trait_path, params),
        ),
        Type::DynTrait(bounds, _) => param_in_types(bounds, params),
        Type::Expr(e, _) => param_in_expr(*e, params),
        Type::Exists { name, base, condition, span } => param_in_type(*base, params),
        _ => None,
    }
}

pub open spec fn param_in_types(tys: List<Type>, params: List<TypeParam>) -> Option<Symbol>
    decreases tys,
{
    match tys {
        List::Nil => None,
        List::Cons(link) => or(
            param_in_type(link.head, params),
            param_in_types(link.tail, params),
        ),
    }
}

pub open spec fn param_in_args(args: List<GenericArg>, params: List<TypeParam>) -> Option<Symbol>
    decreases args,
{
    match args {
        List::Nil => None,
        List::Cons(link) => or(
            match link.head {
                GenericArg::Positional(t) => param_in_type(*t, params),
                GenericArg::Named(_, t) => param_in_type(*t, params),
                GenericArg::Const(_) => None,
            },
            param_in_args(link.tail, params),
        ),
    }
}

/// The first type parameter that an expression names.
pub open spec fn param_in_expr(e: Expr, params: List<TypeParam>) -> Option<Symbol>
    decreases e,
{
    match e {
        Expr::Ident(name, _) => if_param(params, Some(name)),
        Expr::TypeAnnotated { expr, ty } => param_in_expr(*expr, params),
        Expr::UnaryOp { expr } => param_in_expr(*expr, params),
        Expr::Cast { expr, ty } => param_in_expr(*expr, params),
        Expr::BinaryOp { left, right } => or(
            param_in_expr(*left, params),
            param_in_expr(*right, params),
        ),
        Expr::Call { callee, args } => or(
            param_in_expr(*callee, params),
            param_in_exprs(args, params),
        ),
        Expr::Index { base, index } => or(
            param_in_expr(*base, params),
            param_in_expr(*index, params),
        ),
        Expr::FieldAccess { base, field } => param_in_expr(*base, params),
        Expr::AttrAccess { base, attr } => param_in_expr(*base, params),
        Expr::Range { start, end } => or(
            match start {
                Some(s) => param_in_expr(*s, params),
                None => None,
            },
            match end {
                Some(x) => param_in_expr(*x, params),
                None => None,
            },
        ),
        Expr::Tuple(elems) => param_in_exprs(elems, params),
        Expr::Array(elems) => param_in_exprs(elems, params),
        Expr::Block(stmts) => param_in_stmts(stmts, params),
        _ => None,
    }
}

pub open spec fn param_in_exprs(es: List<Expr>, params: List<TypeParam>) -> Option<Symbol>
    decreases es,
{
    match es {
        List::Nil => None,
        List::Cons(link) => or(
            param_in_expr(link.head, params),
            param_in_exprs(link.tail, params),
        ),
    }
}

pub open spec fn param_in_stmts(stmts: List<Stmt>, params: List<TypeParam>) -> Option<Symbol>
    decreases stmts,
{
    match stmts {
        List::Nil => None,
        List::Cons(link) => or(
            param_in_stmt(link.head, params),
            param_in_stmts(link.tail, params),
        ),
    }
}

pub open spec fn param_in_stmt(stmt: Stmt, params: List<TypeParam>) -> Option<Symbol>
    decreases stmt,
{
    match stmt {
        Stmt::Expression(e) => param_in_expr(*e, params),
        Stmt::VariableDef {
            mutable,
            name,
            pattern,
            ty,
            value,
            else_branch,
            span,
            type_captures,
        } => match value {
            Some(v) => param_in_expr(*v, params),
            None => None,
        },
        Stmt::If { cond, then_branch, else_branch } => param_in_expr(*cond, params),
        _ => None,
    }
}

/// Whether the name is one of the parameters.
pub fn has_param(params: &List<TypeParam>, name: Symbol) -> (r: bool)
    ensures
        r == is_param(*params, name),
    decreases *params,
{
    match params {
        List::Nil => false,
        List::Cons(link) => link.head.name == name || has_param(&link.tail, name),
    }
}

/// The name that is the whole path.
pub fn single_name(path: &List<Symbol>) -> (r: Option<Symbol>)
    ensures
        r == single(*path),
{
    match path {
        List::Nil => None,
        List::Cons(link) => if link.tail.is_empty() {
            Some(link.head)
        } else {
            None
        },
    }
}

fn keep_param(params: &List<TypeParam>, name: Option<Symbol>) -> (r: Option<Symbol>)
    ensures
        r == if_param(*params, name),
{
    match name {
        Some(n) => if has_param(params, n) {
            Some(n)
        } else {
            None
        },
        None => None,
    }
}

/// The first type parameter that a type refers to.
pub fn find_param_ref_in_type(ty: &Type, params: &List<TypeParam>) -> (r: Option<Symbol>)
    ensures
        r == param_in_type(*ty, *params),
    decreases *ty,
{
    match ty {
        Type::Path(path, _) => keep_param(params, single_name(path)),
        Type::Generic(base, args, _) => match find_param_ref_in_type(base, params) {
            Some(x) => Some(x),
            None => find_param_ref_in_args(args, params),
        },
        Type::Tuple(elems, _) => find_param_ref_in_types(elems, params),
        Type::Slice(elem, _) => find_param_ref_in_type(elem, params),
        Type::Array(elem, _, _) => find_param_ref_in_type(elem, params),
        Type::Reference { inner, .. } => find_param_ref_in_type(inner, params),
        Type::Pointer(inner, _) => find_param_ref_in_type(inner, params),
        Type::Function { params: ps, ret, .. } => match find_param_ref_in_types(ps, params) {
            Some(x) => Some(x),
            None => find_param_ref_in_type(ret, params),
        },
        Type::Projection { impl_type, trait_path, .. } => match find_param_ref_in_type(
            impl_type,
            params,
        ) {
            Some(x) => Some(x),
            None => find_param_ref_in_type(trait_path, params),
        },
        Type::DynTrait(bounds, _) => find_param_ref_in_types(bounds, params),
        Type::Expr(e, _) => find_param_ref_in_expr(e, params),
        Type::Exists { base, .. } => find_param_ref_in_type(base, params),
        _ => None,
    }
}

fn find_param_ref_in_types(tys: &List<Type>, params: &List<TypeParam>) -> (r: Option<Symbol>)
    ensures
        r == param_in_types(*tys, *params),
    decreases *tys,
{
    match tys {
        List::Nil => None,
        List::Cons(link) => match find_param_ref_in_type(&link.head, params) {
            Some(x) => Some(x),
            None => find_param_ref_in_types(&link.tail, params),
        },
    }
}

fn find_param_ref_in_args(args: &List<GenericArg>, params: &List<TypeParam>) -> (r: Option<
    Symbol,
>)
    ensures
        r == param_in_args(*args, *params),
    decreases *args,
{
    match args {
        List::Nil => None,
        List::Cons(link) => {
            let first = match &link.head {
                GenericArg::Positional(t) => find_param_ref_in_type(t, params),
                GenericArg::Named(_, t) => find_param_ref_in_type(t, params),
                GenericArg::Const(_) => None,
            };
            match first {
                Some(x) => Some(x),
                None => find_param_ref_in_args(&link.tail, params),
            }
        },
    }
}

/// The first type parameter that an expression names.
pub fn find_param_ref_in_expr(e: &Expr, params: &List<TypeParam>) -> (r: Option<Symbol>)
    ensures
        r == param_in_expr(*e, *params),
    decreases *e,
{
    match e {
        Expr::Ident(name, _) => keep_param(params, Some(*name)),
        Expr::TypeAnnotated { expr, .. } => find_param_ref_in_expr(expr, params),
        Expr::UnaryOp { expr } => find_param_ref_in_expr(expr, params),
        Expr::Cast { expr, .. } => find_param_ref_in_expr(expr, params),
        Expr::BinaryOp { left, right } => match find_param_ref_in_expr(left, params) {
            Some(x) => Some(x),
            None => find_param_ref_in_expr(right, params),
        },
        Expr::Call { callee, args } => match find_param_ref_in_expr(callee, params) {
            Some(x) => Some(x),
            None => find_param_ref_in_exprs(args, params),
        },
        Expr::Index { base, index } => match find_param_ref_in_expr(base, params) {
            Some(x) => Some(x),
            None => find_param_ref_in_expr(index, params),
        },
        Expr::FieldAccess { base, .. } => find_param_ref_in_expr(base, params),
        Expr::AttrAccess { base, .. } => find_param_ref_in_expr(base, params),
        Expr::Range { start, end } => {
            let first = match start {
                Some(s) => find_param_ref_in_expr(s, params),
                None => None,
            };
            match first {
                Some(x) => Some(x),
                None => match end {
                    Some(x) => find_param_ref_in_expr(x, params),
                    None => None,
                },
            }
        },
        Expr::Tuple(elems) => find_param_ref_in_exprs(elems, params),
        Expr::Array(elems) => find_param_ref_in_exprs(elems, params),
        Expr::Block(stmts) => find_param_ref_in_stmts(stmts, params),
        _ => None,
    }
}

fn find_param_ref_in_exprs(es: &List<Expr>, params: &List<TypeParam>) -> (r: Option<Symbol>)
    ensures
        r == param_in_exprs(*es, *params),
    decreases *es,
{
    match es {
        List::Nil => None,
        List::Cons(link) => match find_param_ref_in_expr(&link.head, params) {
            Some(x) => Some(x),
            None => find_param_ref_in_exprs(&link.tail, params),
        },
    }
}

fn find_param_ref_in_stmts(stmts: &List<Stmt>, params: &List<TypeParam>) -> (r: Option<Symbol>)
    ensures
        r == param_in_stmts(*stmts, *params),
    decreases *stmts,
{
    match stmts {
        List::Nil => None,
        List::Cons(link) => match find_param_ref_in_stmt(&link.head, params) {
            Some(x) => Some(x),
            None => find_param_ref_in_stmts(&link.tail, params),
        },
    }
}

fn find_param_ref_in_stmt(stmt: &Stmt, params: &List<TypeParam>) -> (r: Option<Symbol>)
    ensures
        r == param_in_stmt(*stmt, *params),
    decreases *stmt,
{
    match stmt {
        Stmt::Expression(e) => find_param_ref_in_expr(e, params),
        Stmt::VariableDef { value, .. } => match value {
            Some(v) => find_param_ref_in_expr(v, params),
            None => None,
        },
        Stmt::If { cond, .. } => find_param_ref_in_expr(cond, params),
        _ => None,
    }
}

// ---------------------------------------------------------------------------
// Types that are known for certain
// ---------------------------------------------------------------------------

/// The list holds the name.
pub open spec fn has_name(list: List<Symbol>, name: Symbol) -> bool
    decreases list,
{
    match list {
        List::Nil => false,
        List::Cons(link) => link.head == name || has_name(link.tail, name),
    }
}

/// A constant without names.
pub open spec fn is_ground(e: Expr) -> bool
    decreases e,
{
    match e {
        Expr::Literal(_, _) => true,
        Expr::UnaryOp { expr } => is_ground(*expr),
        Expr::BinaryOp { left, right } => is_ground(*left) && is_ground(*right),
        _ => false,
    }
}

/// A type that is built in.
pub open spec fn is_builtin(name: Symbol) -> bool {
    name.0 == INT || name.0 == UINT || name.0 == FLOAT || name.0 == BOOL || name.0 == CHAR
        || name.0 == BYTE || name.0 == USIZE
}

/// The path names a type that is built in, or one that is no alias.
pub open spec fn concrete_path(
    path: List<Symbol>,
    exists_params: List<Symbol>,
    symbols: SymbolTable,
) -> bool {
    match single(path) {
        Some(n) => !has_name(exists_params, n) && (is_builtin(n) || names_no_alias(path, symbols)),
        None => names_no_alias(path, symbols),
    }
}

pub open spec fn names_no_alias(path: List<Symbol>, symbols: SymbolTable) -> bool {
    match symbols.type_by_path(path) {
        Some(d) => match symbols.type_def(d) {
            Some(b) => b.kind != TypeKind::Alias,
            None => false,
        },
        None => false,
    }
}

/// The type is known for certain: no witness of an `exists` and no alias
/// occurs in it.
pub open spec fn concrete(ty: Type, exists_params: List<Symbol>, symbols: SymbolTable) -> bool
    decreases ty,
{
    match ty {
        Type::Path(p, _) => concrete_path(p, exists_params, symbols),
        Type::Generic(base, args, _) => concrete(*base, exists_params, symbols) && concrete_args(
            args,
            exists_params,
            symbols,
        ),
        Type::Reference { inner, mutable, lifetime, span } => concrete(
            *inner,
            exists_params,
            symbols,
        ),
        Type::Pointer(t, _) => concrete(*t, exists_params, symbols),
        Type::Slice(t, _) => concrete(*t, exists_params, symbols),
        Type::Array(t, size, _) => concrete(*t, exists_params, symbols) && is_ground(*size),
        Type::Tuple(es, _) => concrete_all(es, exists_params, symbols),
        Type::Function { params, ret, span } => concrete_all(params, exists_params, symbols)
            && concrete(*ret, exists_params, symbols),
        Type::Union(es, _) => concrete_all(es, exists_params, symbols),
        Type::Never(_) => true,
        Type::Literal(_, _) => true,
        Type::Regex(_, _) => true,
        Type::Error(_) => true,
        _ => false,
    }
}

pub open spec fn concrete_all(
    tys: List<Type>,
    exists_params: List<Symbol>,
    symbols: SymbolTable,
) -> bool
    decreases tys,
{
    match tys {
        List::Nil => true,
        List::Cons(link) => concrete(link.head, exists_params, symbols) && concrete_all(
            link.tail,
            exists_params,
            symbols,
        ),
    }
}

pub open spec fn concrete_args(
    args: List<GenericArg>,
    exists_params: List<Symbol>,
    symbols: SymbolTable,
) -> bool
    decreases args,
{
    match args {
        List::Nil => true,
        List::Cons(link) => (match link.head {
            GenericArg::Positional(t) => concrete(*t, exists_params, symbols),
            GenericArg::Named(_, t) => concrete(*t, exists_params, symbols),
            GenericArg::Const(ac) => is_ground(*ac.value),
        }) && concrete_args(link.tail, exists_params, symbols),
    }
}

/// Whether the list holds the name.
pub fn list_has_name(list: &List<Symbol>, name: Symbol) -> (r: bool)
    ensures
        r == has_name(*list, name),
    decreases *list,
{
    match list {
        List::Nil => false,
        List::Cons(link) => link.head == name || list_has_name(&link.tail, name),
    }
}

/// Whether the expression is a constant without names.
pub fn const_expr_is_ground(e: &Expr) -> (r: bool)
    ensures
        r == is_ground(*e),
    decreases *e,
{
    match e {
        Expr::Literal(_, _) => true,
        Expr::UnaryOp { expr } => const_expr_is_ground(expr),
        Expr::BinaryOp { left, right } => const_expr_is_ground(left) && const_expr_is_ground(right),
        _ => false,
    }
}

fn path_names_no_alias(path: &List<Symbol>, symbols: &SymbolTable) -> (r: bool)
    ensures
        r == names_no_alias(*path, *symbols),
{
    match symbols.lookup_type_by_path(path) {
        Some(d) => match symbols.lookup_type_by_def_id(d) {
            Some(b) => b.kind != TypeKind::Alias,
            None => false,
        },
        None => false,
    }
}

fn is_builtin_name(n: Symbol) -> (r: bool)
    ensures
        r == is_builtin(n),
{
    n.0 == INT || n.0 == UINT || n.0 == FLOAT || n.0 == BOOL || n.0 == CHAR || n.0 == BYTE || n.0
        == USIZE
}

/// Whether the type is known for certain.
pub fn rhs_is_provably_concrete(
    ct: &Type,
    exists_params: &List<Symbol>,
    symbols: &SymbolTable,
) -> (r: bool)
    ensures
        r == concrete(*ct, *exists_params, *symbols),
    decreases *ct,
{
    match ct {
        Type::Path(p, _) => match single_name(p) {
            Some(n) => !list_has_name(exists_params, n) && (is_builtin_name(n)
                || path_names_no_alias(p, symbols)),
            None => path_names_no_alias(p, symbols),
        },
        Type::Generic(base, args, _) => rhs_is_provably_concrete(base, exists_params, symbols)
            && args_are_concrete(args, exists_params, symbols),
        Type::Reference { inner, .. } => rhs_is_provably_concrete(inner, exists_params, symbols),
        Type::Pointer(t, _) => rhs_is_provably_concrete(t, exists_params, symbols),
        Type::Slice(t, _) => rhs_is_provably_concrete(t, exists_params, symbols),
        Type::Array(t, size, _) => rhs_is_provably_concrete(t, exists_params, symbols)
            && const_expr_is_ground(size),
        Type::Tuple(es, _) => all_are_concrete(es, exists_params, symbols),
        Type::Function { params, ret, .. } => all_are_concrete(params, exists_params, symbols)
            && rhs_is_provably_concrete(ret, exists_params, symbols),
        Type::Union(es, _) => all_are_concrete(es, exists_params, symbols),
        Type::Never(_) => true,
        Type::Literal(_, _) => true,
        Type::Regex(_, _) => true,
        Type::Error(_) => true,
        _ => false,
    }
}

fn all_are_concrete(
    tys: &List<Type>,
    exists_params: &List<Symbol>,
    symbols: &SymbolTable,
) -> (r: bool)
    ensures
        r == concrete_all(*tys, *exists_params, *symbols),
    decreases *tys,
{
    match tys {
        List::Nil => true,
        List::Cons(link) => rhs_is_provably_concrete(&link.head, exists_params, symbols)
            && all_are_concrete(&link.tail, exists_params, symbols),
    }
}

fn args_are_concrete(
    args: &List<GenericArg>,
    exists_params: &List<Symbol>,
    symbols: &SymbolTable,
) -> (r: bool)
    ensures
        r == concrete_args(*args, *exists_params, *symbols),
    decreases *args,
{
    match args {
        List::Nil => true,
        List::Cons(link) => {
            let first = match &link.head {
                GenericArg::Positional(t) => rhs_is_provably_concrete(t, exists_params, symbols),
                GenericArg::Named(_, t) => rhs_is_provably_concrete(t, exists_params, symbols),
                GenericArg::Const(ac) => const_expr_is_ground(&ac.value),
            };
            first && args_are_concrete(&link.tail, exists_params, symbols)
        },
    }
}

// ---------------------------------------------------------------------------
// Types that differ for certain
// ---------------------------------------------------------------------------

/// What a type is at its top.
#[derive(Clone, Copy, Debug, PartialEq, Eq, Structural)]
pub enum CtorKey {
    Builtin(Symbol),
    Def(DefId),
    Ref(bool),
    Pointer,
    Slice,
    Array,
    Tuple,
    Function,
    Never,
}

/// What a type is at its top, where that is known.
pub open spec fn ctor(ty: Type, symbols: SymbolTable) -> Option<CtorKey>
    decreases ty,
{
    match ty {
        Type::Path(p, _) => match symbols.type_by_path(p) {
            Some(d) => Some(CtorKey::Def(d)),
            None => match single(p) {
                Some(n) => if is_builtin(n) {
                    Some(CtorKey::Builtin(n))
                } else {
                    None
                },
                None => None,
            },
        },
        Type::Generic(base, args, _) => ctor(*base, symbols),
        Type::Reference { inner, mutable, lifetime, span } => Some(CtorKey::Ref(mutable)),
        Type::Pointer(_, _) => Some(CtorKey::Pointer),
        Type::Slice(_, _) => Some(CtorKey::Slice),
        Type::Array(_, _, _) => Some(CtorKey::Array),
        Type::Tuple(_, _) => Some(CtorKey::Tuple),
        Type::Function { params, ret, span } => Some(CtorKey::Function),
        Type::Never(_) => Some(CtorKey::Never),
        _ => None,
    }
}

/// Two constants are literals of different values.
pub open spec fn consts_differ(a: Expr, b: Expr) -> bool {
    match (a, b) {
        (Expr::Literal(x, _), Expr::Literal(y, _)) => match (x, y) {
            (Literal::Int(m), Literal::Int(n)) => m != n,
            (Literal::Char(c), Literal::Char(d)) => c != d,
            (Literal::Bool(p), Literal::Bool(q)) => p != q,
            _ => false,
        },
        _ => false,
    }
}

/// The two types differ for certain.
pub open spec fn types_differ(a: Type, b: Type, symbols: SymbolTable) -> bool
    decreases a, 1nat,
{
    match (ctor(a, symbols), ctor(b, symbols)) {
        (Some(x), Some(y)) => x != y || parts_differ(a, b, symbols),
        _ => false,
    }
}

/// The two types differ for certain in what they are made of.
pub open spec fn parts_differ(a: Type, b: Type, symbols: SymbolTable) -> bool
    decreases a, 0nat,
{
    match (a, b) {
        (Type::Generic(_, xs, _), Type::Generic(_, ys, _)) => args_differ(xs, ys, symbols),
        (
            Type::Reference { inner: x, mutable: _, lifetime: _, span: _ },
            Type::Reference { inner: y, mutable: _, lifetime: _, span: _ },
        ) => types_differ(*x, *y, symbols),
        (Type::Pointer(x, _), Type::Pointer(y, _)) => types_differ(*x, *y, symbols),
        (Type::Slice(x, _), Type::Slice(y, _)) => types_differ(*x, *y, symbols),
        (Type::Array(x, m, _), Type::Array(y, n, _)) => types_differ(*x, *y, symbols)
            || consts_differ(*m, *n),
        (Type::Tuple(xs, _), Type::Tuple(ys, _)) => lists_differ(xs, ys, symbols),
        (
            Type::Function { params: xs, ret: x, span: _ },
            Type::Function { params: ys, ret: y, span: _ },
        ) => lists_differ(xs, ys, symbols) || types_differ(*x, *y, symbols),
        _ => false,
    }
}

pub open spec fn lists_differ(xs: List<Type>, ys: List<Type>, symbols: SymbolTable) -> bool
    decreases xs, 0nat,
{
    match (xs, ys) {
        (List::Nil, List::Nil) => false,
        (List::Cons(x), List::Cons(y)) => types_differ(x.head, y.head, symbols) || lists_differ(
            x.tail,
            y.tail,
            symbols,
        ),
        _ => true,
    }
}

pub open spec fn arg_differs(a: GenericArg, b: GenericArg, symbols: SymbolTable) -> bool
    decreases a, 0nat,
{
    match (a, b) {
        (GenericArg::Positional(x), GenericArg::Positional(y)) => types_differ(*x, *y, symbols),
        (GenericArg::Named(_, x), GenericArg::Named(_, y)) => types_differ(*x, *y, symbols),
        (GenericArg::Const(x), GenericArg::Const(y)) => consts_differ(*x.value, *y.value),
        _ => false,
    }
}

pub open spec fn args_differ(
    xs: List<GenericArg>,
    ys: List<GenericArg>,
    symbols: SymbolTable,
) -> bool
    decreases xs, 0nat,
{
    match (xs, ys) {
        (List::Nil, List::Nil) => false,
        (List::Cons(x), List::Cons(y)) => arg_differs(x.head, y.head, symbols) || args_differ(
            x.tail,
            y.tail,
            symbols,
        ),
        _ => true,
    }
}

/// What a type is at its top, where that is known.
pub fn concrete_ctor_key(ty: &Type, symbols: &SymbolTable) -> (r: Option<CtorKey>)
    ensures
        r == ctor(*ty, *symbols),
    decreases *ty,
{
    match ty {
        Type::Path(p, _) => match symbols.lookup_type_by_path(p) {
            Some(d) => Some(CtorKey::Def(d)),
            None => match single_name(p) {
                Some(n) => if is_builtin_name(n) {
                    Some(CtorKey::Builtin(n))
                } else {
                    None
                },
                None => None,
            },
        },
        Type::Generic(base, _, _) => concrete_ctor_key(base, symbols),
        Type::Reference { mutable, .. } => Some(CtorKey::Ref(*mutable)),
        Type::Pointer(_, _) => Some(CtorKey::Pointer),
        Type::Slice(_, _) => Some(CtorKey::Slice),
        Type::Array(_, _, _) => Some(CtorKey::Array),
        Type::Tuple(_, _) => Some(CtorKey::Tuple),
        Type::Function { .. } => Some(CtorKey::Function),
        Type::Never(_) => Some(CtorKey::Never),
        _ => None,
    }
}

fn const_values_differ(a: &Expr, b: &Expr) -> (r: bool)
    ensures
        r == consts_differ(*a, *b),
{
    match (a, b) {
        (Expr::Literal(x, _), Expr::Literal(y, _)) => match (x, y) {
            (Literal::Int(m), Literal::Int(n)) => *m != *n,
            (Literal::Char(c), Literal::Char(d)) => *c != *d,
            (Literal::Bool(p), Literal::Bool(q)) => *p != *q,
            _ => false,
        },
        _ => false,
    }
}

/// Whether the two types differ for certain.
pub fn types_are_different(a: &Type, b: &Type, symbols: &SymbolTable) -> (r: bool)
    ensures
        r == types_differ(*a, *b, *symbols),
    decreases *a, 1nat,
{
    match (concrete_ctor_key(a, symbols), concrete_ctor_key(b, symbols)) {
        (Some(x), Some(y)) => x != y || parts_are_different(a, b, symbols),
        _ => false,
    }
}

fn parts_are_different(a: &Type, b: &Type, symbols: &SymbolTable) -> (r: bool)
    ensures
        r == parts_differ(*a, *b, *symbols),
    decreases *a, 0nat,
{
    match (a, b) {
        (Type::Generic(_, xs, _), Type::Generic(_, ys, _)) => args_are_different(xs, ys, symbols),
        (Type::Reference { inner: x, .. }, Type::Reference { inner: y, .. }) => types_are_different(
            x,
            y,
            symbols,
        ),
        (Type::Pointer(x, _), Type::Pointer(y, _)) => types_are_different(x, y, symbols),
        (Type::Slice(x, _), Type::Slice(y, _)) => types_are_different(x, y, symbols),
        (Type::Array(x, m, _), Type::Array(y, n, _)) => types_are_different(x, y, symbols)
            || const_values_differ(m, n),
        (Type::Tuple(xs, _), Type::Tuple(ys, _)) => lists_are_different(xs, ys, symbols),
        (
            Type::Function { params: xs, ret: x, .. },
            Type::Function { params: ys, ret: y, .. },
        ) => lists_are_different(xs, ys, symbols) || types_are_different(x, y, symbols),
        _ => false,
    }
}

fn lists_are_different(xs: &List<Type>, ys: &List<Type>, symbols: &SymbolTable) -> (r: bool)
    ensures
        r == lists_differ(*xs, *ys, *symbols),
    decreases *xs, 0nat,
{
    match (xs, ys) {
        (List::Nil, List::Nil) => false,
        (List::Cons(x), List::Cons(y)) => types_are_different(&x.head, &y.head, symbols)
            || lists_are_different(&x.tail, &y.tail, symbols),
        _ => true,
    }
}

fn arg_is_different(a: &GenericArg, b: &GenericArg, symbols: &SymbolTable) -> (r: bool)
    ensures
        r == arg_differs(*a, *b, *symbols),
    decreases *a, 0nat,
{
    match (a, b) {
        (GenericArg::Positional(x), GenericArg::Positional(y)) => types_are_different(
            x,
            y,
            symbols,
        ),
        (GenericArg::Named(_, x), GenericArg::Named(_, y)) => types_are_different(x, y, symbols),
        (GenericArg::Const(x), GenericArg::Const(y)) => const_values_differ(&x.value, &y.value),
        _ => false,
    }
}

fn args_are_different(
    xs: &List<GenericArg>,
    ys: &List<GenericArg>,
    symbols: &SymbolTable,
) -> (r: bool)
    ensures
        r == args_differ(*xs, *ys, *symbols),
    decreases *xs, 0nat,
{
    match (xs, ys) {
        (List::Nil, List::Nil) => false,
        (List::Cons(x), List::Cons(y)) => arg_is_different(&x.head, &y.head, symbols)
            || args_are_different(&x.tail, &y.tail, symbols),
        _ => true,
    }
}

// ---------------------------------------------------------------------------
// Replacing names
// ---------------------------------------------------------------------------

/// The expression with one name in place of another, wherever an operand
/// names it.
pub open spec fn renamed(e: Expr, from: Symbol, to: Symbol) -> Expr
    decreases e,
{
    match e {
        Expr::Ident(name, span) => if name == from {
            Expr::Ident(to, span)
        } else {
            e
        },
        Expr::TypeAnnotated { expr, ty } => Expr::TypeAnnotated {
            expr: Rc::new(renamed(*expr, from, to)),
            ty,
        },
        Expr::BinaryOp { left, right } => Expr::BinaryOp {
            left: Rc::new(renamed(*left, from, to)),
            right: Rc::new(renamed(*right, from, to)),
        },
        Expr::UnaryOp { expr } => Expr::UnaryOp { expr: Rc::new(renamed(*expr, from, to)) },
        Expr::Call { callee, args } => Expr::Call {
            callee: Rc::new(renamed(*callee, from, to)),
            args: renamed_all(args, from, to),
        },
        Expr::Index { base, index } => Expr::Index {
            base: Rc::new(renamed(*base, from, to)),
            index: Rc::new(renamed(*index, from, to)),
        },
        Expr::FieldAccess { base, field } => Expr::FieldAccess {
            base: Rc::new(renamed(*base, from, to)),
            field,
        },
        Expr::AttrAccess { base, attr } => Expr::AttrAccess {
            base: Rc::new(renamed(*base, from, to)),
            attr,
        },
        Expr::Cast { expr, ty } => Expr::Cast { expr: Rc::new(renamed(*expr, from, to)), ty },
        Expr::Tuple(es) => Expr::Tuple(renamed_all(es, from, to)),
        Expr::Array(es) => Expr::Array(renamed_all(es, from, to)),
        Expr::Old(expr) => Expr::Old(Rc::new(renamed(*expr, from, to))),
        _ => e,
    }
}

pub open spec fn renamed_all(es: List<Expr>, from: Symbol, to: Symbol) -> List<Expr>
    decreases es,
{
    match es {
        List::Nil => List::Nil,
        List::Cons(link) => renamed_all(link.tail, from, to).cons(renamed(link.head, from, to)),
    }
}

/// The expression with one name in place of another.
pub fn replace_ident_in_expr(e: &Expr, from: Symbol, to: Symbol) -> (r: Expr)
    ensures
        r == renamed(*e, from, to),
    decreases *e,
{
    match e {
        Expr::Ident(name, span) => if *name == from {
            Expr::Ident(to, *span)
        } else {
            e.clone()
        },
        Expr::TypeAnnotated { expr, ty } => Expr::TypeAnnotated {
            expr: Rc::new(replace_ident_in_expr(expr, from, to)),
            ty: share(ty),
        },
        Expr::BinaryOp { left, right } => Expr::BinaryOp {
            left: Rc::new(replace_ident_in_expr(left, from, to)),
            right: Rc::new(replace_ident_in_expr(right, from, to)),
        },
        Expr::UnaryOp { expr } => Expr::UnaryOp {
            expr: Rc::new(replace_ident_in_expr(expr, from, to)),
        },
        Expr::Call { callee, args } => Expr::Call {
            callee: Rc::new(replace_ident_in_expr(callee, from, to)),
            args: replace_ident_in_exprs(args, from, to),
        },
        Expr::Index { base, index } => Expr::Index {
            base: Rc::new(replace_ident_in_expr(base, from, to)),
            index: Rc::new(replace_ident_in_expr(index, from, to)),
        },
        Expr::FieldAccess { base, field } => Expr::FieldAccess {
            base: Rc::new(replace_ident_in_expr(base, from, to)),
            field: *field,
        },
        Expr::AttrAccess { base, attr } => Expr::AttrAccess {
            base: Rc::new(replace_ident_in_expr(base, from, to)),
            attr: *attr,
        },
        Expr::Cast { expr, ty } => Expr::Cast {
            expr: Rc::new(replace_ident_in_expr(expr, from, to)),
            ty: share(ty),
        },
        Expr::Tuple(es) => Expr::Tuple(replace_ident_in_exprs(es, from, to)),
        Expr::Array(es) => Expr::Array(replace_ident_in_exprs(es, from, to)),
        Expr::Old(expr) => Expr::Old(Rc::new(replace_ident_in_expr(expr, from, to))),
        _ => e.clone(),
    }
}

fn replace_ident_in_exprs(es: &List<Expr>, from: Symbol, to: Symbol) -> (r: List<Expr>)
    ensures
        r == renamed_all(*es, from, to),
    decreases *es,
{
    match es {
        List::Nil => List::Nil,
        List::Cons(link) => {
            let head = replace_ident_in_expr(&link.head, from, to);
            replace_ident_in_exprs(&link.tail, from, to).push(head)
        },
    }
}

/// The path is `Self` or `self`.
pub open spec fn is_self(path: List<Symbol>) -> bool {
    match single(path) {
        Some(n) => n.0 == SELF_TYPE || n.0 == SELF_VALUE,
        None => false,
    }
}

/// The type with another one in place of `Self`.
pub open spec fn with_self(ty: Type, self_ty: Type) -> Type
    decreases ty,
{
    match ty {
        Type::Path(p, _) => if is_self(p) {
            self_ty
        } else {
            ty
        },
        Type::Reference { inner, mutable, lifetime, span } => Type::Reference {
            inner: Rc::new(with_self(*inner, self_ty)),
            mutable,
            lifetime,
            span,
        },
        Type::Pointer(inner, s) => Type::Pointer(Rc::new(with_self(*inner, self_ty)), s),
        Type::Generic(base, args, s) => Type::Generic(
            Rc::new(with_self(*base, self_ty)),
            args_with_self(args, self_ty),
            s,
        ),
        Type::Tuple(tys, s) => Type::Tuple(all_with_self(tys, self_ty), s),
        Type::Slice(inner, s) => Type::Slice(Rc::new(with_self(*inner, self_ty)), s),
        Type::Array(inner, size, s) => Type::Array(Rc::new(with_self(*inner, self_ty)), size, s),
        Type::DynTrait(tys, s) => Type::DynTrait(all_with_self(tys, self_ty), s),
        Type::Function { params, ret, span } => Type::Function {
            params: all_with_self(params, self_ty),
            ret: Rc::new(with_self(*ret, self_ty)),
            span,
        },
        Type::Projection { impl_type, trait_path, assoc_name, span } => Type::Projection {
            impl_type: Rc::new(with_self(*impl_type, self_ty)),
            trait_path: Rc::new(with_self(*trait_path, self_ty)),
            assoc_name,
            span,
        },
        _ => ty,
    }
}

pub open spec fn all_with_self(tys: List<Type>, self_ty: Type) -> List<Type>
    decreases tys,
{
    match tys {
        List::Nil => List::Nil,
        List::Cons(link) => all_with_self(link.tail, self_ty).cons(
            with_self(link.head, self_ty),
        ),
    }
}

pub open spec fn args_with_self(args: List<GenericArg>, self_ty: Type) -> List<GenericArg>
    decreases args,
{
    match args {
        List::Nil => List::Nil,
        List::Cons(link) => args_with_self(link.tail, self_ty).cons(
            match link.head {
                GenericArg::Positional(t) => GenericArg::Positional(
                    Rc::new(with_self(*t, self_ty)),
                ),
                GenericArg::Named(n, t) => GenericArg::Named(n, Rc::new(with_self(*t, self_ty))),
                GenericArg::Const(ac) => GenericArg::Const(ac),
            },
        ),
    }
}

/// The type with another one in place of `Self`.
pub fn resolve_self_in_type(ty: &Type, self_ty: &Type) -> (r: Type)
    ensures
        r == with_self(*ty, *self_ty),
    decreases *ty,
{
    match ty {
        Type::Path(p, _) => {
            let hit = match single_name(p) {
                Some(n) => n.0 == SELF_TYPE || n.0 == SELF_VALUE,
                None => false,
            };
            if hit {
                self_ty.clone()
            } else {
                ty.clone()
            }
        },
        Type::Reference { inner, mutable, lifetime, span } => Type::Reference {
            inner: Rc::new(resolve_self_in_type(inner, self_ty)),
            mutable: *mutable,
            lifetime: *lifetime,
            span: *span,
        },
        Type::Pointer(inner, s) => Type::Pointer(
            Rc::new(resolve_self_in_type(inner, self_ty)),
            *s,
        ),
        Type::Generic(base, args, s) => {
            let new_base = resolve_self_in_type(base, self_ty);
            Type::Generic(Rc::new(new_base), resolve_self_in_args(args, self_ty), *s)
        },
        Type::Tuple(tys, s) => Type::Tuple(resolve_self_in_types(tys, self_ty), *s),
        Type::Slice(inner, s) => Type::Slice(Rc::new(resolve_self_in_type(inner, self_ty)), *s),
        Type::Array(inner, size, s) => Type::Array(
            Rc::new(resolve_self_in_type(inner, self_ty)),
            share(size),
            *s,
        ),
        Type::DynTrait(tys, s) => Type::DynTrait(resolve_self_in_types(tys, self_ty), *s),
        Type::Function { params, ret, span } => Type::Function {
            params: resolve_self_in_types(params, self_ty),
            ret: Rc::new(resolve_self_in_type(ret, self_ty)),
            span: *span,
        },
        Type::Projection { impl_type, trait_path, assoc_name, span } => Type::Projection {
            impl_type: Rc::new(resolve_self_in_type(impl_type, self_ty)),
            trait_path: Rc::new(resolve_self_in_type(trait_path, self_ty)),
            assoc_name: *assoc_name,
            span: *span,
        },
        _ => ty.clone(),
    }
}

fn resolve_self_in_types(tys: &List<Type>, self_ty: &Type) -> (r: List<Type>)
    ensures
        r == all_with_self(*tys, *self_ty),
    decreases *tys,
{
    match tys {
        List::Nil => List::Nil,
        List::Cons(link) => {
            let head = resolve_self_in_type(&link.head, self_ty);
            resolve_self_in_types(&link.tail, self_ty).push(head)
        },
    }
}

fn resolve_self_in_args(args: &List<GenericArg>, self_ty: &Type) -> (r: List<GenericArg>)
    ensures
        r == args_with_self(*args, *self_ty),
    decreases *args,
{
    match args {
        List::Nil => List::Nil,
        List::Cons(link) => {
            let head = match &link.head {
                GenericArg::Positional(t) => GenericArg::Positional(
                    Rc::new(resolve_self_in_type(t, self_ty)),
                ),
                GenericArg::Named(n, t) => GenericArg::Named(
                    *n,
                    Rc::new(resolve_self_in_type(t, self_ty)),
                ),
                GenericArg::Const(ac) => GenericArg::Const(ac.clone()),
            };
            resolve_self_in_args(&link.tail, self_ty).push(head)
        },
    }
}

// ---------------------------------------------------------------------------
// Laws
// ---------------------------------------------------------------------------

/// The type names `Self` where it is replaced: not under a quantifier, a
/// condition or a union.
pub open spec fn names_self(ty: Type) -> bool
    decreases ty,
{
    match ty {
        Type::Path(p, _) => is_self(p),
        Type::Reference { inner, mutable, lifetime, span } => names_self(*inner),
        Type::Pointer(inner, _) => names_self(*inner),
        Type::Generic(base, args, _) => names_self(*base) || args_name_self(args),
        Type::Tuple(tys, _) => any_names_self(tys),
        Type::Slice(inner, _) => names_self(*inner),
        Type::Array(inner, _, _) => names_self(*inner),
        Type::DynTrait(tys, _) => any_names_self(tys),
        Type::Function { params, ret, span } => any_names_self(params) || names_self(*ret),
        Type::Projection { impl_type, trait_path, assoc_name, span } => names_self(*impl_type)
            || names_self(*trait_path),
        _ => false,
    }
}

pub open spec fn any_names_self(tys: List<Type>) -> bool
    decreases tys,
{
    match tys {
        List::Nil => false,
        List::Cons(link) => names_self(link.head) || any_names_self(link.tail),
    }
}

pub open spec fn args_name_self(args: List<GenericArg>) -> bool
    decreases args,
{
    match args {
        List::Nil => false,
        List::Cons(link) => args_name_self(link.tail) || match link.head {
            GenericArg::Positional(t) => names_self(*t),
            GenericArg::Named(_, t) => names_self(*t),
            GenericArg::Const(_) => false,
        },
    }
}

/// Where the type in place of `Self` names no `Self`, none is left.
pub proof fn law_self_is_gone(ty: Type, self_ty: Type)
    requires
        !names_self(self_ty),
    ensures
        !names_self(with_self(ty, self_ty)),
    decreases ty,
{
    match ty {
        Type::Reference { inner, mutable, lifetime, span } => law_self_is_gone(
            share::pointee(inner),
            self_ty,
        ),
        Type::Pointer(inner, _) => law_self_is_gone(share::pointee(inner), self_ty),
        Type::Generic(base, args, _) => {
            law_self_is_gone(share::pointee(base), self_ty);
            lemma_args_self_is_gone(args, self_ty);
        },
        Type::Tuple(tys, _) => lemma_all_self_is_gone(tys, self_ty),
        Type::Slice(inner, _) => law_self_is_gone(share::pointee(inner), self_ty),
        Type::Array(inner, _, _) => law_self_is_gone(share::pointee(inner), self_ty),
        Type::DynTrait(tys, _) => lemma_all_self_is_gone(tys, self_ty),
        Type::Function { params, ret, span } => {
            lemma_all_self_is_gone(params, self_ty);
            law_self_is_gone(share::pointee(ret), self_ty);
        },
        Type::Projection { impl_type, trait_path, assoc_name, span } => {
            law_self_is_gone(share::pointee(impl_type), self_ty);
            law_self_is_gone(share::pointee(trait_path), self_ty);
        },
        _ => {},
    }
}

proof fn lemma_all_self_is_gone(tys: List<Type>, self_ty: Type)
    requires
        !names_self(self_ty),
    ensures
        !any_names_self(all_with_self(tys, self_ty)),
    decreases tys,
{
    if tys is Cons {
        law_self_is_gone(tys.first(), self_ty);
        lemma_all_self_is_gone(tys.rest(), self_ty);
    }
}

proof fn lemma_args_self_is_gone(args: List<GenericArg>, self_ty: Type)
    requires
        !names_self(self_ty),
    ensures
        !args_name_self(args_with_self(args, self_ty)),
    decreases args,
{
    if args is Cons {
        match args.first() {
            GenericArg::Positional(t) => law_self_is_gone(share::pointee(t), self_ty),
            GenericArg::Named(_, t) => law_self_is_gone(share::pointee(t), self_ty),
            GenericArg::Const(_) => {},
        }
        lemma_args_self_is_gone(args.rest(), self_ty);
    }
}

/// A type that does not name `Self` is left as it is.
pub proof fn law_other_types_are_kept(ty: Type, self_ty: Type)
    requires
        !names_self(ty),
    ensures
        with_self(ty, self_ty) == ty,
    decreases ty,
{
    match ty {
        Type::Reference { inner, mutable, lifetime, span } => law_other_types_are_kept(
            share::pointee(inner),
            self_ty,
        ),
        Type::Pointer(inner, _) => law_other_types_are_kept(share::pointee(inner), self_ty),
        Type::Generic(base, args, _) => {
            law_other_types_are_kept(share::pointee(base), self_ty);
            lemma_other_args_are_kept(args, self_ty);
        },
        Type::Tuple(tys, _) => lemma_all_others_are_kept(tys, self_ty),
        Type::Slice(inner, _) => law_other_types_are_kept(share::pointee(inner), self_ty),
        Type::Array(inner, _, _) => law_other_types_are_kept(share::pointee(inner), self_ty),
        Type::DynTrait(tys, _) => lemma_all_others_are_kept(tys, self_ty),
        Type::Function { params, ret, span } => {
            lemma_all_others_are_kept(params, self_ty);
            law_other_types_are_kept(share::pointee(ret), self_ty);
        },
        Type::Projection { impl_type, trait_path, assoc_name, span } => {
            law_other_types_are_kept(share::pointee(impl_type), self_ty);
            law_other_types_are_kept(share::pointee(trait_path), self_ty);
        },
        _ => {},
    }
}

proof fn lemma_all_others_are_kept(tys: List<Type>, self_ty: Type)
    requires
        !any_names_self(tys),
    ensures
        all_with_self(tys, self_ty) == tys,
    decreases tys,
{
    if tys is Cons {
        law_other_types_are_kept(tys.first(), self_ty);
        lemma_all_others_are_kept(tys.rest(), self_ty);
    }
}

proof fn lemma_other_args_are_kept(args: List<GenericArg>, self_ty: Type)
    requires
        !args_name_self(args),
    ensures
        args_with_self(args, self_ty) == args,
    decreases args,
{
    if args is Cons {
        match args.first() {
            GenericArg::Positional(t) => law_other_types_are_kept(share::pointee(t), self_ty),
            GenericArg::Named(_, t) => law_other_types_are_kept(share::pointee(t), self_ty),
            GenericArg::Const(_) => {},
        }
        lemma_other_args_are_kept(args.rest(), self_ty);
    }
}

/// Replacing a name by itself changes nothing.
pub proof fn law_renaming_to_itself(e: Expr, n: Symbol)
    ensures
        renamed(e, n, n) == e,
    decreases e,
{
    match e {
        Expr::TypeAnnotated { expr, ty } => law_renaming_to_itself(share::pointee(expr), n),
        Expr::BinaryOp { left, right } => {
            law_renaming_to_itself(share::pointee(left), n);
            law_renaming_to_itself(share::pointee(right), n);
        },
        Expr::UnaryOp { expr } => law_renaming_to_itself(share::pointee(expr), n),
        Expr::Call { callee, args } => {
            law_renaming_to_itself(share::pointee(callee), n);
            lemma_renaming_all_to_itself(args, n);
        },
        Expr::Index { base, index } => {
            law_renaming_to_itself(share::pointee(base), n);
            law_renaming_to_itself(share::pointee(index), n);
        },
        Expr::FieldAccess { base, field } => law_renaming_to_itself(share::pointee(base), n),
        Expr::AttrAccess { base, attr } => law_renaming_to_itself(share::pointee(base), n),
        Expr::Cast { expr, ty } => law_renaming_to_itself(share::pointee(expr), n),
        Expr::Tuple(es) => lemma_renaming_all_to_itself(es, n),
        Expr::Array(es) => lemma_renaming_all_to_itself(es, n),
        Expr::Old(expr) => law_renaming_to_itself(share::pointee(expr), n),
        _ => {},
    }
}

proof fn lemma_renaming_all_to_itself(es: List<Expr>, n: Symbol)
    ensures
        renamed_all(es, n, n) == es,
    decreases es,
{
    if es is Cons {
        law_renaming_to_itself(es.first(), n);
        lemma_renaming_all_to_itself(es.rest(), n);
    }
}

} // verus!
