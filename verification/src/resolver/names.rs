//! Where names occur in the syntax, and that those that nothing stands for are reported.
use super::diag::{DiagKind, Diagnostic};
use super::state::State;
use super::syntax;
use super::table;
use super::table::{FunctionBinding, Scope, TypeBinding};
use crate::ast::{
    CatchBranch, Expr, FieldDef, GenericArg, MatchArm, Param, Pattern, Stmt, Type, TypeDefinition,
    TypeParam, VariantDef,
};
use crate::list::List;
use crate::symbol::{Span, Symbol, RESULT};
use crate::types::{DefId, TypeId};
use std::rc::Rc;
use vstd::prelude::*;

verus! {

/// An occurrence of a name: where it is brought in, or where it is used.
pub enum Word {
    Bound(Symbol),
    Used(Symbol, Span),
}

// ---------------------------------------------------------------------------
// Occurrences
// ---------------------------------------------------------------------------

/// The word occurs in the expression.
pub open spec fn in_expr(e: Expr, w: Word) -> bool
    decreases e, 3nat,
{
    match e {
        Expr::Literal(_, _) | Expr::Path(_) | Expr::Error | Expr::CompileError(_) => false,
        Expr::Ident(name, span) => w == Word::Used(name, span),
        Expr::TypeAnnotated { expr, ty } => in_expr(*expr, w) || in_type(*ty, w),
        Expr::BinaryOp { left, right } => in_expr(*left, w) || in_expr(*right, w),
        Expr::UnaryOp { expr } => in_expr(*expr, w),
        Expr::Call { callee, args } => in_expr(*callee, w) || in_exprs(args, w),
        Expr::Index { base, index } => in_expr(*base, w) || in_expr(*index, w),
        Expr::FieldAccess { base, field } => in_expr(*base, w),
        Expr::AttrAccess { base, attr } => in_expr(*base, w),
        Expr::Cast { expr, ty } => in_expr(*expr, w) || in_type(*ty, w),
        Expr::Range { start, end } => in_optional_expr(start, w) || in_optional_expr(end, w),
        Expr::StructLit { path, fields } => in_field_values(fields, w),
        Expr::EnumLit { path, variant, payload } => in_optional_expr(payload, w),
        Expr::Move(expr) => in_expr(*expr, w),
        Expr::Tuple(es) => in_exprs(es, w),
        Expr::Array(es) => in_exprs(es, w),
        Expr::Closure { params, return_type, body } => in_params(params, w) || in_optional_type(
            return_type,
            w,
        ) || in_stmts(body, w),
        Expr::Try { expr } => in_expr(*expr, w),
        Expr::UnsafeBlock { body } => in_stmts(body, w),
        Expr::Catch { expr, branches } => in_expr(*expr, w) || in_catches(branches, w),
        Expr::LeaveWith { expr } => in_expr(*expr, w),
        Expr::Await { expr } => in_expr(*expr, w),
        Expr::If { cond, then_branch, else_branch } => in_expr(*cond, w) || in_stmts(
            then_branch,
            w,
        ) || in_optional_stmts(else_branch, w),
        Expr::IfLet { pattern, scrutinee, then_branch, else_branch } => in_pattern(*pattern, w)
            || in_expr(*scrutinee, w) || in_stmts(then_branch, w) || in_optional_stmts(
            else_branch,
            w,
        ),
        Expr::Match { scrutinee, arms } => in_expr(*scrutinee, w) || in_arms(arms, w),
        Expr::Block(stmts) => in_stmts(stmts, w),
        Expr::Quantified { range, body } => in_expr(*range, w) || in_expr(*body, w),
        Expr::PolyBox { expr } => in_expr(*expr, w),
        Expr::PolyUnbox { expr } => in_expr(*expr, w),
        Expr::Old(expr) => in_expr(*expr, w),
        Expr::TypeInfo(ty) => in_type(*ty, w),
        Expr::LayoutOf(ty) => in_type(*ty, w),
        Expr::Task { body } => in_stmts(body, w),
    }
}

/// The word occurs in the type. The arguments of a generic type count as places where a
/// name can be brought in; what is used there depends on what the type is.
pub open spec fn in_type(ty: Type, w: Word) -> bool
    decreases ty, 3nat,
{
    match ty {
        Type::Path(_, _) | Type::DynTrait(_, _) | Type::Never(_) | Type::Union(_, _)
        | Type::Error(_) | Type::Regex(_, _) => false,
        Type::Generic(base, args, _) => w is Bound && (in_type(*base, w) || in_args(args, w)),
        Type::Reference { inner, mutable, lifetime, span } => in_type(*inner, w),
        Type::Pointer(inner, _) => in_type(*inner, w),
        Type::Slice(inner, _) => in_type(*inner, w),
        Type::Array(inner, _, _) => in_type(*inner, w),
        Type::Tuple(tys, _) => in_types(tys, w),
        Type::Function { params, ret, span } => in_types(params, w) || in_type(*ret, w),
        Type::Forall { lifetime, body, span } => in_type(*body, w),
        Type::Projection { impl_type, trait_path, assoc_name, span } => in_type(*impl_type, w)
            || in_type(*trait_path, w),
        Type::Exists { name, base, condition, span } => in_type(*base, w),
        Type::WhereShorthand { base, condition, fresh, span } => in_type(*base, w),
        Type::Literal(e, _) => in_expr(*e, w),
        Type::Expr(e, _) => in_expr(*e, w),
    }
}

/// The word occurs in the type argument.
pub open spec fn in_arg(arg: GenericArg, w: Word) -> bool
    decreases arg, 3nat,
{
    match arg {
        GenericArg::Positional(t) => in_type(*t, w),
        GenericArg::Named(_, t) => in_type(*t, w),
        GenericArg::Const(ac) => in_expr(*ac.value, w),
    }
}

/// The word occurs in the pattern, which brings in the names that it holds.
pub open spec fn in_pattern(p: Pattern, w: Word) -> bool
    decreases p, 3nat,
{
    match p {
        Pattern::Wildcard | Pattern::Error => false,
        Pattern::Ident(name, _) => w == Word::Bound(name),
        Pattern::Literal(e) => in_expr(*e, w),
        Pattern::Tuple(ps) => in_patterns(ps, w),
        Pattern::Struct { fields } => in_field_patterns(fields, w),
        Pattern::Enum { inner } => in_optional_pattern(inner, w),
        Pattern::Or(ps) => in_patterns(ps, w),
        Pattern::Slice(before, slice, after) => in_patterns(before, w) || in_optional_pattern(
            slice,
            w,
        ) || in_patterns(after, w),
    }
}

/// The word occurs in the statement. Of a variable with a declared type the type counts,
/// of one without the value.
pub open spec fn in_stmt(stmt: Stmt, w: Word) -> bool
    decreases stmt, 6nat,
{
    match stmt {
        Stmt::FunctionDef { name, params, return_type, body, .. } => w == Word::Bound(name)
            || in_params(params, w) || in_optional_type(return_type, w) || in_optional_stmts(body, w),
        Stmt::TypeDef { name, definition, .. } => w == Word::Bound(name) || in_definition(
            *definition,
            w,
        ),
        Stmt::VariableDef { name, pattern, ty, value, else_branch, type_captures, .. } => {
            ||| match name {
                Some(n) => w == Word::Bound(n) || match ty {
                    Some(t) => in_type(*t, w),
                    None => in_optional_expr(value, w),
                },
                None => false,
            }
            ||| in_captures(type_captures, w)
            ||| in_optional_pattern(pattern, w)
            ||| in_optional_stmts(else_branch, w)
        },
        Stmt::Expression(e) => in_expr(*e, w),
        Stmt::If { cond, then_branch, else_branch } => in_expr(*cond, w) || in_stmts(
            then_branch,
            w,
        ) || in_optional_stmts(else_branch, w),
        Stmt::IfLet { pattern, scrutinee, then_branch, else_branch } => in_pattern(*pattern, w)
            || in_expr(*scrutinee, w) || in_stmts(then_branch, w) || in_optional_stmts(
            else_branch,
            w,
        ),
        Stmt::While { cond, body, loop_invariant, measure } => in_expr(*cond, w)
            || in_optional_expr(loop_invariant, w) || in_optional_expr(measure, w) || in_stmts(
            body,
            w,
        ),
        Stmt::WhileLet { pattern, scrutinee, body, loop_invariant, measure } => in_pattern(
            *pattern,
            w,
        ) || in_expr(*scrutinee, w) || in_optional_expr(loop_invariant, w) || in_optional_expr(
            measure,
            w,
        ) || in_stmts(body, w),
        Stmt::For { pattern, iterable, body, loop_invariant, measure } => in_pattern(*pattern, w)
            || in_expr(*iterable, w) || in_optional_expr(loop_invariant, w) || in_optional_expr(
            measure,
            w,
        ) || in_stmts(body, w),
        Stmt::Loop { body } => in_stmts(body, w),
        Stmt::Return { value } => in_optional_expr(value, w),
        Stmt::Assign { target, value } => in_expr(*target, w) || in_expr(*value, w),
        Stmt::ComptimeBlock { body } => in_stmts(body, w),
        Stmt::ScopeCleanup { body } => in_stmts(body, w),
        Stmt::Unsafe { body } => in_stmts(body, w),
        Stmt::GhostVariableDef { inner } => in_stmt(*inner, w),
        Stmt::Isolate { body } => in_stmts(body, w),
        _ => false,
    }
}

/// The word occurs in the definition of a type. What is used in an alias counts where the
/// alias is used, and what is wrong in a payload is not reported with it.
pub open spec fn in_definition(def: TypeDefinition, w: Word) -> bool
    decreases def, 3nat,
{
    match def {
        TypeDefinition::Struct(fields) => in_fields(fields, w),
        TypeDefinition::Enum(variants, _, _) => w is Bound && in_payloads(variants, w),
        TypeDefinition::Alias(ty, _) => w is Bound && in_type(*ty, w),
        _ => false,
    }
}

/// The word occurs in the expression, if there is one.
pub open spec fn in_optional_expr(x: Option<Rc<Expr>>, w: Word) -> bool
    decreases x, 5nat,
{
    match x {
        Some(x) => in_expr(*x, w),
        None => false,
    }
}

/// The word occurs in the type, if there is one.
pub open spec fn in_optional_type(x: Option<Rc<Type>>, w: Word) -> bool
    decreases x, 5nat,
{
    match x {
        Some(x) => in_type(*x, w),
        None => false,
    }
}

/// The word occurs in the pattern, if there is one.
pub open spec fn in_optional_pattern(x: Option<Rc<Pattern>>, w: Word) -> bool
    decreases x, 5nat,
{
    match x {
        Some(x) => in_pattern(*x, w),
        None => false,
    }
}

/// The word occurs in the statements, if there are any.
pub open spec fn in_optional_stmts(x: Option<List<Stmt>>, w: Word) -> bool
    decreases x, 5nat,
{
    match x {
        Some(x) => in_stmts(x, w),
        None => false,
    }
}

/// The word occurs in one of the expressions.
pub open spec fn in_exprs(list: List<Expr>, w: Word) -> bool
    decreases list, 3nat,
{
    match list {
        List::Nil => false,
        List::Cons(link) => in_expr(link.head, w) || in_exprs(link.tail, w),
    }
}

/// The word occurs in the value of one of the fields.
pub open spec fn in_field_values(list: List<(Symbol, Expr)>, w: Word) -> bool
    decreases list, 3nat,
{
    match list {
        List::Nil => false,
        List::Cons(link) => in_expr(link.head.1, w) || in_field_values(link.tail, w),
    }
}

/// The word occurs in one of the types.
pub open spec fn in_types(list: List<Type>, w: Word) -> bool
    decreases list, 3nat,
{
    match list {
        List::Nil => false,
        List::Cons(link) => in_type(link.head, w) || in_types(link.tail, w),
    }
}

/// The word occurs in one of the arguments.
pub open spec fn in_args(list: List<GenericArg>, w: Word) -> bool
    decreases list, 3nat,
{
    match list {
        List::Nil => false,
        List::Cons(link) => in_arg(link.head, w) || in_args(link.tail, w),
    }
}

/// The word is a parameter, or occurs in the type of one.
pub open spec fn in_params(list: List<Param>, w: Word) -> bool
    decreases list, 3nat,
{
    match list {
        List::Nil => false,
        List::Cons(link) => w == Word::Bound(link.head.name) || in_optional_type(link.head.ty, w) || in_params(link.tail, w),
    }
}

/// The word occurs in one of the branches.
pub open spec fn in_catches(list: List<CatchBranch>, w: Word) -> bool
    decreases list, 3nat,
{
    match list {
        List::Nil => false,
        List::Cons(link) => in_pattern(*link.head.pattern, w) || match link.head.bind {
            Some(n) => w == Word::Bound(n),
            None => false,
        } || in_stmts(link.head.body, w) || in_catches(link.tail, w),
    }
}

/// The word occurs in one of the arms.
pub open spec fn in_arms(list: List<MatchArm>, w: Word) -> bool
    decreases list, 3nat,
{
    match list {
        List::Nil => false,
        List::Cons(link) => in_pattern(*link.head.pattern, w) || in_optional_expr(
            link.head.guard,
            w,
        ) || in_expr(*link.head.body, w) || in_arms(link.tail, w),
    }
}

/// The word occurs in one of the statements.
pub open spec fn in_stmts(list: List<Stmt>, w: Word) -> bool
    decreases list, 3nat,
{
    match list {
        List::Nil => false,
        List::Cons(link) => in_stmt(link.head, w) || in_stmts(link.tail, w),
    }
}

/// The word occurs in one of the patterns.
pub open spec fn in_patterns(list: List<Pattern>, w: Word) -> bool
    decreases list, 3nat,
{
    match list {
        List::Nil => false,
        List::Cons(link) => in_pattern(link.head, w) || in_patterns(link.tail, w),
    }
}

/// The word occurs in the pattern of one of the fields.
pub open spec fn in_field_patterns(list: List<(Symbol, Pattern)>, w: Word) -> bool
    decreases list, 3nat,
{
    match list {
        List::Nil => false,
        List::Cons(link) => in_pattern(link.head.1, w) || in_field_patterns(link.tail, w),
    }
}

/// The word is one of the names of types that are captured.
pub open spec fn in_captures(list: List<TypeParam>, w: Word) -> bool
    decreases list, 3nat,
{
    match list {
        List::Nil => false,
        List::Cons(link) => w == Word::Bound(link.head.name) || in_captures(link.tail, w),
    }
}

/// The word occurs in the type of one of the fields.
pub open spec fn in_fields(list: List<FieldDef>, w: Word) -> bool
    decreases list, 3nat,
{
    match list {
        List::Nil => false,
        List::Cons(link) => in_type(*link.head.ty, w) || in_fields(link.tail, w),
    }
}

/// The word occurs in the payload of one of the variants.
pub open spec fn in_payloads(list: List<VariantDef>, w: Word) -> bool
    decreases list, 3nat,
{
    match list {
        List::Nil => false,
        List::Cons(link) => in_optional_type(link.head.payload, w) || in_payloads(link.tail, w),
    }
}

// ---------------------------------------------------------------------------
// Names that nothing stands for
// ---------------------------------------------------------------------------

/// None of the aliases brings the name in.
pub open spec fn is_tame(defs: List<(DefId, Rc<TypeBinding>)>, name: Symbol) -> bool
    decreases defs,
{
    match defs {
        List::Nil => true,
        List::Cons(link) => !in_optional_type(link.head.1.alias_ast, Word::Bound(name)) && is_tame(
            link.tail,
            name,
        ),
    }
}

/// No variable, function or type of the scopes has the name, and no alias brings it in.
#[verifier::opaque]
pub open spec fn is_nowhere(
    scopes: List<Scope>,
    defs: List<(DefId, Rc<TypeBinding>)>,
    name: Symbol,
) -> bool {
    &&& table::variable_in(scopes, name) is None
    &&& table::function_in(scopes, name) is None
    &&& table::type_in(scopes, name) is None
    &&& name.0 != RESULT
    &&& is_tame(defs, name)
}

/// No variable, function or type that is in scope has the name.
pub open spec fn is_unknown(s: State, name: Symbol) -> bool {
    is_nowhere(s.symbols.scopes, s.symbols.type_defs, name)
}

/// The list holds the report that the name, where it stands, is not defined.
pub open spec fn is_listed(list: List<Diagnostic>, name: Symbol, span: Span) -> bool
    decreases list,
{
    match list {
        List::Nil => false,
        List::Cons(link) => link.head == (Diagnostic {
            kind: DiagKind::UndefinedName(name),
            span: Some(span),
        }) || is_listed(link.tail, name, span),
    }
}

/// What is listed is in the list.
pub proof fn lemma_listed(list: List<Diagnostic>, name: Symbol, span: Span)
    ensures
        is_listed(list, name, span) == list@.contains(
            Diagnostic { kind: DiagKind::UndefinedName(name), span: Some(span) },
        ),
    decreases list,
{
    let d = Diagnostic { kind: DiagKind::UndefinedName(name), span: Some(span) };
    if list is Cons {
        lemma_listed(list.rest(), name, span);
        assert(list@ == seq![list.first()] + list.rest()@);
        crate::gather::lemma_in_both(seq![list.first()], list.rest()@, d);
        assert(seq![list.first()].contains(d) == (list.first() == d)) by {
            assert(seq![list.first()][0] == list.first());
        }
    } else {
        assert(list@.len() == 0);
    }
}

/// From the first state to the second, something was resolved in which the name is brought
/// in, if `bound`, and used at the span, if `used`: the report stays; a name that nothing
/// stands for stays so unless it is brought in; and is then reported if it is used.
#[verifier::inline]
pub open spec fn follows(
    a: State,
    b: State,
    name: Symbol,
    span: Span,
    bound: bool,
    used: bool,
) -> bool {
    &&& is_listed(a.diagnostics, name, span) ==> is_listed(b.diagnostics, name, span)
    &&& is_unknown(a, name) && !bound ==> is_unknown(b, name)
    &&& is_unknown(a, name) && !bound && used ==> is_listed(b.diagnostics, name, span)
}

/// What is shared.
pub open spec fn of<T>(x: Rc<T>) -> T {
    *x
}

pub proof fn lemma_enter(s: State, n: Symbol)
    ensures
        is_unknown(s.enter(), n) == is_unknown(s, n),
{
    reveal(is_nowhere);
    let scopes = s.symbols.scopes;
    assert(s.enter().symbols.scopes == scopes.cons(Scope::none()));
    assert(table::variable_in(scopes.cons(Scope::none()), n) == table::variable_in(scopes, n));
    assert(table::function_in(scopes.cons(Scope::none()), n) == table::function_in(scopes, n));
    assert(table::type_in(scopes.cons(Scope::none()), n) == table::type_in(scopes, n));
}

pub proof fn lemma_exit(s: State, n: Symbol)
    ensures
        is_unknown(s, n) ==> is_unknown(s.exit(), n),
{
    reveal(is_nowhere);
    let scopes = s.symbols.scopes;
    if scopes is Cons {
        assert(table::variable_in(scopes, n) is None ==> table::variable_in(scopes.rest(), n) is None);
        assert(table::function_in(scopes, n) is None ==> table::function_in(scopes.rest(), n) is None);
        assert(table::type_in(scopes, n) is None ==> table::type_in(scopes.rest(), n) is None);
    }
}

pub proof fn lemma_bind(s: State, name: Symbol, ty: TypeId, mutable: bool, at: Span, n: Symbol, sp: Span)
    ensures
        follows(s, s.bind(name, ty, mutable, at), n, sp, Word::Bound(n) == Word::Bound(name), false),
{
    reveal(is_nowhere);
    let t = s.bind(name, ty, mutable, at);
    if name != n && is_unknown(s, n) {
        let (a, b) = (s.symbols.scopes, t.symbols.scopes);
        if b != a {
            assert(b is Cons);
            assert(b.rest() == s.symbols.outer());
            assert(b.first().functions == s.symbols.top().functions);
            assert(b.first().types == s.symbols.top().types);
            assert(table::entry(b.first().variables, n) == table::entry(
                s.symbols.top().variables,
                n,
            ));
            assert(table::variable_in(b, n) is None);
            assert(table::function_in(b, n) is None);
            assert(table::type_in(b, n) is None);
        }
    }
}

/// A type that becomes known under another name.
pub proof fn lemma_with_type(s: State, name: Symbol, b: Rc<TypeBinding>, at: Span, n: Symbol)
    requires
        name != n,
        !in_optional_type(b.alias_ast, Word::Bound(n)),
    ensures
        is_unknown(s, n) ==> is_nowhere(
            s.symbols.with_type(name, b, at).0.scopes,
            s.symbols.with_type(name, b, at).0.type_defs,
            n,
        ),
{
    reveal(is_nowhere);
    let t = s.symbols.with_type(name, b, at).0;
    if is_unknown(s, n) && t.scopes != s.symbols.scopes {
        let c = t.scopes;
        assert(c is Cons);
        assert(c.rest() == s.symbols.outer());
        assert(c.first().functions == s.symbols.top().functions);
        assert(c.first().variables == s.symbols.top().variables);
        assert(table::entry(c.first().types, n) == table::entry(s.symbols.top().types, n));
        assert(table::variable_in(c, n) is None);
        assert(table::function_in(c, n) is None);
        assert(table::type_in(c, n) is None);
        assert(is_tame(t.type_defs, n));
    }
}

/// A function that becomes known under another name.
pub proof fn lemma_with_function(s: State, name: Symbol, b: Rc<FunctionBinding>, at: Span, n: Symbol)
    requires
        name != n,
    ensures
        is_unknown(s, n) ==> is_nowhere(
            s.symbols.with_function(name, b, at).0.scopes,
            s.symbols.with_function(name, b, at).0.type_defs,
            n,
        ),
{
    reveal(is_nowhere);
    let t = s.symbols.with_function(name, b, at).0;
    if is_unknown(s, n) && t.scopes != s.symbols.scopes {
        let c = t.scopes;
        assert(c is Cons);
        assert(c.rest() == s.symbols.outer());
        assert(c.first().types == s.symbols.top().types);
        assert(c.first().variables == s.symbols.top().variables);
        assert(table::entry(c.first().functions, n) == table::entry(s.symbols.top().functions, n));
        assert(table::variable_in(c, n) is None);
        assert(table::function_in(c, n) is None);
        assert(table::type_in(c, n) is None);
    }
}

pub proof fn lemma_root_function(scopes: List<Scope>, name: Symbol, b: Rc<FunctionBinding>, n: Symbol)
    requires
        name != n,
    ensures
        table::variable_in(table::with_root_function(scopes, name, b), n) == table::variable_in(
            scopes,
            n,
        ),
        table::function_in(table::with_root_function(scopes, name, b), n) == table::function_in(
            scopes,
            n,
        ),
        table::type_in(table::with_root_function(scopes, name, b), n) == table::type_in(scopes, n),
    decreases scopes,
{
    let after = table::with_root_function(scopes, name, b);
    if scopes is Cons && scopes.rest() is Cons {
        lemma_root_function(scopes.rest(), name, b, n);
        assert(after.rest() == table::with_root_function(scopes.rest(), name, b));
        assert(after.first() == scopes.first());
    } else if scopes is Cons {
        assert(after.rest() is Nil);
        assert(after.first().variables == scopes.first().variables);
        assert(after.first().types == scopes.first().types);
        assert(table::entry(after.first().functions, n) == table::entry(
            scopes.first().functions,
            n,
        ));
        assert(table::variable_in(after.rest(), n) is None);
        assert(table::function_in(after.rest(), n) is None);
        assert(table::type_in(after.rest(), n) is None);
    } else {
        assert(after.rest() is Nil);
        assert(after.first().variables is Nil);
        assert(after.first().types is Nil);
        assert(table::entry(after.first().functions, n) is None) by {
            assert(after.first().functions == List::Nil.cons((name, b)));
            assert(table::entry(List::<(Symbol, Rc<FunctionBinding>)>::Nil, n) is None);
        }
        assert(table::variable_in(after.rest(), n) is None);
        assert(table::function_in(after.rest(), n) is None);
        assert(table::type_in(after.rest(), n) is None);
    }
}

pub proof fn lemma_at_root(s: State, name: Symbol, b: Rc<FunctionBinding>, at: Span, n: Symbol)
    requires
        name != n,
    ensures
        is_unknown(s, n) ==> is_nowhere(
            s.symbols.with_function_at_root(name, b, at).0.scopes,
            s.symbols.with_function_at_root(name, b, at).0.type_defs,
            n,
        ),
{
    reveal(is_nowhere);
    lemma_root_function(s.symbols.scopes, name, b, n);
}

pub proof fn lemma_tame(defs: List<(DefId, Rc<TypeBinding>)>, d: DefId, n: Symbol)
    requires
        is_tame(defs, n),
        table::def_entry(defs, d) is Some,
    ensures
        !in_optional_type(table::def_entry(defs, d)->0.alias_ast, Word::Bound(n)),
    decreases defs,
{
    if defs.first().0 != d {
        lemma_tame(defs.rest(), d, n);
    }
}

pub proof fn lemma_known_type(s: State, d: DefId, n: Symbol)
    ensures
        is_unknown(s, n) && s.symbols.type_def(d) is Some ==> !in_optional_type(
            s.symbols.type_def(d)->0.alias_ast,
            Word::Bound(n),
        ),
{
    reveal(is_nowhere);
    if is_unknown(s, n) && s.symbols.type_def(d) is Some {
        lemma_tame(s.symbols.type_defs, d, n);
    }
}

pub proof fn lemma_ident(s: State, name: Symbol, at: Span, n: Symbol, sp: Span)
    ensures
        follows(
            s,
            s.ident(name, at).0,
            n,
            sp,
            false,
            Word::Used(n, sp) == Word::Used(name, at),
        ),
{
    reveal(is_nowhere);
}

pub proof fn lemma_generics(
    s: State,
    params: List<TypeParam>,
    i: usize,
    known: List<(Symbol, TypeId)>,
)
    ensures
        s.generics(params, i, known).0.symbols == s.symbols,
        s.generics(params, i, known).0.diagnostics == s.diagnostics,
    decreases params,
{
    if params is Cons {
        let (t, id) = s.add_type(
            crate::types::TypeData::GenericParam { index: i, name: params.first().name },
        );
        lemma_generics(
            t,
            params.rest(),
            super::state::next_index(i),
            known.cons((params.first().name, id)),
        );
    }
}

// ---------------------------------------------------------------------------
// Types
// ---------------------------------------------------------------------------

#[verifier::spinoff_prover]
pub proof fn lemma_path_type(s: State, ty: Type, fuel: nat, n: Symbol, sp: Span)
    ensures
        follows(s, s.path_type(ty, fuel).0, n, sp, false, false),
    decreases fuel, ty, 2nat,
{
    reveal(State::path_type);
    reveal(State::type_expr);
    if let Type::Path(path, at) = ty {
        if let Some(d) = s.symbols.type_by_path(path) {
            if let Some(b) = s.symbols.type_def(d) {
                if let Some(alias) = b.alias_ast {
                    if fuel > 0 && s.local_type(path) is None {
                        lemma_type(s, of(alias), (fuel - 1) as nat, n, sp);
                        lemma_known_type(s, d, n);
                        assert(in_optional_type(b.alias_ast, Word::Bound(n)) == in_type(
                            of(alias),
                            Word::Bound(n),
                        ));
                    }
                }
            }
        }
    }
}

#[verifier::spinoff_prover]
pub proof fn lemma_builtin(
    s: State,
    name: Symbol,
    args: List<GenericArg>,
    fuel: nat,
    n: Symbol,
    sp: Span,
)
    requires
        s.builtin_generic(name, args, fuel) is Some,
    ensures
        ({
            let r = s.builtin_generic(name, args, fuel)->0;
            follows(s, r.0, n, sp, in_args(args, Word::Bound(n)), false)
        }),
    decreases fuel, args, 1nat,
{
    reveal(State::builtin_generic);
    reveal(State::arg_type);
    if args is Cons {
        lemma_arg(s, args.first(), fuel, n, sp);
        let t = s.arg_type(args.first(), fuel).0;
        let rest = args.rest();
        if rest is Cons {
            lemma_arg(t, rest.first(), fuel, n, sp);
            assert(in_args(rest, Word::Bound(n)) == (in_arg(rest.first(), Word::Bound(n))
                || in_args(rest.rest(), Word::Bound(n))));
        }
    }
}

#[verifier::spinoff_prover]
pub proof fn lemma_applied(s: State, ty: Type, fuel: nat, n: Symbol, sp: Span)
    requires
        ty is Generic,
    ensures
        follows(s, s.applied(ty, fuel).0, n, sp, in_type(ty, Word::Bound(n)), false),
    decreases fuel, ty, 2nat,
{
    reveal(State::applied);
    reveal(State::arg_types);
    reveal(State::type_expr);
    if let Type::Generic(base, args, at) = ty {
        lemma_type(s, of(base), fuel, n, sp);
        let t = s.type_expr(of(base), fuel).0;
        lemma_args(t, args, fuel, n, sp);
        let u = t.arg_types(args, fuel).0;
    }
}

#[verifier::spinoff_prover]
#[verifier::rlimit(60)]
pub proof fn lemma_type(s: State, ty: Type, fuel: nat, n: Symbol, sp: Span)
    ensures
        follows(
            s,
            s.type_expr(ty, fuel).0,
            n,
            sp,
            in_type(ty, Word::Bound(n)),
            in_type(ty, Word::Used(n, sp)),
        ),
    decreases fuel, ty, 3nat,
{
    reveal(State::type_expr);
    reveal(State::path_type);
    reveal(State::builtin_generic);
    reveal(State::applied);
    reveal(State::types);
    reveal(State::type_of_expr);
    match ty {
        Type::Path(_, _) => {
            lemma_path_type(s, ty, fuel, n, sp);
        },
        Type::Generic(base, args, _) => {
            if let Some(name) = State::base_name(of(base)) {
                if s.builtin_generic(name, args, fuel) is Some {
                    lemma_builtin(s, name, args, fuel, n, sp);
                } else {
                    lemma_applied(s, ty, fuel, n, sp);
                }
            } else {
                lemma_applied(s, ty, fuel, n, sp);
            }
        },
        Type::Reference { inner, mutable, lifetime, span } => {
            lemma_type(s, of(inner), fuel, n, sp);
        },
        Type::Pointer(inner, _) => {
            lemma_type(s, of(inner), fuel, n, sp);
        },
        Type::Slice(inner, _) => {
            lemma_type(s, of(inner), fuel, n, sp);
        },
        Type::Array(inner, _, _) => {
            lemma_type(s, of(inner), fuel, n, sp);
        },
        Type::Tuple(tys, _) => {
            lemma_types(s, tys, fuel, n, sp);
        },
        Type::Function { params, ret, span } => {
            lemma_types(s, params, fuel, n, sp);
            lemma_type(s.types(params, fuel).0, of(ret), fuel, n, sp);
        },
        Type::Forall { lifetime, body, span } => {
            lemma_type(s, of(body), fuel, n, sp);
        },
        Type::Projection { impl_type, trait_path, assoc_name, span } => {
            lemma_type(s, of(impl_type), fuel, n, sp);
            lemma_type(s.type_expr(of(impl_type), fuel).0, of(trait_path), fuel, n, sp);
        },
        Type::Exists { name, base, condition, span } => {
            lemma_type(s, of(base), fuel, n, sp);
        },
        Type::WhereShorthand { base, condition, fresh, span } => {
            lemma_type(s, of(base), fuel, n, sp);
        },
        Type::Literal(e, _) => {
            lemma_type_of_expr(s, of(e), fuel, n, sp);
        },
        Type::Expr(e, _) => {
            lemma_type_of_expr(s, of(e), fuel, n, sp);
        },
        _ => {},
    }
}

#[verifier::spinoff_prover]
pub proof fn lemma_type_of_expr(s: State, e: Expr, fuel: nat, n: Symbol, sp: Span)
    ensures
        follows(
            s,
            s.type_of_expr(e, fuel).0,
            n,
            sp,
            in_expr(e, Word::Bound(n)),
            in_expr(e, Word::Used(n, sp)),
        ),
    decreases fuel, e, 4nat,
{
    reveal(State::type_of_expr);
    reveal(State::expr);
    lemma_expr(s, e, fuel, n, sp);
}

#[verifier::spinoff_prover]
pub proof fn lemma_optional_type(s: State, ty: Option<Rc<Type>>, fuel: nat, n: Symbol, sp: Span)
    ensures
        follows(
            s,
            s.optional_type(ty, fuel).0,
            n,
            sp,
            in_optional_type(ty, Word::Bound(n)),
            in_optional_type(ty, Word::Used(n, sp)),
        ),
    decreases fuel, ty, 4nat,
{
    reveal(State::optional_type);
    reveal(State::type_expr);
    if let Some(x) = ty {
        lemma_type(s, of(x), fuel, n, sp);
    }
}

#[verifier::spinoff_prover]
pub proof fn lemma_returned(s: State, ty: Option<Rc<Type>>, fuel: nat, n: Symbol, sp: Span)
    ensures
        follows(
            s,
            s.returned(ty, fuel).0,
            n,
            sp,
            in_optional_type(ty, Word::Bound(n)),
            in_optional_type(ty, Word::Used(n, sp)),
        ),
    decreases fuel, ty, 4nat,
{
    reveal(State::returned);
    reveal(State::type_expr);
    if let Some(x) = ty {
        lemma_type(s, of(x), fuel, n, sp);
    }
}

#[verifier::spinoff_prover]
pub proof fn lemma_optional_expr(s: State, ty: Option<Rc<Expr>>, fuel: nat, n: Symbol, sp: Span)
    ensures
        follows(
            s,
            s.optional_expr(ty, fuel),
            n,
            sp,
            in_optional_expr(ty, Word::Bound(n)),
            in_optional_expr(ty, Word::Used(n, sp)),
        ),
    decreases fuel, ty, 4nat,
{
    reveal(State::optional_expr);
    reveal(State::expr);
    if let Some(x) = ty {
        lemma_expr(s, of(x), fuel, n, sp);
    }
}

#[verifier::spinoff_prover]
pub proof fn lemma_optional_pattern(s: State, ty: Option<Rc<Pattern>>, fuel: nat, n: Symbol, sp: Span)
    ensures
        follows(
            s,
            s.optional_pattern(ty, fuel),
            n,
            sp,
            in_optional_pattern(ty, Word::Bound(n)),
            in_optional_pattern(ty, Word::Used(n, sp)),
        ),
    decreases fuel, ty, 4nat,
{
    reveal(State::optional_pattern);
    reveal(State::pattern);
    if let Some(x) = ty {
        lemma_pattern(s, of(x), fuel, n, sp);
    }
}

#[verifier::spinoff_prover]
pub proof fn lemma_optional_block(s: State, ty: Option<List<Stmt>>, fuel: nat, n: Symbol, sp: Span)
    ensures
        follows(
            s,
            s.optional_block(ty, fuel),
            n,
            sp,
            in_optional_stmts(ty, Word::Bound(n)),
            in_optional_stmts(ty, Word::Used(n, sp)),
        ),
    decreases fuel, ty, 5nat,
{
    reveal(State::optional_block);
    reveal(State::block);
    if let Some(x) = ty {
        lemma_block(s, x, fuel, n, sp);
    }
}

#[verifier::spinoff_prover]
pub proof fn lemma_types(s: State, list: List<Type>, fuel: nat, n: Symbol, sp: Span)
    ensures
        follows(
            s,
            s.types(list, fuel).0,
            n,
            sp,
            in_types(list, Word::Bound(n)),
            in_types(list, Word::Used(n, sp)),
        ),
    decreases fuel, list, 3nat,
{
    reveal(State::types);
    reveal(State::type_expr);
    if list is Cons {
        lemma_type(s, list.first(), fuel, n, sp);
        lemma_types(s.type_expr(list.first(), fuel).0, list.rest(), fuel, n, sp);
    }
}

#[verifier::spinoff_prover]
pub proof fn lemma_arg(s: State, arg: GenericArg, fuel: nat, n: Symbol, sp: Span)
    ensures
        follows(s, s.arg_type(arg, fuel).0, n, sp, in_arg(arg, Word::Bound(n)), false),
    decreases fuel, arg, 3nat,
{
    reveal(State::arg_type);
    reveal(State::type_expr);
    reveal(State::type_of_expr);
    match arg {
        GenericArg::Positional(t) => {
            lemma_type(s, of(t), fuel, n, sp);
        },
        GenericArg::Named(_, t) => {
            lemma_type(s, of(t), fuel, n, sp);
        },
        GenericArg::Const(ac) => {
            lemma_type_of_expr(s, of(ac.value), fuel, n, sp);
        },
    }
}

#[verifier::spinoff_prover]
pub proof fn lemma_args(s: State, list: List<GenericArg>, fuel: nat, n: Symbol, sp: Span)
    ensures
        follows(s, s.arg_types(list, fuel).0, n, sp, in_args(list, Word::Bound(n)), false),
    decreases fuel, list, 3nat,
{
    reveal(State::arg_types);
    reveal(State::arg_type);
    if list is Cons {
        lemma_arg(s, list.first(), fuel, n, sp);
        lemma_args(s.arg_type(list.first(), fuel).0, list.rest(), fuel, n, sp);
    }
}

// ---------------------------------------------------------------------------
// Expressions
// ---------------------------------------------------------------------------

#[verifier::spinoff_prover]
pub proof fn lemma_exprs(s: State, list: List<Expr>, fuel: nat, n: Symbol, sp: Span)
    ensures
        follows(
            s,
            s.exprs(list, fuel),
            n,
            sp,
            in_exprs(list, Word::Bound(n)),
            in_exprs(list, Word::Used(n, sp)),
        ),
    decreases fuel, list, 3nat,
{
    reveal(State::exprs);
    reveal(State::expr);
    if list is Cons {
        lemma_expr(s, list.first(), fuel, n, sp);
        lemma_exprs(s.expr(list.first(), fuel).0, list.rest(), fuel, n, sp);
    }
}

#[verifier::spinoff_prover]
pub proof fn lemma_field_values(s: State, list: List<(Symbol, Expr)>, fuel: nat, n: Symbol, sp: Span)
    ensures
        follows(
            s,
            s.field_values(list, fuel),
            n,
            sp,
            in_field_values(list, Word::Bound(n)),
            in_field_values(list, Word::Used(n, sp)),
        ),
    decreases fuel, list, 3nat,
{
    reveal(State::field_values);
    reveal(State::expr);
    if list is Cons {
        lemma_expr(s, list.first().1, fuel, n, sp);
        lemma_field_values(s.expr(list.first().1, fuel).0, list.rest(), fuel, n, sp);
    }
}

#[verifier::spinoff_prover]
pub proof fn lemma_expr_types(s: State, list: List<Expr>, fuel: nat, n: Symbol, sp: Span)
    ensures
        follows(
            s,
            s.expr_types(list, fuel).0,
            n,
            sp,
            in_exprs(list, Word::Bound(n)),
            in_exprs(list, Word::Used(n, sp)),
        ),
    decreases fuel, list, 3nat,
{
    reveal(State::expr_types);
    reveal(State::expr);
    if list is Cons {
        lemma_expr(s, list.first(), fuel, n, sp);
        lemma_expr_types(s.expr(list.first(), fuel).0, list.rest(), fuel, n, sp);
    }
}

#[verifier::spinoff_prover]
pub proof fn lemma_first_type(
    s: State,
    list: List<Expr>,
    found: Option<TypeId>,
    fuel: nat,
    n: Symbol,
    sp: Span,
)
    ensures
        follows(
            s,
            s.first_type(list, found, fuel).0,
            n,
            sp,
            in_exprs(list, Word::Bound(n)),
            in_exprs(list, Word::Used(n, sp)),
        ),
    decreases fuel, list, 3nat,
{
    reveal(State::first_type);
    reveal(State::expr);
    if list is Cons {
        lemma_expr(s, list.first(), fuel, n, sp);
        let (t, ty) = s.expr(list.first(), fuel);
        let next = match found {
            Some(x) => Some(x),
            None => ty,
        };
        lemma_first_type(t, list.rest(), next, fuel, n, sp);
        assert(s.first_type(list, found, fuel) == t.first_type(list.rest(), next, fuel));
    }
}

#[verifier::spinoff_prover]
pub proof fn lemma_block_value(
    s: State,
    list: List<Stmt>,
    last: Option<TypeId>,
    fuel: nat,
    n: Symbol,
    sp: Span,
)
    ensures
        follows(
            s,
            s.block_value(list, last, fuel).0,
            n,
            sp,
            in_stmts(list, Word::Bound(n)),
            in_stmts(list, Word::Used(n, sp)),
        ),
    decreases fuel, list, 3nat,
{
    reveal(State::block_value);
    reveal(State::expr);
    reveal(State::stmt);
    if list is Cons {
        match list.first() {
            Stmt::Expression(e) => {
                lemma_expr(s, of(e), fuel, n, sp);
                let (t, ty) = s.expr(of(e), fuel);
                lemma_block_value(t, list.rest(), ty, fuel, n, sp);
                assert(in_stmt(list.first(), Word::Bound(n)) == in_expr(of(e), Word::Bound(n)));
                assert(in_stmt(list.first(), Word::Used(n, sp)) == in_expr(of(e), Word::Used(n, sp)));
                assert(s.block_value(list, last, fuel) == t.block_value(list.rest(), ty, fuel));
            },
            _ => {
                lemma_stmt(s, list.first(), fuel, n, sp);
                let t = s.stmt(list.first(), fuel);
                lemma_block_value(t, list.rest(), last, fuel, n, sp);
                assert(s.block_value(list, last, fuel) == t.block_value(list.rest(), last, fuel));
            },
        }
    }
}

#[verifier::spinoff_prover]
pub proof fn lemma_bind_params(s: State, list: List<Param>, fuel: nat, n: Symbol, sp: Span)
    ensures
        follows(
            s,
            s.bind_params(list, fuel),
            n,
            sp,
            in_params(list, Word::Bound(n)),
            in_params(list, Word::Used(n, sp)),
        ),
    decreases fuel, list, 3nat,
{
    reveal(State::bind_params);
    reveal(State::optional_type);
    if list is Cons {
        lemma_optional_type(s, list.first().ty, fuel, n, sp);
        let (t, ty) = s.optional_type(list.first().ty, fuel);
        lemma_bind(t, list.first().name, ty, false, list.first().span, n, sp);
        lemma_bind_params(t.bind(list.first().name, ty, false, list.first().span), list.rest(), fuel, n, sp);
    }
}

#[verifier::spinoff_prover]
pub proof fn lemma_param_types(s: State, list: List<Param>, fuel: nat, n: Symbol, sp: Span)
    ensures
        follows(
            s,
            s.param_types(list, fuel).0,
            n,
            sp,
            in_params(list, Word::Bound(n)),
            in_params(list, Word::Used(n, sp)),
        ),
    decreases fuel, list, 3nat,
{
    reveal(State::param_types);
    reveal(State::optional_type);
    if list is Cons {
        lemma_optional_type(s, list.first().ty, fuel, n, sp);
        lemma_param_types(s.optional_type(list.first().ty, fuel).0, list.rest(), fuel, n, sp);
    }
}

#[verifier::spinoff_prover]
pub proof fn lemma_parameters(s: State, list: List<Param>, fuel: nat, n: Symbol, sp: Span)
    ensures
        follows(
            s,
            s.parameters(list, fuel).0,
            n,
            sp,
            in_params(list, Word::Bound(n)),
            in_params(list, Word::Used(n, sp)),
        ),
    decreases fuel, list, 3nat,
{
    reveal(State::parameters);
    reveal(State::optional_type);
    if list is Cons {
        lemma_optional_type(s, list.first().ty, fuel, n, sp);
        lemma_parameters(s.optional_type(list.first().ty, fuel).0, list.rest(), fuel, n, sp);
    }
}

#[verifier::spinoff_prover]
pub proof fn lemma_catches(s: State, list: List<CatchBranch>, fuel: nat, n: Symbol, sp: Span)
    ensures
        follows(
            s,
            s.catches(list, fuel),
            n,
            sp,
            in_catches(list, Word::Bound(n)),
            in_catches(list, Word::Used(n, sp)),
        ),
    decreases fuel, list, 3nat,
{
    reveal(State::catches);
    reveal(State::pattern);
    reveal(State::block);
    if list is Cons {
        lemma_pattern(s, of(list.first().pattern), fuel, n, sp);
        let t = s.pattern(of(list.first().pattern), fuel);
        let u = match list.first().bind {
            Some(name) => t.bind(name, t.error(), false, list.first().span),
            None => t,
        };
        if let Some(name) = list.first().bind {
            lemma_bind(t, name, t.error(), false, list.first().span, n, sp);
        }
        lemma_block(u, list.first().body, fuel, n, sp);
        lemma_catches(u.block(list.first().body, fuel), list.rest(), fuel, n, sp);
    }
}

#[verifier::spinoff_prover]
pub proof fn lemma_arms(s: State, list: List<MatchArm>, fuel: nat, n: Symbol, sp: Span)
    ensures
        follows(
            s,
            s.arms(list, fuel),
            n,
            sp,
            in_arms(list, Word::Bound(n)),
            in_arms(list, Word::Used(n, sp)),
        ),
    decreases fuel, list, 3nat,
{
    reveal(State::arms);
    reveal(State::pattern);
    reveal(State::optional_expr);
    reveal(State::expr);
    if list is Cons {
        lemma_pattern(s, of(list.first().pattern), fuel, n, sp);
        let t = s.pattern(of(list.first().pattern), fuel);
        lemma_optional_expr(t, list.first().guard, fuel, n, sp);
        let u = t.optional_expr(list.first().guard, fuel);
        lemma_expr(u, of(list.first().body), fuel, n, sp);
        lemma_arms(u.expr(of(list.first().body), fuel).0, list.rest(), fuel, n, sp);
    }
}

#[verifier::spinoff_prover]
pub proof fn lemma_stmts(s: State, list: List<Stmt>, fuel: nat, n: Symbol, sp: Span)
    ensures
        follows(
            s,
            s.stmts(list, fuel),
            n,
            sp,
            in_stmts(list, Word::Bound(n)),
            in_stmts(list, Word::Used(n, sp)),
        ),
    decreases fuel, list, 3nat,
{
    reveal(State::stmts);
    reveal(State::stmt);
    if list is Cons {
        lemma_stmt(s, list.first(), fuel, n, sp);
        lemma_stmts(s.stmt(list.first(), fuel), list.rest(), fuel, n, sp);
    }
}

#[verifier::spinoff_prover]
pub proof fn lemma_patterns(s: State, list: List<Pattern>, fuel: nat, n: Symbol, sp: Span)
    ensures
        follows(
            s,
            s.patterns(list, fuel),
            n,
            sp,
            in_patterns(list, Word::Bound(n)),
            in_patterns(list, Word::Used(n, sp)),
        ),
    decreases fuel, list, 3nat,
{
    reveal(State::patterns);
    reveal(State::pattern);
    if list is Cons {
        lemma_pattern(s, list.first(), fuel, n, sp);
        lemma_patterns(s.pattern(list.first(), fuel), list.rest(), fuel, n, sp);
    }
}

#[verifier::spinoff_prover]
pub proof fn lemma_field_patterns(s: State, list: List<(Symbol, Pattern)>, fuel: nat, n: Symbol, sp: Span)
    ensures
        follows(
            s,
            s.field_patterns(list, fuel),
            n,
            sp,
            in_field_patterns(list, Word::Bound(n)),
            in_field_patterns(list, Word::Used(n, sp)),
        ),
    decreases fuel, list, 3nat,
{
    reveal(State::field_patterns);
    reveal(State::pattern);
    if list is Cons {
        lemma_pattern(s, list.first().1, fuel, n, sp);
        lemma_field_patterns(s.pattern(list.first().1, fuel), list.rest(), fuel, n, sp);
    }
}

#[verifier::spinoff_prover]
pub proof fn lemma_block(s: State, list: List<Stmt>, fuel: nat, n: Symbol, sp: Span)
    ensures
        follows(
            s,
            s.block(list, fuel),
            n,
            sp,
            in_stmts(list, Word::Bound(n)),
            in_stmts(list, Word::Used(n, sp)),
        ),
    decreases fuel, list, 4nat,
{
    reveal(State::block);
    reveal(State::stmts);
    lemma_enter(s, n);
    lemma_stmts(s.enter(), list, fuel, n, sp);
    lemma_exit(s.enter().stmts(list, fuel), n);
}

#[verifier::spinoff_prover]
#[verifier::rlimit(40)]
pub proof fn lemma_pattern(s: State, p: Pattern, fuel: nat, n: Symbol, sp: Span)
    ensures
        follows(
            s,
            s.pattern(p, fuel),
            n,
            sp,
            in_pattern(p, Word::Bound(n)),
            in_pattern(p, Word::Used(n, sp)),
        ),
    decreases fuel, p, 3nat,
{
    reveal(State::pattern);
    reveal(State::expr);
    reveal(State::patterns);
    reveal(State::field_patterns);
    reveal(State::optional_pattern);
    match p {
        Pattern::Ident(name, at) => {
            lemma_bind(s, name, s.error(), false, at, n, sp);
        },
        Pattern::Literal(e) => {
            lemma_expr(s, of(e), fuel, n, sp);
        },
        Pattern::Tuple(ps) => {
            lemma_patterns(s, ps, fuel, n, sp);
        },
        Pattern::Struct { fields } => {
            lemma_field_patterns(s, fields, fuel, n, sp);
        },
        Pattern::Enum { inner } => {
            lemma_optional_pattern(s, inner, fuel, n, sp);
        },
        Pattern::Or(ps) => {
            lemma_patterns(s, ps, fuel, n, sp);
        },
        Pattern::Slice(before, slice, after) => {
            lemma_patterns(s, before, fuel, n, sp);
            let t = s.patterns(before, fuel);
            lemma_optional_pattern(t, slice, fuel, n, sp);
            lemma_patterns(t.optional_pattern(slice, fuel), after, fuel, n, sp);
        },
        _ => {},
    }
}

#[verifier::spinoff_prover]
#[verifier::rlimit(40)]
pub proof fn lemma_expr_inner(s: State, e: Expr, fuel: nat, n: Symbol, sp: Span)
    requires
        e is UnaryOp || e is Move || e is Try || e is LeaveWith || e is Await || e is PolyBox || e is PolyUnbox || e is Old || e is FieldAccess || e is AttrAccess,
    ensures
        follows(
            s,
            s.expr(e, fuel).0,
            n,
            sp,
            in_expr(e, Word::Bound(n)),
            in_expr(e, Word::Used(n, sp)),
        ),
    decreases fuel, e, 2nat,
{
    reveal(State::expr);
    match e {
        Expr::UnaryOp { expr } => {
            lemma_expr(s, of(expr), fuel, n, sp);
        },
        Expr::Move(expr) => {
            lemma_expr(s, of(expr), fuel, n, sp);
        },
        Expr::Try { expr } => {
            lemma_expr(s, of(expr), fuel, n, sp);
        },
        Expr::LeaveWith { expr } => {
            lemma_expr(s, of(expr), fuel, n, sp);
        },
        Expr::Await { expr } => {
            lemma_expr(s, of(expr), fuel, n, sp);
        },
        Expr::PolyBox { expr } => {
            lemma_expr(s, of(expr), fuel, n, sp);
        },
        Expr::PolyUnbox { expr } => {
            lemma_expr(s, of(expr), fuel, n, sp);
        },
        Expr::Old(expr) => {
            lemma_expr(s, of(expr), fuel, n, sp);
        },
        Expr::FieldAccess { base, field } => {
            lemma_expr(s, of(base), fuel, n, sp);
        },
        Expr::AttrAccess { base, attr } => {
            lemma_expr(s, of(base), fuel, n, sp);
        },
        _ => {},
    }
}

#[verifier::spinoff_prover]
#[verifier::rlimit(40)]
pub proof fn lemma_expr_pair(s: State, e: Expr, fuel: nat, n: Symbol, sp: Span)
    requires
        e is BinaryOp || e is Index || e is Quantified,
    ensures
        follows(
            s,
            s.expr(e, fuel).0,
            n,
            sp,
            in_expr(e, Word::Bound(n)),
            in_expr(e, Word::Used(n, sp)),
        ),
    decreases fuel, e, 2nat,
{
    reveal(State::expr);
    match e {
        Expr::BinaryOp { left, right } => {
            lemma_expr(s, of(left), fuel, n, sp);
            lemma_expr(s.expr(of(left), fuel).0, of(right), fuel, n, sp);
        },
        Expr::Index { base, index } => {
            lemma_expr(s, of(base), fuel, n, sp);
            lemma_expr(s.expr(of(base), fuel).0, of(index), fuel, n, sp);
        },
        Expr::Quantified { range, body } => {
            lemma_expr(s, of(range), fuel, n, sp);
            lemma_expr(s.expr(of(range), fuel).0, of(body), fuel, n, sp);
        },
        _ => {},
    }
}

#[verifier::spinoff_prover]
#[verifier::rlimit(40)]
pub proof fn lemma_expr_types_of(s: State, e: Expr, fuel: nat, n: Symbol, sp: Span)
    requires
        e is TypeAnnotated || e is Cast || e is TypeInfo || e is LayoutOf,
    ensures
        follows(
            s,
            s.expr(e, fuel).0,
            n,
            sp,
            in_expr(e, Word::Bound(n)),
            in_expr(e, Word::Used(n, sp)),
        ),
    decreases fuel, e, 2nat,
{
    reveal(State::expr);
    reveal(State::type_expr);
    match e {
        Expr::TypeAnnotated { expr, ty } => {
            lemma_type(s, of(ty), fuel, n, sp);
            lemma_expr(s.type_expr(of(ty), fuel).0, of(expr), fuel, n, sp);
        },
        Expr::Cast { expr, ty } => {
            lemma_expr(s, of(expr), fuel, n, sp);
            lemma_type(s.expr(of(expr), fuel).0, of(ty), fuel, n, sp);
        },
        Expr::TypeInfo(ty) => {
            lemma_type(s, of(ty), fuel, n, sp);
        },
        Expr::LayoutOf(ty) => {
            lemma_type(s, of(ty), fuel, n, sp);
        },
        _ => {},
    }
}

#[verifier::spinoff_prover]
#[verifier::rlimit(40)]
pub proof fn lemma_expr_list(s: State, e: Expr, fuel: nat, n: Symbol, sp: Span)
    requires
        e is Call || e is Range || e is StructLit || e is EnumLit || e is Tuple || e is Array,
    ensures
        follows(
            s,
            s.expr(e, fuel).0,
            n,
            sp,
            in_expr(e, Word::Bound(n)),
            in_expr(e, Word::Used(n, sp)),
        ),
    decreases fuel, e, 2nat,
{
    reveal(State::expr);
    reveal(State::exprs);
    reveal(State::optional_expr);
    reveal(State::field_values);
    reveal(State::expr_types);
    reveal(State::first_type);
    match e {
        Expr::Call { callee, args } => {
            lemma_expr(s, of(callee), fuel, n, sp);
            lemma_exprs(s.expr(of(callee), fuel).0, args, fuel, n, sp);
        },
        Expr::Range { start, end } => {
            lemma_optional_expr(s, start, fuel, n, sp);
            lemma_optional_expr(s.optional_expr(start, fuel), end, fuel, n, sp);
        },
        Expr::StructLit { path, fields } => {
            lemma_field_values(s, fields, fuel, n, sp);
        },
        Expr::EnumLit { path, variant, payload } => {
            lemma_optional_expr(s, payload, fuel, n, sp);
        },
        Expr::Tuple(es) => {
            lemma_expr_types(s, es, fuel, n, sp);
        },
        Expr::Array(es) => {
            lemma_first_type(s, es, None, fuel, n, sp);
        },
        _ => {},
    }
}

#[verifier::spinoff_prover]
#[verifier::rlimit(40)]
pub proof fn lemma_expr_closure(s: State, e: Expr, fuel: nat, n: Symbol, sp: Span)
    requires
        e is Closure,
    ensures
        follows(
            s,
            s.expr(e, fuel).0,
            n,
            sp,
            in_expr(e, Word::Bound(n)),
            in_expr(e, Word::Used(n, sp)),
        ),
    decreases fuel, e, 2nat,
{
    reveal(State::expr);
    reveal(State::bind_params);
    reveal(State::stmts);
    reveal(State::returned);
    reveal(State::param_types);
    match e {
        Expr::Closure { params, return_type, body } => {
            let a = s.enter();
            lemma_enter(s, n);
            lemma_bind_params(a, params, fuel, n, sp);
            let b = a.bind_params(params, fuel);
            lemma_stmts(b, body, fuel, n, sp);
            let c = b.stmts(body, fuel);
            lemma_exit(c, n);
            let d = c.exit();
            lemma_returned(d, return_type, fuel, n, sp);
            let f = d.returned(return_type, fuel).0;
            lemma_param_types(f, params, fuel, n, sp);
            let g = f.param_types(params, fuel).0;
            assert(s.expr(e, fuel).0.symbols == g.symbols);
            assert(s.expr(e, fuel).0.diagnostics == g.diagnostics);
        },
        _ => {},
    }
}

#[verifier::spinoff_prover]
#[verifier::rlimit(40)]
pub proof fn lemma_expr_control(s: State, e: Expr, fuel: nat, n: Symbol, sp: Span)
    requires
        e is UnsafeBlock || e is Catch || e is If || e is IfLet || e is Match || e is Block || e is Task,
    ensures
        follows(
            s,
            s.expr(e, fuel).0,
            n,
            sp,
            in_expr(e, Word::Bound(n)),
            in_expr(e, Word::Used(n, sp)),
        ),
    decreases fuel, e, 2nat,
{
    reveal(State::expr);
    reveal(State::block);
    reveal(State::catches);
    reveal(State::optional_block);
    reveal(State::pattern);
    reveal(State::arms);
    reveal(State::block_value);
    reveal(State::stmts);
    match e {
        Expr::UnsafeBlock { body } => {
            lemma_block(s, body, fuel, n, sp);
        },
        Expr::Catch { expr, branches } => {
            lemma_expr(s, of(expr), fuel, n, sp);
            lemma_catches(s.expr(of(expr), fuel).0, branches, fuel, n, sp);
        },
        Expr::If { cond, then_branch, else_branch } => {
            lemma_expr(s, of(cond), fuel, n, sp);
            let t = s.expr(of(cond), fuel).0;
            lemma_block(t, then_branch, fuel, n, sp);
            lemma_optional_block(t.block(then_branch, fuel), else_branch, fuel, n, sp);
        },
        Expr::IfLet { pattern, scrutinee, then_branch, else_branch } => {
            lemma_expr(s, of(scrutinee), fuel, n, sp);
            let t = s.expr(of(scrutinee), fuel).0;
            lemma_pattern(t, of(pattern), fuel, n, sp);
            let u = t.pattern(of(pattern), fuel);
            lemma_block(u, then_branch, fuel, n, sp);
            lemma_optional_block(u.block(then_branch, fuel), else_branch, fuel, n, sp);
        },
        Expr::Match { scrutinee, arms } => {
            lemma_expr(s, of(scrutinee), fuel, n, sp);
            lemma_arms(s.expr(of(scrutinee), fuel).0, arms, fuel, n, sp);
        },
        Expr::Block(stmts) => {
            lemma_enter(s, n);
            lemma_block_value(s.enter(), stmts, None, fuel, n, sp);
            lemma_exit(s.enter().block_value(stmts, None, fuel).0, n);
        },
        Expr::Task { body } => {
            lemma_stmts(s, body, fuel, n, sp);
        },
        _ => {},
    }
}

#[verifier::spinoff_prover]
#[verifier::rlimit(40)]
pub proof fn lemma_expr(s: State, e: Expr, fuel: nat, n: Symbol, sp: Span)
    ensures
        follows(
            s,
            s.expr(e, fuel).0,
            n,
            sp,
            in_expr(e, Word::Bound(n)),
            in_expr(e, Word::Used(n, sp)),
        ),
    decreases fuel, e, 3nat,
{
    if e is UnaryOp || e is Move || e is Try || e is LeaveWith || e is Await || e is PolyBox || e is PolyUnbox || e is Old || e is FieldAccess || e is AttrAccess {
        lemma_expr_inner(s, e, fuel, n, sp);
    } else if e is BinaryOp || e is Index || e is Quantified {
        lemma_expr_pair(s, e, fuel, n, sp);
    } else if e is TypeAnnotated || e is Cast || e is TypeInfo || e is LayoutOf {
        lemma_expr_types_of(s, e, fuel, n, sp);
    } else if e is Call || e is Range || e is StructLit || e is EnumLit || e is Tuple || e is Array {
        lemma_expr_list(s, e, fuel, n, sp);
    } else if e is Closure {
        lemma_expr_closure(s, e, fuel, n, sp);
    } else if e is UnsafeBlock || e is Catch || e is If || e is IfLet || e is Match || e is Block
        || e is Task {
        lemma_expr_control(s, e, fuel, n, sp);
    } else {
        reveal(State::expr);
        if let Expr::Ident(name, at) = e {
            lemma_ident(s, name, at, n, sp);
        }
    }
}

// ---------------------------------------------------------------------------
// Statements
// ---------------------------------------------------------------------------

pub proof fn lemma_captures(s: State, caps: List<TypeParam>, at: Span, n: Symbol, sp: Span)
    ensures
        follows(
            s,
            s.captures(caps, at),
            n,
            sp,
            in_captures(caps, Word::Bound(n)),
            in_captures(caps, Word::Used(n, sp)),
        ),
    decreases caps,
{
    if caps is Cons {
        let (t, d) = s.define();
        let name = caps.first().name;
        let b = Rc::new(t.capture_binding(d, at));
        let u = State { symbols: t.symbols.with_type(name, b, at).0, ..t }.with_type_id(name, d);
        assert(s.captures(caps, at) == u.captures(caps.rest(), at));
        lemma_captures(u, caps.rest(), at, n, sp);
        if name != n {
            assert(!in_optional_type(b.alias_ast, Word::Bound(n)));
            lemma_with_type(t, name, b, at, n);
        }
        lemma_no_capture(caps, n, sp);
    }
}

pub proof fn lemma_no_capture(caps: List<TypeParam>, n: Symbol, sp: Span)
    ensures
        !in_captures(caps, Word::Used(n, sp)),
    decreases caps,
{
    if caps is Cons {
        lemma_no_capture(caps.rest(), n, sp);
    }
}

#[verifier::spinoff_prover]
#[verifier::rlimit(40)]
pub proof fn lemma_variable(s: State, stmt: Stmt, fuel: nat, n: Symbol, sp: Span)
    requires
        stmt is VariableDef,
    ensures
        follows(
            s,
            s.stmt(stmt, fuel),
            n,
            sp,
            in_stmt(stmt, Word::Bound(n)),
            in_stmt(stmt, Word::Used(n, sp)),
        ),
    decreases fuel, stmt, 5nat,
{
    reveal(State::stmt);
    reveal(State::type_expr);
    reveal(State::type_of_expr);
    reveal(State::optional_pattern);
    reveal(State::optional_block);
    if let Stmt::VariableDef {
        mutable,
        name,
        pattern,
        ty,
        value,
        else_branch,
        span,
        type_captures,
    } = stmt {
        let a = match name {
            Some(x) => {
                let (t, id) = match ty {
                    Some(t) => s.type_expr(of(t), fuel),
                    None => match value {
                        Some(v) => s.type_of_expr(of(v), fuel),
                        None => (s.report(DiagKind::CannotInfer, Some(span)), s.error()),
                    },
                };
                t.bind(x, id, mutable, span)
            },
            None => s,
        };
        if let Some(x) = name {
            let (t, id) = match ty {
                Some(t) => s.type_expr(of(t), fuel),
                None => match value {
                    Some(v) => s.type_of_expr(of(v), fuel),
                    None => (s.report(DiagKind::CannotInfer, Some(span)), s.error()),
                },
            };
            if let Some(y) = ty {
                lemma_type(s, of(y), fuel, n, sp);
            } else if let Some(v) = value {
                lemma_type_of_expr(s, of(v), fuel, n, sp);
                assert(in_optional_expr(value, Word::Bound(n)) == in_expr(of(v), Word::Bound(n)));
                assert(in_optional_expr(value, Word::Used(n, sp)) == in_expr(
                    of(v),
                    Word::Used(n, sp),
                ));
            } else {
                assert(!in_optional_expr(value, Word::Used(n, sp)));
            }
            lemma_bind(t, x, id, mutable, span, n, sp);
        }
        let b = a.captures(type_captures, span);
        lemma_captures(a, type_captures, span, n, sp);
        let c = b.optional_pattern(pattern, fuel);
        lemma_optional_pattern(b, pattern, fuel, n, sp);
        lemma_optional_block(c, else_branch, fuel, n, sp);
        assert(s.stmt(stmt, fuel) == c.optional_block(else_branch, fuel));
    }
}

#[verifier::spinoff_prover]
#[verifier::rlimit(40)]
pub proof fn lemma_stmt_simple(s: State, stmt: Stmt, fuel: nat, n: Symbol, sp: Span)
    requires
        stmt is Expression || stmt is Return || stmt is Assign || stmt is GhostVariableDef,
    ensures
        follows(
            s,
            s.stmt(stmt, fuel),
            n,
            sp,
            in_stmt(stmt, Word::Bound(n)),
            in_stmt(stmt, Word::Used(n, sp)),
        ),
    decreases fuel, stmt, 5nat,
{
    reveal(State::stmt);
    reveal(State::expr);
    reveal(State::optional_expr);
    match stmt {
        Stmt::Expression(e) => {
            lemma_expr(s, of(e), fuel, n, sp);
        },
        Stmt::Return { value } => {
            lemma_optional_expr(s, value, fuel, n, sp);
        },
        Stmt::Assign { target, value } => {
            lemma_expr(s, of(target), fuel, n, sp);
            lemma_expr(s.expr(of(target), fuel).0, of(value), fuel, n, sp);
        },
        Stmt::GhostVariableDef { inner } => {
            lemma_stmt(s, of(inner), fuel, n, sp);
        },
        _ => {},
    }
}

#[verifier::spinoff_prover]
#[verifier::rlimit(40)]
pub proof fn lemma_stmt_block(s: State, stmt: Stmt, fuel: nat, n: Symbol, sp: Span)
    requires
        stmt is Loop || stmt is ComptimeBlock || stmt is ScopeCleanup || stmt is Unsafe || stmt is Isolate,
    ensures
        follows(
            s,
            s.stmt(stmt, fuel),
            n,
            sp,
            in_stmt(stmt, Word::Bound(n)),
            in_stmt(stmt, Word::Used(n, sp)),
        ),
    decreases fuel, stmt, 5nat,
{
    reveal(State::stmt);
    reveal(State::block);
    match stmt {
        Stmt::Loop { body } => {
            lemma_block(s, body, fuel, n, sp);
        },
        Stmt::ComptimeBlock { body } => {
            lemma_block(s, body, fuel, n, sp);
        },
        Stmt::ScopeCleanup { body } => {
            lemma_block(s, body, fuel, n, sp);
        },
        Stmt::Unsafe { body } => {
            lemma_block(s, body, fuel, n, sp);
        },
        Stmt::Isolate { body } => {
            lemma_block(s, body, fuel, n, sp);
        },
        _ => {},
    }
}

#[verifier::spinoff_prover]
#[verifier::rlimit(40)]
pub proof fn lemma_stmt_if(s: State, stmt: Stmt, fuel: nat, n: Symbol, sp: Span)
    requires
        stmt is If || stmt is IfLet,
    ensures
        follows(
            s,
            s.stmt(stmt, fuel),
            n,
            sp,
            in_stmt(stmt, Word::Bound(n)),
            in_stmt(stmt, Word::Used(n, sp)),
        ),
    decreases fuel, stmt, 5nat,
{
    reveal(State::stmt);
    reveal(State::expr);
    reveal(State::block);
    reveal(State::pattern);
    reveal(State::optional_block);
    match stmt {
        Stmt::If { cond, then_branch, else_branch } => {
            lemma_expr(s, of(cond), fuel, n, sp);
            let t = s.expr(of(cond), fuel).0;
            lemma_block(t, then_branch, fuel, n, sp);
            lemma_optional_block(t.block(then_branch, fuel), else_branch, fuel, n, sp);
        },
        Stmt::IfLet { pattern, scrutinee, then_branch, else_branch } => {
            lemma_expr(s, of(scrutinee), fuel, n, sp);
            let t = s.expr(of(scrutinee), fuel).0;
            lemma_pattern(t, of(pattern), fuel, n, sp);
            let u = t.pattern(of(pattern), fuel);
            lemma_block(u, then_branch, fuel, n, sp);
            lemma_optional_block(u.block(then_branch, fuel), else_branch, fuel, n, sp);
        },
        _ => {},
    }
}

#[verifier::spinoff_prover]
#[verifier::rlimit(40)]
pub proof fn lemma_stmt_loop(s: State, stmt: Stmt, fuel: nat, n: Symbol, sp: Span)
    requires
        stmt is While || stmt is WhileLet || stmt is For,
    ensures
        follows(
            s,
            s.stmt(stmt, fuel),
            n,
            sp,
            in_stmt(stmt, Word::Bound(n)),
            in_stmt(stmt, Word::Used(n, sp)),
        ),
    decreases fuel, stmt, 5nat,
{
    reveal(State::stmt);
    reveal(State::expr);
    reveal(State::block);
    reveal(State::pattern);
    reveal(State::optional_expr);
    match stmt {
        Stmt::While { cond, body, loop_invariant, measure } => {
            lemma_expr(s, of(cond), fuel, n, sp);
            let t = s.expr(of(cond), fuel).0;
            lemma_optional_expr(t, loop_invariant, fuel, n, sp);
            let u = t.optional_expr(loop_invariant, fuel);
            lemma_optional_expr(u, measure, fuel, n, sp);
            lemma_block(u.optional_expr(measure, fuel), body, fuel, n, sp);
        },
        Stmt::WhileLet { pattern, scrutinee, body, loop_invariant, measure } => {
            lemma_expr(s, of(scrutinee), fuel, n, sp);
            let r = s.expr(of(scrutinee), fuel).0;
            lemma_pattern(r, of(pattern), fuel, n, sp);
            let t = r.pattern(of(pattern), fuel);
            lemma_optional_expr(t, loop_invariant, fuel, n, sp);
            let u = t.optional_expr(loop_invariant, fuel);
            lemma_optional_expr(u, measure, fuel, n, sp);
            lemma_block(u.optional_expr(measure, fuel), body, fuel, n, sp);
        },
        Stmt::For { pattern, iterable, body, loop_invariant, measure } => {
            lemma_expr(s, of(iterable), fuel, n, sp);
            let r = s.expr(of(iterable), fuel).0;
            lemma_pattern(r, of(pattern), fuel, n, sp);
            let t = r.pattern(of(pattern), fuel);
            lemma_optional_expr(t, loop_invariant, fuel, n, sp);
            let u = t.optional_expr(loop_invariant, fuel);
            lemma_optional_expr(u, measure, fuel, n, sp);
            lemma_block(u.optional_expr(measure, fuel), body, fuel, n, sp);
        },
        _ => {},
    }
}

#[verifier::spinoff_prover]
#[verifier::rlimit(40)]
pub proof fn lemma_stmt(s: State, stmt: Stmt, fuel: nat, n: Symbol, sp: Span)
    ensures
        follows(
            s,
            s.stmt(stmt, fuel),
            n,
            sp,
            in_stmt(stmt, Word::Bound(n)),
            in_stmt(stmt, Word::Used(n, sp)),
        ),
    decreases fuel, stmt, 6nat,
{
    if stmt is Expression || stmt is Return || stmt is Assign || stmt is GhostVariableDef {
        lemma_stmt_simple(s, stmt, fuel, n, sp);
    } else if stmt is Loop || stmt is ComptimeBlock || stmt is ScopeCleanup || stmt is Unsafe || stmt is Isolate {
        lemma_stmt_block(s, stmt, fuel, n, sp);
    } else if stmt is If || stmt is IfLet {
        lemma_stmt_if(s, stmt, fuel, n, sp);
    } else if stmt is While || stmt is WhileLet || stmt is For {
        lemma_stmt_loop(s, stmt, fuel, n, sp);
    } else if stmt is VariableDef {
        lemma_variable(s, stmt, fuel, n, sp);
    } else if stmt is FunctionDef {
        reveal(State::stmt);
        reveal(State::item);
        reveal(State::function_def);
        lemma_function(s, stmt, fuel, n, sp);
        assert(s.stmt(stmt, fuel) == s.item(stmt, fuel));
        assert(s.item(stmt, fuel) == s.function_def(stmt, fuel));
    } else if stmt is TypeDef {
        reveal(State::stmt);
        reveal(State::item);
        reveal(State::type_def);
        lemma_type_def(s, stmt, fuel, n, sp);
        assert(s.stmt(stmt, fuel) == s.item(stmt, fuel));
        assert(s.item(stmt, fuel) == s.type_def(stmt, fuel));
    } else {
        reveal(State::stmt);
    }
}

// ---------------------------------------------------------------------------
// Functions and types
// ---------------------------------------------------------------------------

#[verifier::spinoff_prover]
#[verifier::rlimit(40)]
pub proof fn lemma_head(s: State, stmt: Stmt, fuel: nat, n: Symbol, sp: Span)
    requires
        stmt is FunctionDef,
    ensures
        follows(s, s.function_head(stmt, fuel), n, sp, in_stmt(stmt, Word::Bound(n)), false),
        is_unknown(s, n) && !in_stmt(stmt, Word::Bound(n)) && (in_params(
            stmt->FunctionDef_params,
            Word::Used(n, sp),
        ) || in_optional_type(stmt->FunctionDef_return_type, Word::Used(n, sp))) ==> is_listed(
            s.function_head(stmt, fuel).diagnostics,
            n,
            sp,
        ),
    decreases fuel, stmt, 3nat,
{
    reveal(State::function_head);
    reveal(State::parameters);
    reveal(State::returned);
    if let Stmt::FunctionDef {
        span,
        attributes,
        name,
        params,
        return_type,
        body,
        type_params,
        is_comptime,
        is_async,
        contracts,
    } = stmt {
        let (s0, def_id) = s.define();
        let r = s0.with_generics(type_params);
        lemma_generics(s0, type_params, 0, List::Nil);
        lemma_parameters(r, params, fuel, n, sp);
        let (s1, ps) = r.parameters(params, fuel);
        lemma_returned(s1, return_type, fuel, n, sp);
        let (s2, ret) = s1.returned(return_type, fuel);
        let b = Rc::new(
            FunctionBinding {
                def_id,
                signature: super::table::FunctionSignature {
                    params: ps,
                    return_type: ret,
                    type_params,
                },
                is_comptime,
                is_async,
                is_pure: super::state::has_attribute(attributes, crate::symbol::PURE),
                is_ieee_contracts: super::state::has_attribute(
                    attributes,
                    crate::symbol::IEEE_CONTRACTS,
                ),
                hints: super::state::hints(attributes),
                contracts,
                attributes,
            },
        );
        let s3 = s2.note(s2.symbols.with_function_at_root(name, b, span));
        if name != n {
            lemma_at_root(s2, name, b, span, n);
        }
        assert(s.function_head(stmt, fuel).symbols == s3.symbols);
        assert(s.function_head(stmt, fuel).diagnostics == s3.diagnostics);
    }
}

#[verifier::spinoff_prover]
#[verifier::rlimit(40)]
pub proof fn lemma_body(s: State, stmt: Stmt, fuel: nat, n: Symbol, sp: Span)
    requires
        stmt is FunctionDef,
    ensures
        follows(
            s,
            s.function_body(stmt, fuel),
            n,
            sp,
            in_stmt(stmt, Word::Bound(n)),
            in_params(stmt->FunctionDef_params, Word::Used(n, sp)) || in_optional_stmts(
                stmt->FunctionDef_body,
                Word::Used(n, sp),
            ),
        ),
    decreases fuel, stmt, 3nat,
{
    reveal(State::function_body);
    reveal(State::bind_params);
    reveal(State::stmts);
    if let Stmt::FunctionDef {
        span: _,
        attributes: _,
        name: _,
        params,
        return_type: _,
        body,
        type_params: _,
        is_comptime: _,
        is_async: _,
        contracts: _,
    } = stmt {
        lemma_enter(s, n);
        let a = s.enter();
        lemma_bind_params(a, params, fuel, n, sp);
        let b = a.bind_params(params, fuel);
        let c = match body {
            Some(stmts) => b.stmts(stmts, fuel),
            None => b,
        };
        if let Some(stmts) = body {
            lemma_stmts(b, stmts, fuel, n, sp);
            assert(in_optional_stmts(body, Word::Bound(n)) == in_stmts(stmts, Word::Bound(n)));
            assert(in_optional_stmts(body, Word::Used(n, sp)) == in_stmts(
                stmts,
                Word::Used(n, sp),
            ));
        }
        lemma_exit(State { impl_params: None, ..c }, n);
        assert(s.function_body(stmt, fuel) == State { impl_params: None, ..c }.exit());
    }
}

pub proof fn lemma_function(s: State, stmt: Stmt, fuel: nat, n: Symbol, sp: Span)
    requires
        stmt is FunctionDef,
    ensures
        follows(
            s,
            s.function_def(stmt, fuel),
            n,
            sp,
            in_stmt(stmt, Word::Bound(n)),
            in_stmt(stmt, Word::Used(n, sp)),
        ),
    decreases fuel, stmt, 4nat,
{
    reveal(State::function_def);
    reveal(State::function_head);
    reveal(State::function_body);
    lemma_head(s, stmt, fuel, n, sp);
    lemma_body(s.function_head(stmt, fuel), stmt, fuel, n, sp);
}

#[verifier::spinoff_prover]
pub proof fn lemma_fields(s: State, list: List<FieldDef>, fuel: nat, n: Symbol, sp: Span)
    ensures
        follows(
            s,
            s.struct_fields(list, fuel).0,
            n,
            sp,
            in_fields(list, Word::Bound(n)),
            in_fields(list, Word::Used(n, sp)),
        ),
    decreases fuel, list, 3nat,
{
    reveal(State::struct_fields);
    reveal(State::type_expr);
    if list is Cons {
        lemma_type(s, of(list.first().ty), fuel, n, sp);
        lemma_fields(s.type_expr(of(list.first().ty), fuel).0, list.rest(), fuel, n, sp);
    }
}

#[verifier::spinoff_prover]
pub proof fn lemma_payloads(s: State, list: List<VariantDef>, fuel: nat, n: Symbol, sp: Span)
    ensures
        follows(s, s.payloads(list, fuel).0, n, sp, in_payloads(list, Word::Bound(n)), false),
    decreases fuel, list, 3nat,
{
    reveal(State::payloads);
    reveal(State::type_expr);
    if list is Cons {
        if let Some(p) = list.first().payload {
            lemma_type(s, of(p), fuel, n, sp);
            let t = State { diagnostics: s.diagnostics, ..s.type_expr(of(p), fuel).0 };
            assert(in_optional_type(list.first().payload, Word::Bound(n)) == in_type(
                of(p),
                Word::Bound(n),
            ));
            lemma_payloads(t, list.rest(), fuel, n, sp);
        } else {
            lemma_payloads(s, list.rest(), fuel, n, sp);
        }
    }
}

/// Only reports are added.
pub open spec fn only_reports(a: State, b: State, n: Symbol, sp: Span) -> bool {
    &&& b.symbols == a.symbols
    &&& is_listed(a.diagnostics, n, sp) ==> is_listed(b.diagnostics, n, sp)
}

pub proof fn lemma_when_names(
    s: State,
    eqs: List<(Symbol, Rc<Type>)>,
    params: List<TypeParam>,
    names: List<Symbol>,
    at: Span,
    n: Symbol,
    sp: Span,
)
    ensures
        only_reports(s, s.when_names(eqs, params, names, at), n, sp),
    decreases eqs,
{
    if eqs is Cons {
        let (name, ty) = eqs.first();
        let t = if syntax::is_param(params, name) || syntax::has_name(names, name) {
            s
        } else {
            s.report(
                DiagKind::UnknownWhenParam(name, super::state::param_names(params, names)),
                Some(at),
            )
        };
        let u = match syntax::param_in_type(of(ty), params) {
            Some(bad) => t.report(
                DiagKind::WhenRefersToParam(bad),
                Some(super::state::type_span(of(ty))),
            ),
            None => t,
        };
        assert(is_listed(s.diagnostics, n, sp) ==> is_listed(t.diagnostics, n, sp));
        assert(is_listed(t.diagnostics, n, sp) ==> is_listed(u.diagnostics, n, sp));
        lemma_when_names(u, eqs.rest(), params, names, at, n, sp);
        assert(s.when_names(eqs, params, names, at) == u.when_names(
            eqs.rest(),
            params,
            names,
            at,
        ));
    }
}

pub proof fn lemma_exists_names(
    s: State,
    names: List<Symbol>,
    params: List<TypeParam>,
    at: Span,
    n: Symbol,
    sp: Span,
)
    ensures
        only_reports(s, s.exists_names(names, params, at), n, sp),
    decreases names,
{
    if names is Cons {
        let t = if syntax::is_param(params, names.first()) {
            s.report(DiagKind::ExistsShadows(names.first()), Some(at))
        } else {
            s
        };
        lemma_exists_names(t, names.rest(), params, at, n, sp);
    }
}

pub proof fn lemma_contradictions_with(
    s: State,
    first: (Symbol, Rc<Type>),
    later: List<(Symbol, Rc<Type>)>,
    names: List<Symbol>,
    n: Symbol,
    sp: Span,
)
    ensures
        only_reports(s, s.contradictions_with(first, later, names), n, sp),
    decreases later,
{
    if later is Cons {
        let (name, ty) = later.first();
        let t = if name == first.0 && syntax::concrete(of(first.1), names, s.symbols)
            && syntax::concrete(of(ty), names, s.symbols) && syntax::types_differ(
            of(first.1),
            of(ty),
            s.symbols,
        ) {
            s.report(
                DiagKind::Contradictory(name, first.1, ty),
                Some(super::state::type_span(of(ty))),
            )
        } else {
            s
        };
        lemma_contradictions_with(t, first, later.rest(), names, n, sp);
    }
}

pub proof fn lemma_contradictions(
    s: State,
    eqs: List<(Symbol, Rc<Type>)>,
    names: List<Symbol>,
    n: Symbol,
    sp: Span,
)
    ensures
        only_reports(s, s.contradictions(eqs, names), n, sp),
    decreases eqs,
{
    if eqs is Cons {
        lemma_contradictions_with(s, eqs.first(), eqs.rest(), names, n, sp);
        lemma_contradictions(
            s.contradictions_with(eqs.first(), eqs.rest(), names),
            eqs.rest(),
            names,
            n,
            sp,
        );
    }
}

pub proof fn lemma_variant_checks(
    s: State,
    variants: List<VariantDef>,
    params: List<TypeParam>,
    at: Span,
    n: Symbol,
    sp: Span,
)
    ensures
        only_reports(s, s.variant_checks(variants, params, at), n, sp),
    decreases variants,
{
    if variants is Cons {
        let v = variants.first();
        lemma_when_names(s, v.eq_spec, params, v.exists_params, at, n, sp);
        let a = s.when_names(v.eq_spec, params, v.exists_params, at);
        lemma_exists_names(a, v.exists_params, params, at, n, sp);
        let b = a.exists_names(v.exists_params, params, at);
        lemma_contradictions(b, v.eq_spec, v.exists_params, n, sp);
        let c = b.contradictions(v.eq_spec, v.exists_params);
        lemma_variant_checks(c, variants.rest(), params, at, n, sp);
    }
}

pub proof fn lemma_default_checks(
    s: State,
    mods: List<crate::ast::TypeModifier>,
    at: Span,
    n: Symbol,
    sp: Span,
)
    ensures
        only_reports(s, s.default_checks(mods, at), n, sp),
    decreases mods,
{
    if mods is Cons {
        let t = match mods.first() {
            crate::ast::TypeModifier::Default(_) => s.report(DiagKind::DefaultOnGeneric, Some(at)),
            _ => s,
        };
        lemma_default_checks(t, mods.rest(), at, n, sp);
    }
}

pub proof fn lemma_layout_attrs(
    s: State,
    attrs: List<crate::ast::Attribute>,
    lay: table::Layout,
    n: Symbol,
    sp: Span,
)
    ensures
        only_reports(s, s.layout_attrs(attrs, lay).0, n, sp),
    decreases attrs,
{
    if attrs is Cons {
        let (t, l) = s.layout_attr(attrs.first(), lay);
        assert(only_reports(s, t, n, sp));
        lemma_layout_attrs(t, attrs.rest(), l, n, sp);
    }
}

#[verifier::spinoff_prover]
#[verifier::rlimit(40)]
pub proof fn lemma_definition(
    s: State,
    def: TypeDefinition,
    params: List<TypeParam>,
    at: Span,
    fuel: nat,
    n: Symbol,
    sp: Span,
)
    ensures
        follows(
            s,
            s.definition(def, params, at, fuel).0,
            n,
            sp,
            in_definition(def, Word::Bound(n)),
            in_definition(def, Word::Used(n, sp)),
        ),
        !in_definition(def, Word::Bound(n)) ==> !in_optional_type(
            s.definition(def, params, at, fuel).1.alias_ast,
            Word::Bound(n),
        ),
    decreases fuel, def, 3nat,
{
    reveal(State::definition);
    reveal(State::struct_fields);
    reveal(State::payloads);
    match def {
        TypeDefinition::Struct(fields) => {
            lemma_fields(s, fields, fuel, n, sp);
        },
        TypeDefinition::Enum(variants, missing, mods) => {
            lemma_payloads(s, variants, fuel, n, sp);
            let t = s.payloads(variants, fuel).0;
            lemma_variant_checks(t, variants, params, at, n, sp);
            lemma_default_checks(t.variant_checks(variants, params, at), mods, at, n, sp);
        },
        _ => {},
    }
}

#[verifier::spinoff_prover]
#[verifier::rlimit(60)]
pub proof fn lemma_type_def(s: State, stmt: Stmt, fuel: nat, n: Symbol, sp: Span)
    requires
        stmt is TypeDef,
    ensures
        follows(
            s,
            s.type_def(stmt, fuel),
            n,
            sp,
            in_stmt(stmt, Word::Bound(n)),
            in_stmt(stmt, Word::Used(n, sp)),
        ),
    decreases fuel, stmt, 4nat,
{
    reveal(State::type_def);
    reveal(State::definition);
    if let Stmt::TypeDef { span, attributes, name, params, definition } = stmt {
        let (s0, def_id) = s.define();
        let s1 = s0.with_type_id(name, def_id);
        let r = s1.with_generics(params);
        lemma_generics(s1, params, 0, List::Nil);
        lemma_definition(r, of(definition), params, span, fuel, n, sp);
        let (s2, body) = r.definition(of(definition), params, span, fuel);
        let lay = super::state::no_layout(attributes);
        lemma_layout_attrs(s2, attributes, lay, n, sp);
        let (s3, layout) = s2.layout_attrs(attributes, lay);
        let kind = super::state::kind_of(of(definition));
        let b = Rc::new(
            TypeBinding {
                def_id,
                params,
                kind,
                span,
                alias_ast: body.alias_ast,
                attributes,
                fields: body.fields,
                variants: body.variants,
                default_value: body.default_value,
                no_default: body.no_default,
                crate_id: s3.symbols.local_crate_id,
                missing_match: body.missing_match,
                exhaustive: super::state::has_attribute(attributes, crate::symbol::EXHAUSTIVE),
                layout,
            },
        );
        let s5 = s3.note(s3.symbols.with_type(name, b, span));
        if name != n && !in_definition(of(definition), Word::Bound(n)) {
            lemma_with_type(s3, name, b, span, n);
        }
        let t = s.type_def(stmt, fuel);
        assert(t.symbols.scopes == s5.symbols.scopes);
        assert(t.symbols.type_defs == s5.symbols.type_defs);
        assert(t.diagnostics == s5.diagnostics);
    }
}

} // verus!
