//! The syntax tree of a program.
use crate::list::{list_option, List};
use crate::share::{share, share_option};
use crate::symbol;
use crate::symbol::{Interner, Span, Symbol};
use crate::text;
use std::rc::Rc;
use vstd::prelude::*;

verus! {

/// A literal.
#[derive(Debug)]
pub enum Literal {
    Int(u128),
    Float,
    Char(char),
    Text(Rc<String>),
    Bytes(List<u8>),
    Bool(bool),
}

/// An expression.
#[derive(Debug)]
pub enum Expr {
    Literal(Literal, Span),
    Ident(Symbol, Span),
    TypeAnnotated { expr: Rc<Expr>, ty: Rc<Type> },
    BinaryOp { left: Rc<Expr>, right: Rc<Expr> },
    UnaryOp { expr: Rc<Expr> },
    Call { callee: Rc<Expr>, args: List<Expr> },
    Index { base: Rc<Expr>, index: Rc<Expr> },
    FieldAccess { base: Rc<Expr>, field: Symbol },
    AttrAccess { base: Rc<Expr>, attr: Symbol },
    Cast { expr: Rc<Expr>, ty: Rc<Type> },
    Range { start: Option<Rc<Expr>>, end: Option<Rc<Expr>> },
    StructLit { path: List<Symbol>, fields: List<(Symbol, Expr)> },
    EnumLit { path: List<Symbol>, variant: Symbol, payload: Option<Rc<Expr>> },
    Move(Rc<Expr>),
    Tuple(List<Expr>),
    Array(List<Expr>),
    Closure { params: List<Param>, return_type: Option<Rc<Type>>, body: List<Stmt> },
    Try { expr: Rc<Expr> },
    UnsafeBlock { body: List<Stmt> },
    Catch { expr: Rc<Expr>, branches: List<CatchBranch> },
    LeaveWith { expr: Rc<Expr> },
    Await { expr: Rc<Expr> },
    If { cond: Rc<Expr>, then_branch: List<Stmt>, else_branch: Option<List<Stmt>> },
    IfLet {
        pattern: Rc<Pattern>,
        scrutinee: Rc<Expr>,
        then_branch: List<Stmt>,
        else_branch: Option<List<Stmt>>,
    },
    Match { scrutinee: Rc<Expr>, arms: List<MatchArm> },
    Block(List<Stmt>),
    Quantified { range: Rc<Expr>, body: Rc<Expr> },
    PolyBox { expr: Rc<Expr> },
    PolyUnbox { expr: Rc<Expr> },
    Old(Rc<Expr>),
    Path(List<Symbol>),
    Error,
    TypeInfo(Rc<Type>),
    LayoutOf(Rc<Type>),
    CompileError(Rc<String>),
    Task { body: List<Stmt> },
}

/// A parameter of a function.
#[derive(Debug)]
pub struct Param {
    pub name: Symbol,
    pub ty: Option<Rc<Type>>,
    pub default: Option<Rc<Expr>>,
    pub span: Span,
}

/// A branch that handles an error.
#[derive(Debug)]
pub struct CatchBranch {
    pub pattern: Rc<Pattern>,
    pub bind: Option<Symbol>,
    pub body: List<Stmt>,
    pub span: Span,
}

/// An arm of a match.
#[derive(Debug)]
pub struct MatchArm {
    pub pattern: Rc<Pattern>,
    pub guard: Option<Rc<Expr>>,
    pub body: Rc<Expr>,
}

/// A pattern.
#[derive(Debug)]
pub enum Pattern {
    Wildcard,
    Ident(Symbol, Span),
    Literal(Rc<Expr>),
    Tuple(List<Pattern>),
    Struct { fields: List<(Symbol, Pattern)> },
    Enum { inner: Option<Rc<Pattern>> },
    Or(List<Pattern>),
    Slice(List<Pattern>, Option<Rc<Pattern>>, List<Pattern>),
    Error,
}

/// A constant as a type argument.
#[derive(Debug)]
pub struct AnonConst {
    pub value: Rc<Expr>,
    pub span: Span,
}

/// A type argument.
#[derive(Debug)]
pub enum GenericArg {
    Positional(Rc<Type>),
    Named(Symbol, Rc<Type>),
    Const(AnonConst),
}

/// A type.
#[derive(Debug)]
pub enum Type {
    Path(List<Symbol>, Span),
    Generic(Rc<Type>, List<GenericArg>, Span),
    Reference { inner: Rc<Type>, mutable: bool, lifetime: Option<Symbol>, span: Span },
    Pointer(Rc<Type>, Span),
    Slice(Rc<Type>, Span),
    Array(Rc<Type>, Rc<Expr>, Span),
    Tuple(List<Type>, Span),
    Function { params: List<Type>, ret: Rc<Type>, span: Span },
    Forall { lifetime: Symbol, body: Rc<Type>, span: Span },
    Projection { impl_type: Rc<Type>, trait_path: Rc<Type>, assoc_name: Symbol, span: Span },
    DynTrait(List<Type>, Span),
    Exists { name: Symbol, base: Rc<Type>, condition: Rc<Expr>, span: Span },
    /// A type with a condition on the name `value`, made by
    /// `Type::where_shorthand`.
    WhereShorthand { base: Rc<Type>, condition: Rc<Expr>, fresh: Symbol, span: Span },
    Literal(Rc<Expr>, Span),
    Never(Span),
    Union(List<Type>, Span),
    Error(Span),
    Expr(Rc<Expr>, Span),
    Regex(Rc<String>, Span),
}

/// A type parameter.
#[derive(Debug)]
pub struct TypeParam {
    pub name: Symbol,
    pub span: Span,
}

/// An attribute.
#[derive(Debug)]
pub struct Attribute {
    pub name: Symbol,
    pub args: List<Expr>,
    pub span: Span,
}

/// A field of a struct.
#[derive(Debug)]
pub struct FieldDef {
    pub name: Symbol,
    pub ty: Rc<Type>,
    pub default: Option<Rc<Expr>>,
    pub span: Span,
}

/// A variant of an enum. `eq_spec` holds its `when` constraints: a type
/// parameter and what it is equal to.
#[derive(Debug)]
pub struct VariantDef {
    pub name: Symbol,
    pub payload: Option<Rc<Type>>,
    pub eq_spec: List<(Symbol, Rc<Type>)>,
    pub exists_params: List<Symbol>,
    pub span: Span,
}

/// A modifier of a type definition.
#[derive(Debug)]
pub enum TypeModifier {
    Default(Rc<Expr>),
    NoDefault,
    Other,
}

/// What a type definition defines.
#[derive(Debug)]
pub enum TypeDefinition {
    Struct(List<FieldDef>),
    Enum(List<VariantDef>, Option<Rc<Expr>>, List<TypeModifier>),
    Alias(Rc<Type>, List<TypeModifier>),
    Opaque,
    TraitDef,
    ImplBlock,
    Constraint,
}

/// A method of a trait.
#[derive(Debug)]
pub struct TraitMethod {
    pub name: Symbol,
    pub params: List<Param>,
    pub return_type: Rc<Type>,
    pub span: Span,
}

/// A method of an impl block.
#[derive(Debug)]
pub struct ImplMethod {
    pub name: Symbol,
    pub params: List<Param>,
    pub return_type: Rc<Type>,
    pub attributes: List<Attribute>,
    pub span: Span,
}

/// An associated type.
#[derive(Debug)]
pub struct AssocType {
    pub name: Symbol,
    pub default: Option<Rc<Type>>,
}

/// A predicate of a constraint: a type and its bounds.
#[derive(Debug)]
pub struct Predicate {
    pub ty: Rc<Type>,
    pub bounds: List<Type>,
}

/// A statement or an item.
#[derive(Debug)]
pub enum Stmt {
    FunctionDef {
        span: Span,
        attributes: List<Attribute>,
        name: Symbol,
        params: List<Param>,
        return_type: Option<Rc<Type>>,
        body: Option<List<Stmt>>,
        type_params: List<TypeParam>,
        is_comptime: bool,
        is_async: bool,
        contracts: List<Expr>,
    },
    TypeDef {
        span: Span,
        attributes: List<Attribute>,
        name: Symbol,
        params: List<TypeParam>,
        definition: Rc<TypeDefinition>,
    },
    TraitDef {
        span: Span,
        name: Symbol,
        methods: List<TraitMethod>,
        associated_types: List<AssocType>,
        attributes: List<Attribute>,
    },
    ImplBlock {
        span: Span,
        attributes: List<Attribute>,
        trait_path: Option<Rc<Type>>,
        for_type: Rc<Type>,
        methods: List<ImplMethod>,
        associated_types: List<AssocType>,
        type_params: List<TypeParam>,
    },
    Import {
        path: List<Symbol>,
        items: Option<List<Symbol>>,
        alias: Option<Symbol>,
        span: Span,
    },
    Edition(Rc<String>, Span),
    LayoutDef { name: Symbol, attributes: List<Attribute> },
    Constraint {
        name: Symbol,
        params: List<TypeParam>,
        predicates: List<Predicate>,
        span: Span,
    },
    ExternFunction {
        name: Symbol,
        params: List<Param>,
        return_type: Rc<Type>,
        span: Span,
        attributes: List<Attribute>,
    },
    VariableDef {
        mutable: bool,
        name: Option<Symbol>,
        pattern: Option<Rc<Pattern>>,
        ty: Option<Rc<Type>>,
        value: Option<Rc<Expr>>,
        else_branch: Option<List<Stmt>>,
        span: Span,
        type_captures: List<TypeParam>,
    },
    Expression(Rc<Expr>),
    If { cond: Rc<Expr>, then_branch: List<Stmt>, else_branch: Option<List<Stmt>> },
    IfLet {
        pattern: Rc<Pattern>,
        scrutinee: Rc<Expr>,
        then_branch: List<Stmt>,
        else_branch: Option<List<Stmt>>,
    },
    While {
        cond: Rc<Expr>,
        body: List<Stmt>,
        loop_invariant: Option<Rc<Expr>>,
        measure: Option<Rc<Expr>>,
    },
    WhileLet {
        pattern: Rc<Pattern>,
        scrutinee: Rc<Expr>,
        body: List<Stmt>,
        loop_invariant: Option<Rc<Expr>>,
        measure: Option<Rc<Expr>>,
    },
    For {
        pattern: Rc<Pattern>,
        iterable: Rc<Expr>,
        body: List<Stmt>,
        loop_invariant: Option<Rc<Expr>>,
        measure: Option<Rc<Expr>>,
    },
    Loop { body: List<Stmt> },
    Leave,
    Continue,
    Return { value: Option<Rc<Expr>> },
    Assign { target: Rc<Expr>, value: Rc<Expr> },
    ComptimeBlock { body: List<Stmt> },
    ScopeCleanup { body: List<Stmt> },
    Unsafe { body: List<Stmt> },
    GhostVariableDef { inner: Rc<Stmt> },
    Isolate { body: List<Stmt> },
    Trigger,
}

impl Clone for Literal {
    fn clone(&self) -> (r: Self)
        ensures
            r == *self,
    {
        match self {
            Literal::Int(n) => Literal::Int(*n),
            Literal::Float => Literal::Float,
            Literal::Char(c) => Literal::Char(*c),
            Literal::Text(t) => Literal::Text(share(t)),
            Literal::Bytes(b) => Literal::Bytes(b.clone()),
            Literal::Bool(b) => Literal::Bool(*b),
        }
    }
}

impl Clone for Expr {
    fn clone(&self) -> (r: Self)
        ensures
            r == *self,
    {
        match self {
            Expr::Literal(a, b) => Expr::Literal(a.clone(), *b),
            Expr::Ident(a, b) => Expr::Ident(*a, *b),
            Expr::TypeAnnotated { expr, ty } => Expr::TypeAnnotated {
                expr: share(expr),
                ty: share(ty),
            },
            Expr::BinaryOp { left, right } => Expr::BinaryOp {
                left: share(left),
                right: share(right),
            },
            Expr::UnaryOp { expr } => Expr::UnaryOp {
                expr: share(expr),
            },
            Expr::Call { callee, args } => Expr::Call {
                callee: share(callee),
                args: args.clone(),
            },
            Expr::Index { base, index } => Expr::Index {
                base: share(base),
                index: share(index),
            },
            Expr::FieldAccess { base, field } => Expr::FieldAccess {
                base: share(base),
                field: *field,
            },
            Expr::AttrAccess { base, attr } => Expr::AttrAccess {
                base: share(base),
                attr: *attr,
            },
            Expr::Cast { expr, ty } => Expr::Cast {
                expr: share(expr),
                ty: share(ty),
            },
            Expr::Range { start, end } => Expr::Range {
                start: share_option(start),
                end: share_option(end),
            },
            Expr::StructLit { path, fields } => Expr::StructLit {
                path: path.clone(),
                fields: fields.clone(),
            },
            Expr::EnumLit { path, variant, payload } => Expr::EnumLit {
                path: path.clone(),
                variant: *variant,
                payload: share_option(payload),
            },
            Expr::Move(a) => Expr::Move(share(a)),
            Expr::Tuple(a) => Expr::Tuple(a.clone()),
            Expr::Array(a) => Expr::Array(a.clone()),
            Expr::Closure { params, return_type, body } => Expr::Closure {
                params: params.clone(),
                return_type: share_option(return_type),
                body: body.clone(),
            },
            Expr::Try { expr } => Expr::Try {
                expr: share(expr),
            },
            Expr::UnsafeBlock { body } => Expr::UnsafeBlock {
                body: body.clone(),
            },
            Expr::Catch { expr, branches } => Expr::Catch {
                expr: share(expr),
                branches: branches.clone(),
            },
            Expr::LeaveWith { expr } => Expr::LeaveWith {
                expr: share(expr),
            },
            Expr::Await { expr } => Expr::Await {
                expr: share(expr),
            },
            Expr::If { cond, then_branch, else_branch } => Expr::If {
                cond: share(cond),
                then_branch: then_branch.clone(),
                else_branch: list_option(else_branch),
            },
            Expr::IfLet { pattern, scrutinee, then_branch, else_branch } => Expr::IfLet {
                pattern: share(pattern),
                scrutinee: share(scrutinee),
                then_branch: then_branch.clone(),
                else_branch: list_option(else_branch),
            },
            Expr::Match { scrutinee, arms } => Expr::Match {
                scrutinee: share(scrutinee),
                arms: arms.clone(),
            },
            Expr::Block(a) => Expr::Block(a.clone()),
            Expr::Quantified { range, body } => Expr::Quantified {
                range: share(range),
                body: share(body),
            },
            Expr::PolyBox { expr } => Expr::PolyBox {
                expr: share(expr),
            },
            Expr::PolyUnbox { expr } => Expr::PolyUnbox {
                expr: share(expr),
            },
            Expr::Old(a) => Expr::Old(share(a)),
            Expr::Path(a) => Expr::Path(a.clone()),
            Expr::Error => Expr::Error,
            Expr::TypeInfo(a) => Expr::TypeInfo(share(a)),
            Expr::LayoutOf(a) => Expr::LayoutOf(share(a)),
            Expr::CompileError(a) => Expr::CompileError(share(a)),
            Expr::Task { body } => Expr::Task {
                body: body.clone(),
            },
        }
    }
}

impl Clone for Type {
    fn clone(&self) -> (r: Self)
        ensures
            r == *self,
    {
        match self {
            Type::Path(a, b) => Type::Path(a.clone(), *b),
            Type::Generic(a, b, c) => Type::Generic(share(a), b.clone(), *c),
            Type::Reference { inner, mutable, lifetime, span } => Type::Reference {
                inner: share(inner),
                mutable: *mutable,
                lifetime: *lifetime,
                span: *span,
            },
            Type::Pointer(a, b) => Type::Pointer(share(a), *b),
            Type::Slice(a, b) => Type::Slice(share(a), *b),
            Type::Array(a, b, c) => Type::Array(share(a), share(b), *c),
            Type::Tuple(a, b) => Type::Tuple(a.clone(), *b),
            Type::Function { params, ret, span } => Type::Function {
                params: params.clone(),
                ret: share(ret),
                span: *span,
            },
            Type::Forall { lifetime, body, span } => Type::Forall {
                lifetime: *lifetime,
                body: share(body),
                span: *span,
            },
            Type::Projection { impl_type, trait_path, assoc_name, span } => Type::Projection {
                impl_type: share(impl_type),
                trait_path: share(trait_path),
                assoc_name: *assoc_name,
                span: *span,
            },
            Type::DynTrait(a, b) => Type::DynTrait(a.clone(), *b),
            Type::Exists { name, base, condition, span } => Type::Exists {
                name: *name,
                base: share(base),
                condition: share(condition),
                span: *span,
            },
            Type::WhereShorthand { base, condition, fresh, span } => Type::WhereShorthand {
                base: share(base),
                condition: share(condition),
                fresh: *fresh,
                span: *span,
            },
            Type::Literal(a, b) => Type::Literal(share(a), *b),
            Type::Never(a) => Type::Never(*a),
            Type::Union(a, b) => Type::Union(a.clone(), *b),
            Type::Error(a) => Type::Error(*a),
            Type::Expr(a, b) => Type::Expr(share(a), *b),
            Type::Regex(a, b) => Type::Regex(share(a), *b),
        }
    }
}

impl Clone for Attribute {
    fn clone(&self) -> (r: Self)
        ensures
            r == *self,
    {
        Attribute { name: self.name, args: self.args.clone(), span: self.span }
    }
}

impl Clone for AnonConst {
    fn clone(&self) -> (r: Self)
        ensures
            r == *self,
    {
        AnonConst { value: share(&self.value), span: self.span }
    }
}

/// The text `_where_N` that names the value of a type with a condition.
pub open spec fn where_text(start: usize) -> Seq<char> {
    "_where_"@ + text::decimal(start as nat)
}

impl Type {
    /// A type with a condition on the name `value`. The value gets a name of
    /// its own, after the start of the span.
    pub fn where_shorthand(
        base: Rc<Type>,
        condition: Rc<Expr>,
        span: Span,
        names: &mut Interner,
    ) -> (r: Type)
        requires
            old(names)@.len() < u32::MAX,
        ensures
            final(names)@ == symbol::interned(old(names)@, where_text(span.start)).0,
            r == (Type::WhereShorthand {
                base,
                condition,
                fresh: symbol::interned(old(names)@, where_text(span.start)).1,
                span,
            }),
    {
        let mut name = "_where_".to_owned();
        text::push_decimal(&mut name, span.start as u64);
        let fresh = names.intern(name);
        Type::WhereShorthand { base, condition, fresh, span }
    }
}

/// Conditions that start at different places name their values differently.
pub proof fn law_where_names_differ(a: usize, b: usize)
    requires
        a != b,
    ensures
        where_text(a) != where_text(b),
{
    text::law_decimals_differ(a as nat, b as nat);
    let p = "_where_"@;
    if where_text(a) == where_text(b) {
        assert(text::decimal(a as nat) =~= where_text(a).skip(p.len() as int));
        assert(text::decimal(b as nat) =~= where_text(b).skip(p.len() as int));
    }
}

} // verus!
