//! Name resolution as mathematics: what each piece of syntax does to the
//! state of the resolver.
use super::diag::{DiagKind, Diagnostic};
use super::syntax;
use super::table;
use super::table::{
    BitOrder, ConstraintBinding, ConstraintPredicate, Endianness, FieldBinding, FunctionBinding,
    FunctionSignature, ImplBinding, Layout, Parameter, SymbolTable, TraitBinding, TypeBinding,
    TypeKind, VariableBinding,
};
use crate::ast::{
    AssocType, Attribute, CatchBranch, Expr, FieldDef, GenericArg, ImplMethod, Literal, MatchArm,
    Param, Pattern, Predicate, Stmt, TraitMethod, Type, TypeDefinition, TypeModifier, TypeParam,
    VariantDef,
};
use crate::list::List;
use crate::symbol::{
    Span, Symbol, ALIGN, BIG, BIT_ORDER, BOOL, BYTE, CHAR, DROP, ENDIAN, EXHAUSTIVE, FLOAT, HINT,
    IEEE_CONTRACTS, INT, LAYOUT, LAYOUT_C, LITTLE, LSB_TO_MSB, MAIN, MSB_TO_LSB, NEVER, PACKED,
    PAD, PTR, PURE, RATIONAL, RESULT, SELF_TYPE, TRANSPARENT, UINT, UNIT, USIZE, VALUE,
};
use crate::types::{
    AdtDef, AdtKind, CrateId, DefId, Edition, TypeData, TypeId, Types, TY_BOOL, TY_BYTE, TY_CHAR,
    TY_ERROR, TY_NEVER, TY_UNIT, TY_USIZE,
};
use std::rc::Rc;
use vstd::prelude::*;

verus! {

/// What a path stands for, as far as that is known.
#[derive(Debug)]
pub enum PartialRes {
    /// All of the path is known.
    Full(Res),
    /// A prefix is known; so many names are left.
    Unresolved { base: Res, remaining: usize },
    Failed,
}

/// What a name stands for.
#[derive(Clone, Copy, Debug, PartialEq, Eq, Structural)]
pub enum Res {
    Def(DefId),
    Type(DefId),
    Module(DefId),
    Primitive,
}

/// What name resolution hands on, the latest entries first.
#[derive(Debug)]
pub struct ResolutionMap {
    pub type_def_ids: List<(Symbol, DefId)>,
    pub type_bindings: List<(DefId, Rc<TypeBinding>)>,
    pub value_resolutions: List<(Symbol, PartialRes)>,
    pub type_resolutions: List<(Symbol, PartialRes)>,
    pub has_main: bool,
}

impl ResolutionMap {
    pub open spec fn none() -> ResolutionMap {
        ResolutionMap {
            type_def_ids: List::Nil,
            type_bindings: List::Nil,
            value_resolutions: List::Nil,
            type_resolutions: List::Nil,
            has_main: false,
        }
    }
}

/// The state of the resolver.
#[verifier::ext_equal]
pub struct State {
    pub ctx: Types,
    pub symbols: SymbolTable,
    pub local_crate_id: CrateId,
    /// The diagnostics, the latest first.
    pub diagnostics: List<Diagnostic>,
    pub has_main: bool,
    /// The type parameters that are in scope.
    pub impl_params: Option<List<(Symbol, TypeId)>>,
    /// What `Self` stands for.
    pub impl_for: Option<TypeId>,
    pub map: ResolutionMap,
    pub modules: List<Symbol>,
    pub layout_aliases: List<(Symbol, List<Attribute>)>,
    /// The built-in trait for dropping, once it has been looked up.
    pub builtin_drop: Option<DefId>,
}

/// The index after this one.
pub open spec fn next_index(i: usize) -> usize {
    if i < usize::MAX {
        (i + 1) as usize
    } else {
        i
    }
}

/// The number of items, as far as it can be counted.
pub open spec fn counted<T>(l: List<T>) -> u64 {
    if l@.len() <= usize::MAX {
        l@.len() as usize as u64
    } else {
        usize::MAX as u64
    }
}

/// A literal as a size; zero where it is too large.
pub open spec fn size_value(n: u128) -> u64 {
    if n <= u64::MAX {
        n as u64
    } else {
        0
    }
}

/// A literal that is at most 64.
pub open spec fn small_int(e: Expr) -> Option<u32> {
    match e {
        Expr::Literal(Literal::Int(n), _) => if n > 64 {
            None
        } else {
            Some(n as u32)
        },
        _ => None,
    }
}

/// The small number that a type is.
pub open spec fn int_in_type(ty: Type) -> Option<u32> {
    match ty {
        Type::Literal(e, _) => small_int(*e),
        _ => None,
    }
}

/// The small number that a type argument is.
pub open spec fn int_in_arg(arg: GenericArg) -> Option<u32> {
    match arg {
        GenericArg::Positional(t) => int_in_type(*t),
        GenericArg::Named(_, t) => int_in_type(*t),
        GenericArg::Const(ac) => small_int(*ac.value),
    }
}

/// The small number that the argument at `n` is.
pub open spec fn int_at(args: List<GenericArg>, n: nat) -> Option<u32>
    decreases args,
{
    match args {
        List::Nil => None,
        List::Cons(link) => if n == 0 {
            int_in_arg(link.head)
        } else {
            int_at(link.tail, (n - 1) as nat)
        },
    }
}

pub open spec fn or_else(a: Option<u32>, b: u32) -> u32 {
    match a {
        Some(x) => x,
        None => b,
    }
}

/// An attribute of this name is there.
pub open spec fn has_attribute(attrs: List<Attribute>, name: u32) -> bool
    decreases attrs,
{
    match attrs {
        List::Nil => false,
        List::Cons(link) => link.head.name.0 == name || has_attribute(link.tail, name),
    }
}

/// One list after the other.
pub open spec fn appended<T>(a: List<T>, b: List<T>) -> List<T>
    decreases a,
{
    match a {
        List::Nil => b,
        List::Cons(link) => appended(link.tail, b).cons(link.head),
    }
}

/// The arguments of the hints.
pub open spec fn hints(attrs: List<Attribute>) -> List<Expr>
    decreases attrs,
{
    match attrs {
        List::Nil => List::Nil,
        List::Cons(link) => if link.head.name.0 == HINT {
            appended(link.head.args, hints(link.tail))
        } else {
            hints(link.tail)
        },
    }
}

/// The names of the parameters, then the others.
pub open spec fn param_names(params: List<TypeParam>, more: List<Symbol>) -> List<Symbol>
    decreases params,
{
    match params {
        List::Nil => more,
        List::Cons(link) => param_names(link.tail, more).cons(link.head.name),
    }
}

impl State {
    pub open spec fn with_type_id(self, name: Symbol, d: DefId) -> State {
        State {
            map: ResolutionMap {
                type_def_ids: self.map.type_def_ids.cons((name, d)),
                ..self.map
            },
            ..self
        }
    }

    pub open spec fn with_binding(self, d: DefId, b: Rc<TypeBinding>) -> State {
        State {
            map: ResolutionMap { type_bindings: self.map.type_bindings.cons((d, b)), ..self.map },
            ..self
        }
    }

    /// The state at the start.
    pub open spec fn start(ctx: Types, symbols: SymbolTable, local_crate_id: CrateId) -> State {
        State {
            ctx,
            symbols,
            local_crate_id,
            diagnostics: List::Nil,
            has_main: false,
            impl_params: None,
            impl_for: None,
            map: ResolutionMap::none(),
            modules: List::Nil,
            layout_aliases: List::Nil,
            builtin_drop: None,
        }
    }

    /// The state once its results have been taken out.
    pub open spec fn taken(self) -> State {
        State {
            symbols: SymbolTable::fresh(self.local_crate_id),
            diagnostics: List::Nil,
            map: ResolutionMap::none(),
            ..self
        }
    }

    /// The state with the results of an earlier resolution put back.
    pub open spec fn restored(self, symbols: SymbolTable, map: ResolutionMap) -> State {
        State { symbols, diagnostics: List::Nil, has_main: map.has_main, map, ..self }
    }

    pub open spec fn error(self) -> TypeId {
        TypeId(TY_ERROR)
    }

    /// One more type.
    pub open spec fn add_type(self, d: TypeData) -> (State, TypeId) {
        let (ctx, t) = self.ctx.with(d);
        (State { ctx, ..self }, t)
    }

    pub open spec fn report(self, kind: DiagKind, span: Option<Span>) -> State {
        State { diagnostics: self.diagnostics.cons(Diagnostic { kind, span }), ..self }
    }

    /// A failure of the symbol table, if there is one.
    pub open spec fn note(self, r: (SymbolTable, Option<Diagnostic>)) -> State {
        match r.1 {
            Some(d) => State {
                symbols: r.0,
                diagnostics: self.diagnostics.cons(d),
                ..self
            },
            None => State { symbols: r.0, ..self },
        }
    }

    pub open spec fn enter(self) -> State {
        State { symbols: self.symbols.entered(), ..self }
    }

    pub open spec fn exit(self) -> State {
        State { symbols: self.symbols.left(), ..self }
    }

    pub open spec fn define(self) -> (State, DefId) {
        let (symbols, d) = self.symbols.with_def();
        (State { symbols, ..self }, d)
    }

    /// A new variable.
    pub open spec fn bind(self, name: Symbol, ty: TypeId, mutable: bool, span: Span) -> State {
        let (s, def_id) = self.define();
        s.note(
            s.symbols.with_variable(name, VariableBinding { ty, mutable, span, def_id }, span),
        )
    }

    /// The types of parameters with these names, numbered from `i`.
    pub open spec fn generics(
        self,
        params: List<TypeParam>,
        i: usize,
        known: List<(Symbol, TypeId)>,
    ) -> (State, List<(Symbol, TypeId)>)
        decreases params,
    {
        match params {
            List::Nil => (self, known),
            List::Cons(link) => {
                let (s, t) = self.add_type(
                    TypeData::GenericParam { index: i, name: link.head.name },
                );
                s.generics(link.tail, next_index(i), known.cons((link.head.name, t)))
            },
        }
    }

    /// The state with these type parameters in scope.
    pub open spec fn with_generics(self, params: List<TypeParam>) -> State {
        let (s, known) = self.generics(params, 0, List::Nil);
        State { impl_params: Some(known), ..s }
    }

    pub open spec fn literal(self, lit: Literal) -> (State, TypeId) {
        match lit {
            Literal::Int(_) => self.add_type(TypeData::Int { bits: 32, signed: true }),
            Literal::Float => self.add_type(TypeData::Float { bits: 64 }),
            Literal::Char(_) => (self, TypeId(TY_CHAR)),
            Literal::Text(_) => self.add_type(TypeData::Slice { elem: TypeId(TY_BYTE) }),
            Literal::Bytes(_) => self.add_type(TypeData::Slice { elem: TypeId(TY_BYTE) }),
            Literal::Bool(_) => (self, TypeId(TY_BOOL)),
        }
    }

    // -----------------------------------------------------------------------
    // Types
    // -----------------------------------------------------------------------

    /// A type that no definition gives: a built-in one, or none.
    pub open spec fn undefined_type(self, path: List<Symbol>, span: Span) -> (State, TypeId) {
        match path {
            List::Nil => (
                self.report(DiagKind::UndefinedType(path), Some(span)),
                self.error(),
            ),
            List::Cons(link) => {
                let n = link.head.0;
                if n == BOOL {
                    (self, TypeId(TY_BOOL))
                } else if n == CHAR {
                    (self, TypeId(TY_CHAR))
                } else if n == BYTE {
                    (self, TypeId(TY_BYTE))
                } else if n == USIZE {
                    (self, TypeId(TY_USIZE))
                } else if n == UNIT {
                    (self.report(DiagKind::UseUnitTuple, None), self.error())
                } else if n == NEVER {
                    (self, TypeId(TY_NEVER))
                } else if n == INT || n == UINT || n == FLOAT || n == RATIONAL {
                    (self, self.error())
                } else {
                    (
                        self.report(DiagKind::UndefinedType(path), Some(span)),
                        self.error(),
                    )
                }
            },
        }
    }

    /// The parameter or the type for `Self` that a path names.
    pub open spec fn local_type(self, path: List<Symbol>) -> Option<TypeId> {
        match syntax::single(path) {
            Some(n) => if n.0 == SELF_TYPE && self.impl_for is Some {
                self.impl_for
            } else {
                match self.impl_params {
                    Some(known) => table::entry(known, n),
                    None => None,
                }
            },
            None => None,
        }
    }

    /// An instance of a definition, if it is one of a struct or an enum.
    pub open spec fn instance(self, kind: TypeKind, d: DefId, args: List<TypeId>) -> Option<
        (State, TypeId),
    > {
        match kind {
            TypeKind::Struct => Some(
                self.add_type(TypeData::Adt { kind: AdtKind::Struct, def_id: d, args }),
            ),
            TypeKind::Enum => Some(
                self.add_type(TypeData::Adt { kind: AdtKind::Enum, def_id: d, args }),
            ),
            _ => None,
        }
    }

    /// The type that a path names.
    #[verifier::opaque]
    pub open spec fn path_type(self, ty: Type, fuel: nat) -> (State, TypeId)
        decreases fuel, ty, 2nat,
    {
        match ty {
            Type::Path(path, span) => match self.local_type(path) {
                Some(t) => (self, t),
                None => match self.symbols.type_by_path(path) {
                    Some(d) => match self.symbols.type_def(d) {
                        Some(b) => match b.alias_ast {
                            Some(alias) => if fuel == 0 {
                                (self, self.error())
                            } else {
                                self.type_expr(*alias, (fuel - 1) as nat)
                            },
                            None => match self.instance(b.kind, d, List::Nil) {
                                Some(r) => r,
                                None => (self, self.error()),
                            },
                        },
                        None => (self, self.error()),
                    },
                    None => self.undefined_type(path, span),
                },
            },
            _ => (self, self.error()),
        }
    }

    /// A built-in type with arguments.
    #[verifier::opaque]
    pub open spec fn builtin_generic(self, name: Symbol, args: List<GenericArg>, fuel: nat) -> Option<
        (State, TypeId),
    >
        decreases fuel, args, 1nat,
    {
        if name.0 == INT {
            Some(self.add_type(TypeData::Int { bits: or_else(int_at(args, 0), 32), signed: true }))
        } else if name.0 == UINT {
            Some(self.add_type(TypeData::Int { bits: or_else(int_at(args, 0), 32), signed: false }))
        } else if name.0 == FLOAT {
            Some(self.add_type(TypeData::Float { bits: or_else(int_at(args, 0), 64) }))
        } else if name.0 == RATIONAL {
            Some(
                self.add_type(
                    TypeData::Rational {
                        p: or_else(int_at(args, 0), 16) as u8,
                        q: or_else(int_at(args, 1), 16) as u8,
                    },
                ),
            )
        } else if name.0 == PTR {
            match args {
                List::Nil => Some(
                    self.add_type(
                        TypeData::Ptr { size: TypeId(TY_USIZE), pointee: self.error() },
                    ),
                ),
                List::Cons(a) => {
                    let (s, size) = self.arg_type(a.head, fuel);
                    match a.tail {
                        List::Nil => Some(
                            s.add_type(TypeData::Ptr { size, pointee: self.error() }),
                        ),
                        List::Cons(b) => {
                            let (u, pointee) = s.arg_type(b.head, fuel);
                            Some(u.add_type(TypeData::Ptr { size, pointee }))
                        },
                    }
                },
            }
        } else if name.0 == USIZE {
            Some((self, TypeId(TY_USIZE)))
        } else {
            None
        }
    }

    /// A type with arguments that is no built-in one.
    #[verifier::opaque]
    pub open spec fn applied(self, ty: Type, fuel: nat) -> (State, TypeId)
        decreases fuel, ty, 2nat,
    {
        match ty {
            Type::Generic(base, args, span) => {
                let (s, t) = self.type_expr(*base, fuel);
                match s.ctx.def_of(t) {
                    Some(d) => match s.symbols.type_def(d) {
                        Some(b) => {
                            let (u, tys) = s.arg_types(args, fuel);
                            match u.instance(b.kind, d, tys) {
                                Some(r) => r,
                                None => (
                                    u.report(DiagKind::GenericOnNonGeneric, Some(span)),
                                    u.error(),
                                ),
                            }
                        },
                        None => (s.report(DiagKind::TypeNotFound, Some(span)), s.error()),
                    },
                    None => (s.report(DiagKind::ExpectedPath, Some(span)), s.error()),
                }
            },
            _ => (self, self.error()),
        }
    }

    /// The name that is the whole of a type.
    pub open spec fn base_name(base: Type) -> Option<Symbol> {
        match base {
            Type::Path(p, _) => syntax::single(p),
            _ => None,
        }
    }

    #[verifier::opaque]
    pub open spec fn type_expr(self, ty: Type, fuel: nat) -> (State, TypeId)
        decreases fuel, ty, 3nat,
    {
        match ty {
            Type::Path(_, _) => self.path_type(ty, fuel),
            Type::Generic(base, args, _) => match State::base_name(*base) {
                Some(n) => match self.builtin_generic(n, args, fuel) {
                    Some(r) => r,
                    None => self.applied(ty, fuel),
                },
                None => self.applied(ty, fuel),
            },
            Type::Reference { inner, mutable, lifetime, span } => {
                let (s, t) = self.type_expr(*inner, fuel);
                s.add_type(TypeData::Ref { ty: t, mutable, lifetime })
            },
            Type::Pointer(inner, _) => {
                let (s, t) = self.type_expr(*inner, fuel);
                s.add_type(TypeData::Pointer { ty: t })
            },
            Type::Slice(inner, _) => {
                let (s, t) = self.type_expr(*inner, fuel);
                s.add_type(TypeData::Slice { elem: t })
            },
            Type::Array(inner, size, span) => {
                let (s, t) = self.type_expr(*inner, fuel);
                match *size {
                    Expr::Literal(Literal::Int(n), _) => s.add_type(
                        TypeData::Array { elem: t, size: size_value(n) },
                    ),
                    _ => (s.report(DiagKind::ArraySize, Some(span)), s.error()),
                }
            },
            Type::Tuple(tys, _) => {
                let (s, elems) = self.types(tys, fuel);
                s.add_type(TypeData::Tuple { elems })
            },
            Type::Function { params, ret, span } => {
                let (s, ps) = self.types(params, fuel);
                let (u, r) = s.type_expr(*ret, fuel);
                u.add_type(TypeData::Function { params: ps, ret: r })
            },
            Type::Forall { lifetime, body, span } => {
                let (s, t) = self.type_expr(*body, fuel);
                let (ctx, index) = s.ctx.with_param();
                State { ctx, ..s }.add_type(TypeData::Forall { index, lifetime, body: t })
            },
            Type::Projection { impl_type, trait_path, assoc_name, span } => {
                let (s, _) = self.type_expr(*impl_type, fuel);
                let (u, _) = s.type_expr(*trait_path, fuel);
                (u, u.error())
            },
            Type::DynTrait(tys, _) => self.add_type(
                TypeData::DynTrait { traits: self.trait_ids(tys) },
            ),
            Type::Exists { name, base, condition, span } => {
                let (s, t) = self.type_expr(*base, fuel);
                let (ctx, index) = s.ctx.with_param();
                State { ctx, ..s }.add_type(TypeData::Exists { index, name, base: t, condition })
            },
            Type::WhereShorthand { base, condition, fresh, span } => {
                let (s, t) = self.type_expr(*base, fuel);
                let (ctx, index) = s.ctx.with_param();
                State { ctx, ..s }.add_type(
                    TypeData::Exists {
                        index,
                        name: fresh,
                        base: t,
                        condition: Rc::new(syntax::renamed(*condition, Symbol(VALUE), fresh)),
                    },
                )
            },
            Type::Literal(e, _) => self.type_of_expr(*e, fuel),
            Type::Never(_) => (self, TypeId(TY_NEVER)),
            Type::Union(_, _) => (self, self.error()),
            Type::Error(_) => (self, self.error()),
            Type::Expr(e, _) => self.type_of_expr(*e, fuel),
            Type::Regex(pattern, _) => self.add_type(TypeData::Regex(pattern)),
        }
    }

    /// The type of an expression; the error type where it is not known.
    #[verifier::opaque]
    pub open spec fn type_of_expr(self, e: Expr, fuel: nat) -> (State, TypeId)
        decreases fuel, e, 4nat,
    {
        let (s, t) = self.expr(e, fuel);
        match t {
            Some(x) => (s, x),
            None => (s, s.error()),
        }
    }

    #[verifier::opaque]
    pub open spec fn optional_type(self, ty: Option<Rc<Type>>, fuel: nat) -> (State, TypeId)
        decreases fuel, ty, 4nat,
    {
        match ty {
            Some(t) => self.type_expr(*t, fuel),
            None => (self, self.error()),
        }
    }

    #[verifier::opaque]
    pub open spec fn types(self, tys: List<Type>, fuel: nat) -> (State, List<TypeId>)
        decreases fuel, tys, 3nat,
    {
        match tys {
            List::Nil => (self, List::Nil),
            List::Cons(link) => {
                let (s, t) = self.type_expr(link.head, fuel);
                let (u, rest) = s.types(link.tail, fuel);
                (u, rest.cons(t))
            },
        }
    }

    #[verifier::opaque]
    pub open spec fn arg_type(self, arg: GenericArg, fuel: nat) -> (State, TypeId)
        decreases fuel, arg, 3nat,
    {
        match arg {
            GenericArg::Positional(t) => self.type_expr(*t, fuel),
            GenericArg::Named(_, t) => self.type_expr(*t, fuel),
            GenericArg::Const(ac) => self.type_of_expr(*ac.value, fuel),
        }
    }

    #[verifier::opaque]
    pub open spec fn arg_types(self, args: List<GenericArg>, fuel: nat) -> (State, List<TypeId>)
        decreases fuel, args, 3nat,
    {
        match args {
            List::Nil => (self, List::Nil),
            List::Cons(link) => {
                let (s, t) = self.arg_type(link.head, fuel);
                let (u, rest) = s.arg_types(link.tail, fuel);
                (u, rest.cons(t))
            },
        }
    }

    /// The definitions that the paths among the types name.
    pub open spec fn trait_ids(self, tys: List<Type>) -> List<DefId>
        decreases tys,
    {
        match tys {
            List::Nil => List::Nil,
            List::Cons(link) => {
                let rest = self.trait_ids(link.tail);
                match link.head {
                    Type::Path(p, _) => match self.symbols.type_by_path(p) {
                        Some(d) => rest.cons(d),
                        None => rest,
                    },
                    _ => rest,
                }
            },
        }
    }

    // -----------------------------------------------------------------------
    // Expressions
    // -----------------------------------------------------------------------

    pub open spec fn ident(self, name: Symbol, span: Span) -> (State, Option<TypeId>) {
        match table::variable_in(self.symbols.scopes, name) {
            Some(b) => (self, Some(b.ty)),
            None => match table::function_in(self.symbols.scopes, name) {
                Some(f) => {
                    let (s, t) = self.add_type(
                        TypeData::Function {
                            params: parameter_types(f.signature.params),
                            ret: f.signature.return_type,
                        },
                    );
                    (s, Some(t))
                },
                None => if self.symbols.named_type(name) is Some || name.0 == RESULT {
                    (self, None)
                } else {
                    (
                        self.report(DiagKind::UndefinedName(name), Some(span)),
                        Some(self.error()),
                    )
                },
            },
        }
    }

    /// An instance of the definition that a path names, if it is of this
    /// sort.
    pub open spec fn literal_of(self, d: Option<DefId>, kind: TypeKind) -> (
        State,
        Option<TypeId>,
    ) {
        match d {
            Some(d) => match self.symbols.type_def(d) {
                Some(b) => if b.kind == kind {
                    match self.instance(kind, d, List::Nil) {
                        Some(r) => (r.0, Some(r.1)),
                        None => (self, None),
                    }
                } else {
                    (self, None)
                },
                None => (self, None),
            },
            None => (self, None),
        }
    }

    #[verifier::opaque]
    pub open spec fn expr(self, e: Expr, fuel: nat) -> (State, Option<TypeId>)
        decreases fuel, e, 3nat,
    {
        match e {
            Expr::Literal(lit, _) => {
                let (s, t) = self.literal(lit);
                (s, Some(t))
            },
            Expr::Ident(name, span) => self.ident(name, span),
            Expr::TypeAnnotated { expr, ty } => self.type_expr(*ty, fuel).0.expr(*expr, fuel),
            Expr::BinaryOp { left, right } => (
                self.expr(*left, fuel).0.expr(*right, fuel).0,
                None,
            ),
            Expr::UnaryOp { expr } => (self.expr(*expr, fuel).0, None),
            Expr::Call { callee, args } => (self.expr(*callee, fuel).0.exprs(args, fuel), None),
            Expr::Index { base, index } => (self.expr(*base, fuel).0.expr(*index, fuel).0, None),
            Expr::FieldAccess { base, field } => (self.expr(*base, fuel).0, None),
            Expr::AttrAccess { base, attr } => (self.expr(*base, fuel).0, None),
            Expr::Cast { expr, ty } => (self.expr(*expr, fuel).0.type_expr(*ty, fuel).0, None),
            Expr::Range { start, end } => (
                self.optional_expr(start, fuel).optional_expr(end, fuel),
                None,
            ),
            Expr::StructLit { path, fields } => {
                let d = self.symbols.type_by_path(path);
                self.field_values(fields, fuel).literal_of(d, TypeKind::Struct)
            },
            Expr::EnumLit { path, variant, payload } => {
                let s = self.optional_expr(payload, fuel);
                s.literal_of(s.symbols.type_by_path(path), TypeKind::Enum)
            },
            Expr::Move(expr) => (self.expr(*expr, fuel).0, None),
            Expr::Tuple(es) => {
                let (s, elems) = self.expr_types(es, fuel);
                let (u, t) = s.add_type(TypeData::Tuple { elems });
                (u, Some(t))
            },
            Expr::Array(es) => {
                let (s, first) = self.first_type(es, None, fuel);
                let elem = match first {
                    Some(t) => t,
                    None => s.error(),
                };
                let (u, t) = s.add_type(TypeData::Array { elem, size: counted(es) });
                (u, Some(t))
            },
            Expr::Closure { params, return_type, body } => {
                let s = self.enter().bind_params(params, fuel).stmts(body, fuel).exit();
                let (u, ret) = s.returned(return_type, fuel);
                let (v, ps) = u.param_types(params, fuel);
                let (w, t) = v.add_type(TypeData::Function { params: ps, ret });
                (w, Some(t))
            },
            Expr::Try { expr } => (self.expr(*expr, fuel).0, None),
            Expr::UnsafeBlock { body } => (self.block(body, fuel), Some(TypeId(TY_UNIT))),
            Expr::Catch { expr, branches } => (
                self.expr(*expr, fuel).0.catches(branches, fuel),
                None,
            ),
            Expr::LeaveWith { expr } => (self.expr(*expr, fuel).0, Some(TypeId(TY_NEVER))),
            Expr::Await { expr } => (self.expr(*expr, fuel).0, None),
            Expr::If { cond, then_branch, else_branch } => (
                self.expr(*cond, fuel).0.block(then_branch, fuel).optional_block(else_branch, fuel),
                None,
            ),
            Expr::IfLet { pattern, scrutinee, then_branch, else_branch } => (
                self.expr(*scrutinee, fuel).0.pattern(*pattern, fuel).block(then_branch, fuel).optional_block(else_branch, fuel),
                None,
            ),
            Expr::Match { scrutinee, arms } => (
                self.expr(*scrutinee, fuel).0.arms(arms, fuel),
                None,
            ),
            Expr::Block(stmts) => {
                let (s, t) = self.enter().block_value(stmts, None, fuel);
                (s.exit(), t)
            },
            Expr::Quantified { range, body } => (
                self.expr(*range, fuel).0.expr(*body, fuel).0,
                Some(self.error()),
            ),
            Expr::PolyBox { expr } => (self.expr(*expr, fuel).0, Some(self.error())),
            Expr::PolyUnbox { expr } => (self.expr(*expr, fuel).0, Some(self.error())),
            Expr::Old(expr) => (self.expr(*expr, fuel).0, None),
            Expr::Path(path) => (
                self.report(DiagKind::UnresolvedPath(path), Some(Span { start: 0, end: 0 })),
                Some(self.error()),
            ),
            Expr::Error => (self, Some(self.error())),
            Expr::TypeInfo(ty) => (self.type_expr(*ty, fuel).0, Some(TypeId(TY_UNIT))),
            Expr::LayoutOf(ty) => (self.type_expr(*ty, fuel).0, Some(self.error())),
            Expr::CompileError(_) => (self, Some(self.error())),
            Expr::Task { body } => (self.stmts(body, fuel), Some(TypeId(TY_UNIT))),
        }
    }

    #[verifier::opaque]
    pub open spec fn optional_expr(self, e: Option<Rc<Expr>>, fuel: nat) -> State
        decreases fuel, e, 4nat,
    {
        match e {
            Some(x) => self.expr(*x, fuel).0,
            None => self,
        }
    }

    #[verifier::opaque]
    pub open spec fn exprs(self, es: List<Expr>, fuel: nat) -> State
        decreases fuel, es, 3nat,
    {
        match es {
            List::Nil => self,
            List::Cons(link) => self.expr(link.head, fuel).0.exprs(link.tail, fuel),
        }
    }

    #[verifier::opaque]
    pub open spec fn field_values(self, fields: List<(Symbol, Expr)>, fuel: nat) -> State
        decreases fuel, fields, 3nat,
    {
        match fields {
            List::Nil => self,
            List::Cons(link) => self.expr(link.head.1, fuel).0.field_values(link.tail, fuel),
        }
    }

    /// The types of expressions; the error type for those that have none.
    #[verifier::opaque]
    pub open spec fn expr_types(self, es: List<Expr>, fuel: nat) -> (State, List<TypeId>)
        decreases fuel, es, 3nat,
    {
        match es {
            List::Nil => (self, List::Nil),
            List::Cons(link) => {
                let (s, t) = self.expr(link.head, fuel);
                let (u, rest) = s.expr_types(link.tail, fuel);
                (
                    u,
                    rest.cons(
                        match t {
                            Some(x) => x,
                            None => s.error(),
                        },
                    ),
                )
            },
        }
    }

    /// The first type that an expression has.
    #[verifier::opaque]
    pub open spec fn first_type(self, es: List<Expr>, found: Option<TypeId>, fuel: nat) -> (
        State,
        Option<TypeId>,
    )
        decreases fuel, es, 3nat,
    {
        match es {
            List::Nil => (self, found),
            List::Cons(link) => {
                let (s, t) = self.expr(link.head, fuel);
                s.first_type(
                    link.tail,
                    match found {
                        Some(x) => Some(x),
                        None => t,
                    },
                    fuel,
                )
            },
        }
    }

    #[verifier::opaque]
    pub open spec fn bind_params(self, params: List<Param>, fuel: nat) -> State
        decreases fuel, params, 3nat,
    {
        match params {
            List::Nil => self,
            List::Cons(link) => {
                let (s, t) = self.optional_type(link.head.ty, fuel);
                s.bind(link.head.name, t, false, link.head.span).bind_params(link.tail, fuel)
            },
        }
    }

    #[verifier::opaque]
    pub open spec fn param_types(self, params: List<Param>, fuel: nat) -> (State, List<TypeId>)
        decreases fuel, params, 3nat,
    {
        match params {
            List::Nil => (self, List::Nil),
            List::Cons(link) => {
                let (s, t) = self.optional_type(link.head.ty, fuel);
                let (u, rest) = s.param_types(link.tail, fuel);
                (u, rest.cons(t))
            },
        }
    }

    #[verifier::opaque]
    pub open spec fn catches(self, branches: List<CatchBranch>, fuel: nat) -> State
        decreases fuel, branches, 3nat,
    {
        match branches {
            List::Nil => self,
            List::Cons(link) => {
                let s = self.pattern(*link.head.pattern, fuel);
                let u = match link.head.bind {
                    Some(name) => s.bind(name, s.error(), false, link.head.span),
                    None => s,
                };
                u.block(link.head.body, fuel).catches(link.tail, fuel)
            },
        }
    }

    #[verifier::opaque]
    pub open spec fn arms(self, arms: List<MatchArm>, fuel: nat) -> State
        decreases fuel, arms, 3nat,
    {
        match arms {
            List::Nil => self,
            List::Cons(link) => self.pattern(*link.head.pattern, fuel).optional_expr(
                link.head.guard,
                fuel,
            ).expr(*link.head.body, fuel).0.arms(link.tail, fuel),
        }
    }

    #[verifier::opaque]
    pub open spec fn optional_block(self, b: Option<List<Stmt>>, fuel: nat) -> State
        decreases fuel, b, 5nat,
    {
        match b {
            Some(stmts) => self.block(stmts, fuel),
            None => self,
        }
    }

    #[verifier::opaque]
    pub open spec fn block(self, stmts: List<Stmt>, fuel: nat) -> State
        decreases fuel, stmts, 4nat,
    {
        self.enter().stmts(stmts, fuel).exit()
    }

    /// The statements of a block, and the type of the last of them that is an
    /// expression.
    #[verifier::opaque]
    pub open spec fn block_value(self, stmts: List<Stmt>, last: Option<TypeId>, fuel: nat) -> (
        State,
        Option<TypeId>,
    )
        decreases fuel, stmts, 3nat,
    {
        match stmts {
            List::Nil => (self, last),
            List::Cons(link) => match link.head {
                Stmt::Expression(e) => {
                    let (s, t) = self.expr(*e, fuel);
                    s.block_value(link.tail, t, fuel)
                },
                _ => self.stmt(link.head, fuel).block_value(link.tail, last, fuel),
            },
        }
    }

    // -----------------------------------------------------------------------
    // Patterns
    // -----------------------------------------------------------------------

    #[verifier::opaque]
    pub open spec fn pattern(self, p: Pattern, fuel: nat) -> State
        decreases fuel, p, 3nat,
    {
        match p {
            Pattern::Wildcard => self,
            Pattern::Ident(name, span) => self.bind(name, self.error(), false, span),
            Pattern::Literal(e) => self.expr(*e, fuel).0,
            Pattern::Tuple(ps) => self.patterns(ps, fuel),
            Pattern::Struct { fields } => self.field_patterns(fields, fuel),
            Pattern::Enum { inner } => self.optional_pattern(inner, fuel),
            Pattern::Or(ps) => self.patterns(ps, fuel),
            Pattern::Slice(before, slice, after) => self.patterns(before, fuel).optional_pattern(
                slice,
                fuel,
            ).patterns(after, fuel),
            Pattern::Error => self,
        }
    }

    #[verifier::opaque]
    pub open spec fn optional_pattern(self, p: Option<Rc<Pattern>>, fuel: nat) -> State
        decreases fuel, p, 4nat,
    {
        match p {
            Some(x) => self.pattern(*x, fuel),
            None => self,
        }
    }

    #[verifier::opaque]
    pub open spec fn patterns(self, ps: List<Pattern>, fuel: nat) -> State
        decreases fuel, ps, 3nat,
    {
        match ps {
            List::Nil => self,
            List::Cons(link) => self.pattern(link.head, fuel).patterns(link.tail, fuel),
        }
    }

    #[verifier::opaque]
    pub open spec fn field_patterns(self, ps: List<(Symbol, Pattern)>, fuel: nat) -> State
        decreases fuel, ps, 3nat,
    {
        match ps {
            List::Nil => self,
            List::Cons(link) => self.pattern(link.head.1, fuel).field_patterns(link.tail, fuel),
        }
    }

    // -----------------------------------------------------------------------
    // Statements
    // -----------------------------------------------------------------------

    /// The binding of a captured type, before the type is known.
    pub open spec fn capture_binding(self, def_id: DefId, span: Span) -> TypeBinding {
        TypeBinding {
            def_id,
            params: List::Nil,
            kind: TypeKind::Alias,
            span,
            alias_ast: None,
            attributes: List::Nil,
            fields: List::Nil,
            variants: List::Nil,
            default_value: None,
            no_default: true,
            crate_id: self.local_crate_id,
            missing_match: None,
            exhaustive: false,
            layout: no_layout(List::Nil),
        }
    }

    pub open spec fn captures(self, caps: List<TypeParam>, span: Span) -> State
        decreases caps,
    {
        match caps {
            List::Nil => self,
            List::Cons(link) => {
                let (s, d) = self.define();
                let name = link.head.name;
                State {
                    map: ResolutionMap {
                        type_def_ids: s.map.type_def_ids.cons((name, d)),
                        ..s.map
                    },
                    symbols: s.symbols.with_type(
                        name,
                        Rc::new(s.capture_binding(d, span)),
                        span,
                    ).0,
                    ..s
                }.captures(link.tail, span)
            },
        }
    }

    #[verifier::opaque]
    pub open spec fn stmts(self, stmts: List<Stmt>, fuel: nat) -> State
        decreases fuel, stmts, 3nat,
    {
        match stmts {
            List::Nil => self,
            List::Cons(link) => self.stmt(link.head, fuel).stmts(link.tail, fuel),
        }
    }

    #[verifier::opaque]
    pub open spec fn stmt(self, stmt: Stmt, fuel: nat) -> State
        decreases fuel, stmt, 6nat,
    {
        match stmt {
            Stmt::FunctionDef {
                span: _,
                attributes: _,
                name: _,
                params: _,
                return_type: _,
                body: _,
                type_params: _,
                is_comptime: _,
                is_async: _,
                contracts: _,
            } => self.item(stmt, fuel),
            Stmt::TypeDef { span: _, attributes: _, name: _, params: _, definition: _ } => self.item(
                stmt,
                fuel,
            ),
            Stmt::VariableDef {
                mutable,
                name,
                pattern,
                ty,
                value,
                else_branch,
                span,
                type_captures,
            } => {
                let s = match name {
                    Some(n) => {
                        let (s, t) = match ty {
                            Some(t) => self.type_expr(*t, fuel),
                            None => match value {
                                Some(v) => self.type_of_expr(*v, fuel),
                                None => (
                                    self.report(DiagKind::CannotInfer, Some(span)),
                                    self.error(),
                                ),
                            },
                        };
                        s.bind(n, t, mutable, span)
                    },
                    None => self,
                };
                s.captures(type_captures, span).optional_pattern(pattern, fuel).optional_block(
                    else_branch,
                    fuel,
                )
            },
            Stmt::Expression(e) => self.expr(*e, fuel).0,
            Stmt::If { cond, then_branch, else_branch } => self.expr(*cond, fuel).0.block(then_branch, fuel).optional_block(else_branch, fuel),
            Stmt::IfLet { pattern, scrutinee, then_branch, else_branch } => self.expr(
                *scrutinee,
                fuel,
            ).0.pattern(*pattern, fuel).block(then_branch, fuel).optional_block(else_branch, fuel),
            Stmt::While { cond, body, loop_invariant, measure } => self.expr(
                *cond,
                fuel,
            ).0.optional_expr(loop_invariant, fuel).optional_expr(measure, fuel).block(body, fuel),
            Stmt::WhileLet { pattern, scrutinee, body, loop_invariant, measure } => self.expr(
                *scrutinee,
                fuel,
            ).0.pattern(*pattern, fuel).optional_expr(loop_invariant, fuel).optional_expr(
                measure,
                fuel,
            ).block(body, fuel),
            Stmt::For { pattern, iterable, body, loop_invariant, measure } => self.expr(
                *iterable,
                fuel,
            ).0.pattern(*pattern, fuel).optional_expr(loop_invariant, fuel).optional_expr(
                measure,
                fuel,
            ).block(body, fuel),
            Stmt::Loop { body } => self.block(body, fuel),
            Stmt::Return { value } => self.optional_expr(value, fuel),
            Stmt::Assign { target, value } => self.expr(*target, fuel).0.expr(*value, fuel).0,
            Stmt::ComptimeBlock { body } => self.block(body, fuel),
            Stmt::ScopeCleanup { body } => self.block(body, fuel),
            Stmt::Unsafe { body } => self.block(body, fuel),
            Stmt::GhostVariableDef { inner } => self.stmt(*inner, fuel),
            Stmt::Isolate { body } => self.block(body, fuel),
            _ => self,
        }
    }

    // -----------------------------------------------------------------------
    // Functions, traits, impl blocks
    // -----------------------------------------------------------------------

    #[verifier::opaque]
    pub open spec fn parameters(self, params: List<Param>, fuel: nat) -> (State, List<Parameter>)
        decreases fuel, params, 3nat,
    {
        match params {
            List::Nil => (self, List::Nil),
            List::Cons(link) => {
                let p = link.head;
                let (s, ty) = self.optional_type(p.ty, fuel);
                let (u, rest) = s.parameters(link.tail, fuel);
                (u, rest.cons(Parameter { name: p.name, ty, span: p.span, default: p.default }))
            },
        }
    }

    /// The type that a function returns: none is the unit type.
    #[verifier::opaque]
    pub open spec fn returned(self, ty: Option<Rc<Type>>, fuel: nat) -> (State, TypeId)
        decreases fuel, ty, 4nat,
    {
        match ty {
            Some(t) => self.type_expr(*t, fuel),
            None => (self, TypeId(TY_UNIT)),
        }
    }

    #[verifier::opaque]
    pub open spec fn trait_methods(self, methods: List<TraitMethod>, fuel: nat) -> (
        State,
        List<(Symbol, FunctionSignature)>,
    )
        decreases fuel, methods, 3nat,
    {
        match methods {
            List::Nil => (self, List::Nil),
            List::Cons(link) => {
                let m = link.head;
                let (s, params) = self.parameters(m.params, fuel);
                let (u, return_type) = s.type_expr(*m.return_type, fuel);
                let (v, rest) = u.trait_methods(link.tail, fuel);
                (
                    v,
                    rest.cons(
                        (
                            m.name,
                            FunctionSignature { params, return_type, type_params: List::Nil },
                        ),
                    ),
                )
            },
        }
    }

    /// A type in which what `Self` stands for is put in first.
    #[verifier::opaque]
    pub open spec fn self_type(self, ty: Type, for_type: Type, fuel: nat) -> State
        decreases fuel, ty, 0nat,
    {
        if fuel == 0 {
            self
        } else {
            self.type_expr(syntax::with_self(ty, for_type), (fuel - 1) as nat).0
        }
    }

    #[verifier::opaque]
    pub open spec fn method_params(self, params: List<Param>, for_type: Type, fuel: nat) -> State
        decreases fuel, params, 3nat,
    {
        match params {
            List::Nil => self,
            List::Cons(link) => (match link.head.ty {
                Some(t) => self.self_type(*t, for_type, fuel),
                None => self,
            }).method_params(link.tail, for_type, fuel),
        }
    }

    /// The methods of an impl block: each gets a definition, under the type
    /// that it is for, and its types are resolved.
    #[verifier::opaque]
    pub open spec fn impl_methods(
        self,
        methods: List<ImplMethod>,
        receiver: Option<DefId>,
        for_type: Type,
        fuel: nat,
    ) -> State
        decreases fuel, methods, 3nat,
    {
        match methods {
            List::Nil => self,
            List::Cons(link) => {
                let m = link.head;
                let (s, d) = self.define();
                let u = match receiver {
                    Some(r) => State {
                        symbols: SymbolTable {
                            method_ids: s.symbols.method_ids.cons((r, m.name, d)),
                            ..s.symbols
                        },
                        ..s
                    },
                    None => s,
                };
                u.method_params(m.params, for_type, fuel).self_type(
                    *m.return_type,
                    for_type,
                    fuel,
                ).impl_methods(link.tail, receiver, for_type, fuel)
            },
        }
    }

    #[verifier::opaque]
    pub open spec fn assoc_types(self, list: List<AssocType>, fuel: nat) -> State
        decreases fuel, list, 3nat,
    {
        match list {
            List::Nil => self,
            List::Cons(link) => (match link.head.default {
                Some(t) => self.type_expr(*t, fuel).0,
                None => self,
            }).assoc_types(link.tail, fuel),
        }
    }

    /// The trait of an impl block.
    #[verifier::opaque]
    pub open spec fn impl_trait(self, path: Option<Rc<Type>>, fuel: nat) -> (State, Option<DefId>)
        decreases fuel, path, 4nat,
    {
        match path {
            None => (self, None),
            Some(t) => match *t {
                Type::Path(p, _) => (self, self.symbols.trait_by_path(p)),
                _ => {
                    let (s, ty) = self.type_expr(*t, fuel);
                    (s, s.ctx.def_of(ty))
                },
            },
        }
    }

    /// An impl of the built-in trait for dropping marks the type.
    pub open spec fn mark_drop(self, of_trait: Option<DefId>, resolved_for: TypeId) -> State {
        match of_trait {
            None => self,
            Some(d) => {
                let drop_id = match self.builtin_drop {
                    Some(x) => Some(x),
                    None => match self.symbols.named_trait(Symbol(DROP)) {
                        Some(b) => Some(b.def_id),
                        None => None,
                    },
                };
                let s = State { builtin_drop: drop_id, ..self };
                if Some(d) == drop_id {
                    match s.ctx.def_of(resolved_for) {
                        Some(a) => State { ctx: s.ctx.with_drop(a), ..s },
                        None => s,
                    }
                } else {
                    s
                }
            },
        }
    }

    // -----------------------------------------------------------------------
    // Type definitions
    // -----------------------------------------------------------------------

    #[verifier::opaque]
    pub open spec fn struct_fields(self, fields: List<FieldDef>, fuel: nat) -> (
        State,
        List<FieldBinding>,
    )
        decreases fuel, fields, 3nat,
    {
        match fields {
            List::Nil => (self, List::Nil),
            List::Cons(link) => {
                let f = link.head;
                let (s, ty) = self.type_expr(*f.ty, fuel);
                let (u, rest) = s.struct_fields(link.tail, fuel);
                (
                    u,
                    rest.cons(
                        FieldBinding { name: f.name, ty, default: f.default, span: f.span },
                    ),
                )
            },
        }
    }

    /// The payloads of variants. What is wrong with them is reported later:
    /// a payload may name the enum itself.
    #[verifier::opaque]
    pub open spec fn payloads(self, variants: List<VariantDef>, fuel: nat) -> (
        State,
        List<FieldBinding>,
    )
        decreases fuel, variants, 3nat,
    {
        match variants {
            List::Nil => (self, List::Nil),
            List::Cons(link) => {
                let v = link.head;
                match v.payload {
                    Some(p) => {
                        let (s, ty) = self.type_expr(*p, fuel);
                        let (u, rest) = State { diagnostics: self.diagnostics, ..s }.payloads(
                            link.tail,
                            fuel,
                        );
                        (
                            u,
                            rest.cons(
                                FieldBinding { name: v.name, ty, default: None, span: v.span },
                            ),
                        )
                    },
                    None => self.payloads(link.tail, fuel),
                }
            },
        }
    }

    /// The `when` constraints of a variant: on a parameter of the enum or an
    /// `exists` variable, and not by a parameter of the enum.
    pub open spec fn when_names(
        self,
        eqs: List<(Symbol, Rc<Type>)>,
        params: List<TypeParam>,
        exists_params: List<Symbol>,
        span: Span,
    ) -> State
        decreases eqs,
    {
        match eqs {
            List::Nil => self,
            List::Cons(link) => {
                let (name, ty) = link.head;
                let s = if syntax::is_param(params, name) || syntax::has_name(
                    exists_params,
                    name,
                ) {
                    self
                } else {
                    self.report(
                        DiagKind::UnknownWhenParam(name, param_names(params, exists_params)),
                        Some(span),
                    )
                };
                let u = match syntax::param_in_type(*ty, params) {
                    Some(bad) => s.report(
                        DiagKind::WhenRefersToParam(bad),
                        Some(type_span(*ty)),
                    ),
                    None => s,
                };
                u.when_names(link.tail, params, exists_params, span)
            },
        }
    }

    pub open spec fn exists_names(
        self,
        exists_params: List<Symbol>,
        params: List<TypeParam>,
        span: Span,
    ) -> State
        decreases exists_params,
    {
        match exists_params {
            List::Nil => self,
            List::Cons(link) => (if syntax::is_param(params, link.head) {
                self.report(DiagKind::ExistsShadows(link.head), Some(span))
            } else {
                self
            }).exists_names(link.tail, params, span),
        }
    }

    /// A constraint against the later ones on the same parameter.
    pub open spec fn contradictions_with(
        self,
        first: (Symbol, Rc<Type>),
        later: List<(Symbol, Rc<Type>)>,
        exists_params: List<Symbol>,
    ) -> State
        decreases later,
    {
        match later {
            List::Nil => self,
            List::Cons(link) => {
                let (name, ty) = link.head;
                (if name == first.0 && syntax::concrete(
                    *first.1,
                    exists_params,
                    self.symbols,
                ) && syntax::concrete(*ty, exists_params, self.symbols) && syntax::types_differ(
                    *first.1,
                    *ty,
                    self.symbols,
                ) {
                    self.report(
                        DiagKind::Contradictory(name, first.1, ty),
                        Some(type_span(*ty)),
                    )
                } else {
                    self
                }).contradictions_with(first, link.tail, exists_params)
            },
        }
    }

    pub open spec fn contradictions(
        self,
        eqs: List<(Symbol, Rc<Type>)>,
        exists_params: List<Symbol>,
    ) -> State
        decreases eqs,
    {
        match eqs {
            List::Nil => self,
            List::Cons(link) => self.contradictions_with(
                link.head,
                link.tail,
                exists_params,
            ).contradictions(link.tail, exists_params),
        }
    }

    pub open spec fn variant_checks(
        self,
        variants: List<VariantDef>,
        params: List<TypeParam>,
        span: Span,
    ) -> State
        decreases variants,
    {
        match variants {
            List::Nil => self,
            List::Cons(link) => {
                let v = link.head;
                self.when_names(v.eq_spec, params, v.exists_params, span).exists_names(
                    v.exists_params,
                    params,
                    span,
                ).contradictions(v.eq_spec, v.exists_params).variant_checks(
                    link.tail,
                    params,
                    span,
                )
            },
        }
    }

    /// One report for each default among the modifiers.
    pub open spec fn default_checks(self, mods: List<TypeModifier>, span: Span) -> State
        decreases mods,
    {
        match mods {
            List::Nil => self,
            List::Cons(link) => (match link.head {
                TypeModifier::Default(_) => self.report(
                    DiagKind::DefaultOnGeneric,
                    Some(span),
                ),
                _ => self,
            }).default_checks(link.tail, span),
        }
    }

    /// The fields, variants and defaults that a definition gives.
    #[verifier::opaque]
    pub open spec fn definition(
        self,
        def: TypeDefinition,
        params: List<TypeParam>,
        span: Span,
        fuel: nat,
    ) -> (State, TypeBody)
        decreases fuel, def, 3nat,
    {
        match def {
            TypeDefinition::Struct(fields) => {
                let (s, bound) = self.struct_fields(fields, fuel);
                (s, TypeBody { fields: bound, ..TypeBody::none() })
            },
            TypeDefinition::Enum(variants, missing, mods) => {
                let (s, bound) = self.payloads(variants, fuel);
                let u = s.variant_checks(variants, params, span);
                let v = if params is Cons && any_constrained(variants, params) {
                    u.default_checks(mods, span)
                } else {
                    u
                };
                (
                    v,
                    TypeBody {
                        fields: bound,
                        variants,
                        missing_match: missing,
                        ..TypeBody::none()
                    },
                )
            },
            TypeDefinition::Alias(ty, mods) => (
                self,
                TypeBody {
                    alias_ast: Some(ty),
                    default_value: last_default(mods, None),
                    no_default: without_default(mods),
                    ..TypeBody::none()
                },
            ),
            _ => (self, TypeBody::none()),
        }
    }

    // -----------------------------------------------------------------------
    // Layout attributes
    // -----------------------------------------------------------------------

    /// The names in a layout attribute: `C`, or aliases.
    pub open spec fn layout_names(self, args: List<Expr>, lay: Layout) -> Layout
        decreases args,
    {
        match args {
            List::Nil => lay,
            List::Cons(link) => self.layout_names(
                link.tail,
                match link.head {
                    Expr::Ident(name, _) => if name.0 == LAYOUT_C {
                        Layout { c_layout: true, ..lay }
                    } else {
                        match table::entry(self.layout_aliases, name) {
                            Some(attrs) => Layout {
                                expanded: with_missing(lay.expanded, attrs),
                                ..lay
                            },
                            None => lay,
                        }
                    },
                    _ => lay,
                },
            ),
        }
    }

    pub open spec fn endian_attr(self, attr: Attribute, lay: Layout) -> (State, Layout) {
        match attr.args {
            List::Nil => (
                self.report(DiagKind::EndianNeedsArgument, Some(attr.span)),
                lay,
            ),
            List::Cons(link) => match link.head {
                Expr::Ident(name, _) => if name.0 == LITTLE {
                    (self, Layout { endian: Some(Endianness::Little), ..lay })
                } else if name.0 == BIG {
                    (self, Layout { endian: Some(Endianness::Big), ..lay })
                } else {
                    (self.report(DiagKind::EndianExpects(name), Some(attr.span)), lay)
                },
                _ => (self.report(DiagKind::EndianNeedsIdent, Some(attr.span)), lay),
            },
        }
    }

    pub open spec fn bit_order_attr(self, attr: Attribute, lay: Layout) -> (State, Layout) {
        match attr.args {
            List::Nil => (
                self.report(DiagKind::BitOrderNeedsArgument, Some(attr.span)),
                lay,
            ),
            List::Cons(link) => match link.head {
                Expr::Ident(name, _) => if name.0 == LSB_TO_MSB {
                    (self, Layout { bit_order: Some(BitOrder::LsbToMsb), ..lay })
                } else if name.0 == MSB_TO_LSB {
                    (self, Layout { bit_order: Some(BitOrder::MsbToLsb), ..lay })
                } else {
                    (self.report(DiagKind::BitOrderExpects(name), Some(attr.span)), lay)
                },
                _ => (self.report(DiagKind::BitOrderNeedsIdent, Some(attr.span)), lay),
            },
        }
    }

    pub open spec fn size_attr(self, attr: Attribute, lay: Layout) -> (State, Layout) {
        match attr.args {
            List::Nil => (
                self.report(DiagKind::NeedsInteger(attr.name, false), Some(attr.span)),
                lay,
            ),
            List::Cons(link) => match link.head {
                Expr::Literal(Literal::Int(n), _) => (
                    self,
                    if attr.name.0 == ALIGN {
                        Layout { align: Some(size_value(n)), ..lay }
                    } else {
                        Layout { pad: Some(size_value(n)), ..lay }
                    },
                ),
                _ => (
                    self.report(DiagKind::NeedsInteger(attr.name, true), Some(attr.span)),
                    lay,
                ),
            },
        }
    }

    pub open spec fn layout_attr(self, attr: Attribute, lay: Layout) -> (State, Layout) {
        if attr.name.0 == LAYOUT {
            (self, self.layout_names(attr.args, lay))
        } else if attr.name.0 == TRANSPARENT {
            (self, Layout { transparent: true, ..lay })
        } else if attr.name.0 == PACKED {
            (self, Layout { packed: true, ..lay })
        } else if attr.name.0 == ENDIAN {
            self.endian_attr(attr, lay)
        } else if attr.name.0 == BIT_ORDER {
            self.bit_order_attr(attr, lay)
        } else if attr.name.0 == ALIGN || attr.name.0 == PAD {
            self.size_attr(attr, lay)
        } else {
            (self, lay)
        }
    }

    /// What the attributes say of the layout, one after the other.
    pub open spec fn layout_attrs(self, attrs: List<Attribute>, lay: Layout) -> (State, Layout)
        decreases attrs,
    {
        match attrs {
            List::Nil => (self, lay),
            List::Cons(link) => {
                let (s, l) = self.layout_attr(link.head, lay);
                s.layout_attrs(link.tail, l)
            },
        }
    }

    // -----------------------------------------------------------------------
    // Imports
    // -----------------------------------------------------------------------

    /// A type becomes known under a name of the current scope and under a
    /// full path.
    pub open spec fn import_type(
        self,
        name: Symbol,
        d: DefId,
        full: List<Symbol>,
        span: Span,
    ) -> State {
        let s = State {
            map: ResolutionMap {
                type_def_ids: self.map.type_def_ids.cons((name, d)),
                ..self.map
            },
            ..self
        };
        let u = match s.symbols.type_def(d) {
            Some(b) => State { symbols: s.symbols.with_type(name, b, span).0, ..s },
            None => s,
        };
        State {
            symbols: SymbolTable {
                full_paths: u.symbols.full_paths.cons((full, d)),
                ..u.symbols
            },
            ..u
        }
    }

    pub open spec fn import_type_items(
        self,
        items: List<Symbol>,
        path: List<Symbol>,
        span: Span,
    ) -> State
        decreases items,
    {
        match items {
            List::Nil => self,
            List::Cons(link) => (match self.symbols.type_by_path(List::Nil.cons(link.head)) {
                Some(d) => self.import_type(link.head, d, path.snoc(link.head), span),
                None => self,
            }).import_type_items(link.tail, path, span),
        }
    }

    pub open spec fn import_trait_items(self, items: List<Symbol>, span: Span) -> State
        decreases items,
    {
        match items {
            List::Nil => self,
            List::Cons(link) => (match self.symbols.trait_by_path(List::Nil.cons(link.head)) {
                Some(d) => match self.symbols.trait_def(d) {
                    Some(b) => State {
                        symbols: self.symbols.with_trait(link.head, b, span).0,
                        ..self
                    },
                    None => self,
                },
                None => self,
            }).import_trait_items(link.tail, span),
        }
    }

    /// The trait that a path names, with its definition.
    pub open spec fn trait_at(self, path: List<Symbol>) -> Option<Rc<TraitBinding>> {
        match self.symbols.trait_by_path(path) {
            Some(d) => self.symbols.trait_def(d),
            None => None,
        }
    }

    /// The function that a path of one name names.
    pub open spec fn function_at(self, path: List<Symbol>) -> Option<Rc<FunctionBinding>> {
        match syntax::single(path) {
            Some(n) => table::function_in(self.symbols.scopes, n),
            None => None,
        }
    }

    /// An import: of a type, else of a trait, else of a function.
    pub open spec fn import(
        self,
        path: List<Symbol>,
        items: Option<List<Symbol>>,
        alias: Option<Symbol>,
        span: Span,
    ) -> State {
        let name = match alias {
            Some(a) => Some(a),
            None => last_name(path),
        };
        match self.symbols.type_by_path(path) {
            Some(d) => {
                let s = match name {
                    Some(n) => self.import_type(n, d, path, span),
                    None => self,
                };
                match items {
                    Some(list) => s.import_type_items(list, path, span),
                    None => s,
                }
            },
            None => match self.trait_at(path) {
                Some(b) => {
                    let s = match name {
                        Some(n) => State {
                            symbols: self.symbols.with_trait(n, b, span).0,
                            ..self
                        },
                        None => self,
                    };
                    match items {
                        Some(list) => s.import_trait_items(list, span),
                        None => s,
                    }
                },
                None => match self.function_at(path) {
                    Some(f) => match name {
                        Some(n) => self.note(self.symbols.with_function(n, f, span)),
                        None => self,
                    },
                    None => self.report(DiagKind::CannotImport(path), Some(span)),
                },
            },
        }
    }

    // -----------------------------------------------------------------------
    // Items
    // -----------------------------------------------------------------------

    #[verifier::opaque]
    pub open spec fn bounds(self, tys: List<Type>, fuel: nat) -> (State, List<TypeId>)
        decreases fuel, tys, 3nat,
    {
        match tys {
            List::Nil => (self, List::Nil),
            List::Cons(link) => {
                let (s, t) = match self.bound_trait(link.head) {
                    Some(d) => self.add_type(TypeData::DynTrait { traits: List::Nil.cons(d) }),
                    None => self.type_expr(link.head, fuel),
                };
                let (u, rest) = s.bounds(link.tail, fuel);
                (u, rest.cons(t))
            },
        }
    }

    /// The trait that a bound names, if it is one.
    pub open spec fn bound_trait(self, ty: Type) -> Option<DefId> {
        match State::base_name(ty) {
            Some(n) => match self.symbols.named_trait(n) {
                Some(b) => Some(b.def_id),
                None => None,
            },
            None => None,
        }
    }

    #[verifier::opaque]
    pub open spec fn predicates(self, list: List<Predicate>, fuel: nat) -> (
        State,
        List<ConstraintPredicate>,
    )
        decreases fuel, list, 3nat,
    {
        match list {
            List::Nil => (self, List::Nil),
            List::Cons(link) => {
                let (s, subject) = self.type_expr(*link.head.ty, fuel);
                let (u, bounds) = s.bounds(link.head.bounds, fuel);
                let (v, rest) = u.predicates(link.tail, fuel);
                (v, rest.cons(ConstraintPredicate { subject, bounds }))
            },
        }
    }

    /// The name and the signature of a function, with its type parameters in
    /// scope.
    #[verifier::opaque]
    pub open spec fn function_head(self, stmt: Stmt, fuel: nat) -> State
        decreases fuel, stmt, 3nat,
    {
        match stmt {
            Stmt::FunctionDef {
                span,
                attributes,
                name,
                params,
                return_type,
                body,
                type_params,
                is_comptime,
                is_async,
                contracts,
            } => {
                let (s0, def_id) = self.define();
                let (s1, ps) = s0.with_generics(type_params).parameters(params, fuel);
                let (s2, ret) = s1.returned(return_type, fuel);
                let b = FunctionBinding {
                    def_id,
                    signature: FunctionSignature { params: ps, return_type: ret, type_params },
                    is_comptime,
                    is_async,
                    is_pure: has_attribute(attributes, PURE),
                    is_ieee_contracts: has_attribute(attributes, IEEE_CONTRACTS),
                    hints: hints(attributes),
                    contracts,
                    attributes,
                };
                let s3 = s2.note(s2.symbols.with_function_at_root(name, Rc::new(b), span));
                State { has_main: s3.has_main || name.0 == MAIN, ..s3 }
            },
            _ => self,
        }
    }

    /// The parameters and the body of a function; its type parameters go out
    /// of scope.
    #[verifier::opaque]
    pub open spec fn function_body(self, stmt: Stmt, fuel: nat) -> State
        decreases fuel, stmt, 3nat,
    {
        match stmt {
            Stmt::FunctionDef {
                span: _,
                attributes: _,
                name: _,
                params,
                return_type: _,
                body,
                type_params: _,
                is_comptime: _,
                is_async: _,
                contracts: _,
            } => {
                let s = self.enter().bind_params(params, fuel);
                let u = match body {
                    Some(stmts) => s.stmts(stmts, fuel),
                    None => s,
                };
                State { impl_params: None, ..u }.exit()
            },
            _ => self,
        }
    }

    #[verifier::opaque]
    pub open spec fn function_def(self, stmt: Stmt, fuel: nat) -> State
        decreases fuel, stmt, 4nat,
    {
        self.function_head(stmt, fuel).function_body(stmt, fuel)
    }

    #[verifier::opaque]
    pub open spec fn type_def(self, stmt: Stmt, fuel: nat) -> State
        decreases fuel, stmt, 4nat,
    {
        match stmt {
            Stmt::TypeDef { span, attributes, name, params, definition } => {
                let (s0, def_id) = self.define();
                let s1 = State {
                    map: ResolutionMap {
                        type_def_ids: s0.map.type_def_ids.cons((name, def_id)),
                        ..s0.map
                    },
                    ..s0
                };
                let (s2, body) = s1.with_generics(params).definition(
                    *definition,
                    params,
                    span,
                    fuel,
                );
                let (s3, layout) = s2.layout_attrs(attributes, no_layout(attributes));
                let kind = kind_of(*definition);
                let s4 = if kind == TypeKind::Struct || kind == TypeKind::Enum {
                    State {
                        ctx: s3.ctx.with_adt(
                            def_id,
                            AdtDef { fields: field_types(body.fields), has_drop: false },
                        ),
                        ..s3
                    }
                } else {
                    s3
                };
                let b = TypeBinding {
                    def_id,
                    params,
                    kind,
                    span,
                    alias_ast: body.alias_ast,
                    attributes,
                    fields: body.fields,
                    variants: body.variants,
                    default_value: body.default_value,
                    no_default: body.no_default,
                    crate_id: s4.symbols.local_crate_id,
                    missing_match: body.missing_match,
                    exhaustive: has_attribute(attributes, EXHAUSTIVE),
                    layout,
                };
                let s5 = s4.note(s4.symbols.with_type(name, Rc::new(b), span));
                let s6 = State {
                    symbols: SymbolTable {
                        full_paths: s5.symbols.full_paths.cons(
                            (s5.modules.snoc(name), def_id),
                        ),
                        ..s5.symbols
                    },
                    ..s5
                };
                let s7 = match s6.symbols.named_type(name) {
                    Some(found) => State {
                        map: ResolutionMap {
                            type_bindings: s6.map.type_bindings.cons((def_id, found)),
                            ..s6.map
                        },
                        ..s6
                    },
                    None => s6,
                };
                State { impl_params: self.impl_params, ..s7 }
            },
            _ => self,
        }
    }

    #[verifier::opaque]
    pub open spec fn trait_def(self, stmt: Stmt, fuel: nat) -> State
        decreases fuel, stmt, 4nat,
    {
        match stmt {
            Stmt::TraitDef { span, name, methods, associated_types, attributes } => {
                let (s0, def_id) = self.define();
                let (s1, t) = s0.add_type(
                    TypeData::GenericParam { index: 0, name: Symbol(SELF_TYPE) },
                );
                let (s2, sigs) = State { impl_for: Some(t), ..s1 }.trait_methods(methods, fuel);
                let s3 = State { impl_for: None, ..s2 };
                let b = TraitBinding {
                    def_id,
                    methods: sigs,
                    associated_types: assoc_defaults(associated_types),
                    span,
                    attributes,
                    crate_id: s3.symbols.local_crate_id,
                };
                s3.note(s3.symbols.with_trait(name, Rc::new(b), span))
            },
            _ => self,
        }
    }

    #[verifier::opaque]
    pub open spec fn impl_block(self, stmt: Stmt, fuel: nat) -> State
        decreases fuel, stmt, 4nat,
    {
        match stmt {
            Stmt::ImplBlock {
                span,
                attributes,
                trait_path,
                for_type,
                methods,
                associated_types,
                type_params,
            } => {
                let (s0, resolved_for) = self.with_generics(type_params).type_expr(
                    *for_type,
                    fuel,
                );
                let (s1, of_trait) = State { impl_for: Some(resolved_for), ..s0 }.impl_trait(
                    trait_path,
                    fuel,
                );
                let (s2, def_id) = s1.mark_drop(of_trait, resolved_for).enter().define();
                let s3 = State {
                    symbols: SymbolTable {
                        impls: s2.symbols.impls.cons(
                            Rc::new(ImplBinding { def_id, methods, span }),
                        ),
                        ..s2.symbols
                    },
                    ..s2
                };
                let s4 = s3.impl_methods(
                    methods,
                    s3.ctx.def_of(resolved_for),
                    *for_type,
                    fuel,
                ).assoc_types(associated_types, fuel);
                State { impl_params: None, impl_for: None, ..s4 }.exit()
            },
            _ => self,
        }
    }

    #[verifier::opaque]
    pub open spec fn constraint_def(self, stmt: Stmt, fuel: nat) -> State
        decreases fuel, stmt, 4nat,
    {
        match stmt {
            Stmt::Constraint { name, params, predicates, span } => {
                let (s0, list) = self.with_generics(params).predicates(predicates, fuel);
                let s1 = State { impl_params: None, ..s0 };
                s1.note(
                    s1.symbols.with_constraint(
                        name,
                        Rc::new(ConstraintBinding { predicates: list, params, span }),
                        span,
                    ),
                )
            },
            _ => self,
        }
    }

    #[verifier::opaque]
    pub open spec fn foreign_function(self, stmt: Stmt, fuel: nat) -> State
        decreases fuel, stmt, 4nat,
    {
        match stmt {
            Stmt::ExternFunction { name, params, return_type, span, attributes } => {
                let (s0, def_id) = self.define();
                let (s1, ps) = s0.parameters(params, fuel);
                let (s2, ret) = s1.type_expr(*return_type, fuel);
                let b = FunctionBinding {
                    def_id,
                    signature: FunctionSignature {
                        params: ps,
                        return_type: ret,
                        type_params: List::Nil,
                    },
                    is_comptime: false,
                    is_async: false,
                    is_pure: false,
                    is_ieee_contracts: has_attribute(attributes, IEEE_CONTRACTS),
                    hints: hints(attributes),
                    contracts: List::Nil,
                    attributes,
                };
                s2.note(s2.symbols.with_function(name, Rc::new(b), span))
            },
            _ => self,
        }
    }

    pub open spec fn edition(self, version: Rc<String>, span: Span) -> State {
        match Edition::named(version@) {
            Some(e) => State { ctx: Types { edition: Some(e), ..self.ctx }, ..self },
            None => self.report(DiagKind::UnknownEdition(version), Some(span)),
        }
    }

    pub open spec fn layout_def(self, name: Symbol, attributes: List<Attribute>) -> State {
        if table::entry(self.layout_aliases, name) is Some {
            self.report(DiagKind::DuplicateLayout(name), Some(Span { start: 0, end: 0 }))
        } else {
            State { layout_aliases: self.layout_aliases.cons((name, attributes)), ..self }
        }
    }

    /// An item: a declaration. Of the statements, the definition of a
    /// variable is refused here.
    #[verifier::opaque]
    pub open spec fn item(self, stmt: Stmt, fuel: nat) -> State
        decreases fuel, stmt, 5nat,
    {
        match stmt {
            Stmt::FunctionDef {
                span: _,
                attributes: _,
                name: _,
                params: _,
                return_type: _,
                body: _,
                type_params: _,
                is_comptime: _,
                is_async: _,
                contracts: _,
            } => self.function_def(stmt, fuel),
            Stmt::TypeDef { span: _, attributes: _, name: _, params: _, definition: _ } => {
                self.type_def(stmt, fuel)
            },
            Stmt::TraitDef { span: _, name: _, methods: _, associated_types: _, attributes: _ } => {
                self.trait_def(stmt, fuel)
            },
            Stmt::ImplBlock {
                span: _,
                attributes: _,
                trait_path: _,
                for_type: _,
                methods: _,
                associated_types: _,
                type_params: _,
            } => self.impl_block(stmt, fuel),
            Stmt::Import { path, items, alias, span } => self.import(path, items, alias, span),
            Stmt::Edition(version, span) => self.edition(version, span),
            Stmt::LayoutDef { name, attributes } => self.layout_def(name, attributes),
            Stmt::Constraint { name: _, params: _, predicates: _, span: _ } => {
                self.constraint_def(stmt, fuel)
            },
            Stmt::ExternFunction {
                name: _,
                params: _,
                return_type: _,
                span: _,
                attributes: _,
            } => self.foreign_function(stmt, fuel),
            Stmt::VariableDef {
                mutable: _,
                name: _,
                pattern: _,
                ty: _,
                value: _,
                else_branch: _,
                span,
                type_captures: _,
            } => self.report(DiagKind::NotTopLevel, Some(span)),
            _ => self,
        }
    }

    #[verifier::opaque]
    pub open spec fn items(self, list: List<Stmt>, fuel: nat) -> State
        decreases list,
    {
        match list {
            List::Nil => self,
            List::Cons(link) => self.item(link.head, fuel).items(link.tail, fuel),
        }
    }

    /// An item; of a function, its signature alone.
    #[verifier::opaque]
    pub open spec fn declared(self, stmt: Stmt, fuel: nat) -> State {
        if stmt is FunctionDef {
            State { impl_params: None, ..self.function_head(stmt, fuel) }
        } else {
            self.item(stmt, fuel)
        }
    }

    #[verifier::opaque]
    pub open spec fn all_declared(self, list: List<Stmt>, fuel: nat) -> State
        decreases list,
    {
        match list {
            List::Nil => self,
            List::Cons(link) => self.declared(link.head, fuel).all_declared(link.tail, fuel),
        }
    }

    /// The body of a function whose signature is known.
    #[verifier::opaque]
    pub open spec fn body_resolved(self, stmt: Stmt, fuel: nat) -> State {
        match stmt {
            Stmt::FunctionDef {
                span: _,
                attributes: _,
                name: _,
                params: _,
                return_type: _,
                body: _,
                type_params,
                is_comptime: _,
                is_async: _,
                contracts: _,
            } => self.with_generics(type_params).function_body(stmt, fuel),
            _ => self,
        }
    }

    #[verifier::opaque]
    pub open spec fn bodies_resolved(self, list: List<Stmt>, fuel: nat) -> State
        decreases list,
    {
        match list {
            List::Nil => self,
            List::Cons(link) => self.body_resolved(link.head, fuel).bodies_resolved(
                link.tail,
                fuel,
            ),
        }
    }

    /// Items whose functions may refer to each other in any order: all that is
    /// declared comes before the bodies of the functions.
    pub open spec fn batch(self, list: List<Stmt>, fuel: nat) -> State {
        self.all_declared(list, fuel).bodies_resolved(list, fuel)
    }
}

/// What a type definition gives besides its name.
pub struct TypeBody {
    pub fields: List<FieldBinding>,
    pub variants: List<VariantDef>,
    pub alias_ast: Option<Rc<Type>>,
    pub default_value: Option<Rc<Expr>>,
    pub no_default: bool,
    pub missing_match: Option<Rc<Expr>>,
}

impl TypeBody {
    pub open spec fn none() -> TypeBody {
        TypeBody {
            fields: List::Nil,
            variants: List::Nil,
            alias_ast: None,
            default_value: None,
            no_default: false,
            missing_match: None,
        }
    }
}

/// The sort of a definition.
pub open spec fn kind_of(def: TypeDefinition) -> TypeKind {
    match def {
        TypeDefinition::Struct(_) => TypeKind::Struct,
        TypeDefinition::Enum(_, _, _) => TypeKind::Enum,
        TypeDefinition::Alias(_, _) => TypeKind::Alias,
        TypeDefinition::Opaque => TypeKind::Opaque,
        TypeDefinition::TraitDef => TypeKind::Trait,
        TypeDefinition::ImplBlock => TypeKind::Impl,
        TypeDefinition::Constraint => TypeKind::Constraint,
    }
}

pub open spec fn field_types(fields: List<FieldBinding>) -> List<TypeId>
    decreases fields,
{
    match fields {
        List::Nil => List::Nil,
        List::Cons(link) => field_types(link.tail).cons(link.head.ty),
    }
}

pub open spec fn assoc_defaults(list: List<AssocType>) -> List<(Symbol, Option<Rc<Type>>)>
    decreases list,
{
    match list {
        List::Nil => List::Nil,
        List::Cons(link) => assoc_defaults(link.tail).cons((link.head.name, link.head.default)),
    }
}

/// Some constraint is on a parameter of the enum or an `exists` variable of
/// its own.
pub open spec fn constrained(
    eqs: List<(Symbol, Rc<Type>)>,
    params: List<TypeParam>,
    exists_params: List<Symbol>,
) -> bool
    decreases eqs,
{
    match eqs {
        List::Nil => false,
        List::Cons(link) => syntax::is_param(params, link.head.0) || syntax::has_name(
            exists_params,
            link.head.0,
        ) || constrained(link.tail, params, exists_params),
    }
}

pub open spec fn any_constrained(variants: List<VariantDef>, params: List<TypeParam>) -> bool
    decreases variants,
{
    match variants {
        List::Nil => false,
        List::Cons(link) => constrained(
            link.head.eq_spec,
            params,
            link.head.exists_params,
        ) || any_constrained(link.tail, params),
    }
}

/// The last default among the modifiers.
pub open spec fn last_default(mods: List<TypeModifier>, found: Option<Rc<Expr>>) -> Option<
    Rc<Expr>,
>
    decreases mods,
{
    match mods {
        List::Nil => found,
        List::Cons(link) => last_default(
            link.tail,
            match link.head {
                TypeModifier::Default(e) => Some(e),
                _ => found,
            },
        ),
    }
}

pub open spec fn without_default(mods: List<TypeModifier>) -> bool
    decreases mods,
{
    match mods {
        List::Nil => false,
        List::Cons(link) => link.head is NoDefault || without_default(link.tail),
    }
}

/// The attributes with those of an alias that are missing.
pub open spec fn with_missing(expanded: List<Attribute>, more: List<Attribute>) -> List<Attribute>
    decreases more,
{
    match more {
        List::Nil => expanded,
        List::Cons(link) => with_missing(
            if has_attribute(expanded, link.head.name.0) {
                expanded
            } else {
                expanded.snoc(link.head)
            },
            link.tail,
        ),
    }
}

/// The last name of a path.
pub open spec fn last_name(path: List<Symbol>) -> Option<Symbol>
    decreases path,
{
    match path {
        List::Nil => None,
        List::Cons(link) => if link.tail is Nil {
            Some(link.head)
        } else {
            last_name(link.tail)
        },
    }
}

/// Where a type stands in the source.
pub open spec fn type_span(ty: Type) -> Span {
    match ty {
        Type::Path(_, s) => s,
        Type::Generic(_, _, s) => s,
        Type::Reference { inner, mutable, lifetime, span } => span,
        Type::Pointer(_, s) => s,
        Type::Slice(_, s) => s,
        Type::Array(_, _, s) => s,
        Type::Tuple(_, s) => s,
        Type::Function { params, ret, span } => span,
        Type::Forall { lifetime, body, span } => span,
        Type::Projection { impl_type, trait_path, assoc_name, span } => span,
        Type::DynTrait(_, s) => s,
        Type::Exists { name, base, condition, span } => span,
        Type::WhereShorthand { base, condition, fresh, span } => span,
        Type::Literal(_, s) => s,
        Type::Never(s) => s,
        Type::Union(_, s) => s,
        Type::Error(s) => s,
        Type::Expr(_, s) => s,
        Type::Regex(_, s) => s,
    }
}

/// The types of parameters.
pub open spec fn parameter_types(params: List<Parameter>) -> List<TypeId>
    decreases params,
{
    match params {
        List::Nil => List::Nil,
        List::Cons(link) => parameter_types(link.tail).cons(link.head.ty),
    }
}

/// The layout of a type without layout attributes.
pub open spec fn no_layout(expanded: List<Attribute>) -> Layout {
    Layout {
        c_layout: false,
        transparent: false,
        packed: false,
        endian: None,
        bit_order: None,
        align: None,
        pad: None,
        expanded,
    }
}

} // verus!
