//! The resolver.
use super::builtins;
use super::builtins::{register_builtins, Builtin};
use super::diag::{DiagKind, Diagnostic};
use super::growth;
use super::state;
use super::state::{ResolutionMap, State, TypeBody};
use super::syntax::{
    find_param_ref_in_type, has_param, list_has_name, replace_ident_in_expr, resolve_self_in_type,
    rhs_is_provably_concrete, single_name, types_are_different,
};
use super::table::{
    BitOrder, ConstraintBinding, ConstraintPredicate, Endianness, FieldBinding, FunctionBinding,
    FunctionSignature, ImplBinding, Layout, Parameter, SymbolTable, TraitBinding, TypeBinding,
    TypeKind, VariableBinding,
};
use super::table;
use crate::ast::{
    AssocType, Attribute, CatchBranch, Expr, FieldDef, GenericArg, ImplMethod, Literal, MatchArm,
    Param, Pattern, Predicate, Stmt, TraitMethod, Type, TypeDefinition, TypeModifier, TypeParam,
    VariantDef,
};
use crate::list::{list_option, List};
use crate::share::{share, share_option};
use crate::symbol::{
    Span, Symbol, ALIGN, BIG, BIT_ORDER, BOOL, BYTE, CHAR, DROP, ENDIAN, EXHAUSTIVE, FLOAT, HINT,
    IEEE_CONTRACTS, INT, LAYOUT, LAYOUT_C, LITTLE, LSB_TO_MSB, MAIN, MSB_TO_LSB, NEVER, PACKED,
    PAD, PTR, PURE, RATIONAL, RESULT, SELF_TYPE, TRANSPARENT, UINT, UNIT, USIZE, VALUE,
};
use crate::types::{
    AdtDef, AdtKind, CrateId, DefId, Edition, TypeContext, TypeData, TypeId, Types, TY_BOOL, TY_BYTE,
    TY_CHAR, TY_ERROR, TY_NEVER, TY_UNIT, TY_USIZE,
};
use std::rc::Rc;
use vstd::prelude::*;

verus! {

broadcast use {
    growth::lemma_grows_same,
    growth::lemma_grows_transitive,
    growth::lemma_grows_scope,
};

/// The number of expansions of aliases inside each other that are followed.
pub const EXPANSIONS: usize = usize::MAX;

/// Resolves the names of a program.
#[derive(Debug)]
pub struct NameResolver {
    ctx: TypeContext,
    symbols: SymbolTable,
    local_crate_id: CrateId,
    diagnostics: List<Diagnostic>,
    has_main: bool,
    impl_params: Option<List<(Symbol, TypeId)>>,
    impl_for: Option<TypeId>,
    map: ResolutionMap,
    modules: List<Symbol>,
    layout_aliases: List<(Symbol, List<Attribute>)>,
    builtin_drop: Option<DefId>,
}

/// What a resolution hands out.
#[derive(Debug)]
pub struct Resolution {
    pub symbols: SymbolTable,
    /// The diagnostics, the latest first.
    pub diagnostics: List<Diagnostic>,
    pub map: ResolutionMap,
}

impl Resolution {
    /// The results in a state.
    pub open spec fn of(s: State) -> Resolution {
        Resolution {
            symbols: s.symbols,
            diagnostics: s.diagnostics,
            map: ResolutionMap { has_main: s.has_main, ..s.map },
        }
    }
}

impl View for NameResolver {
    type V = State;

    closed spec fn view(&self) -> State {
        State {
            ctx: self.ctx@,
            symbols: self.symbols,
            local_crate_id: self.local_crate_id,
            diagnostics: self.diagnostics,
            has_main: self.has_main,
            impl_params: self.impl_params,
            impl_for: self.impl_for,
            map: self.map,
            modules: self.modules,
            layout_aliases: self.layout_aliases,
            builtin_drop: self.builtin_drop,
        }
    }
}

// ---------------------------------------------------------------------------
// Syntax
// ---------------------------------------------------------------------------

fn has_attribute_named(attrs: &List<Attribute>, name: u32) -> (r: bool)
    ensures
        r == state::has_attribute(*attrs, name),
    decreases *attrs,
{
    match attrs {
        List::Nil => false,
        List::Cons(link) => link.head.name.0 == name || has_attribute_named(&link.tail, name),
    }
}

fn append_exprs(a: &List<Expr>, b: List<Expr>) -> (r: List<Expr>)
    ensures
        r == state::appended(*a, b),
    decreases *a,
{
    match a {
        List::Nil => b,
        List::Cons(link) => append_exprs(&link.tail, b).push(link.head.clone()),
    }
}

fn extract_hints(attrs: &List<Attribute>) -> (r: List<Expr>)
    ensures
        r == state::hints(*attrs),
    decreases *attrs,
{
    match attrs {
        List::Nil => List::Nil,
        List::Cons(link) => if link.head.name.0 == HINT {
            append_exprs(&link.head.args, extract_hints(&link.tail))
        } else {
            extract_hints(&link.tail)
        },
    }
}

fn names_of(params: &List<TypeParam>, more: &List<Symbol>) -> (r: List<Symbol>)
    ensures
        r == state::param_names(*params, *more),
    decreases *params,
{
    match params {
        List::Nil => more.clone(),
        List::Cons(link) => names_of(&link.tail, more).push(link.head.name),
    }
}

fn size_of_literal(n: u128) -> (r: u64)
    ensures
        r == state::size_value(n),
{
    if n <= u64::MAX as u128 {
        n as u64
    } else {
        0
    }
}

fn small_literal(e: &Expr) -> (r: Option<u32>)
    ensures
        r == state::small_int(*e),
{
    match e {
        Expr::Literal(Literal::Int(n), _) => if *n > 64 {
            None
        } else {
            Some(*n as u32)
        },
        _ => None,
    }
}

fn extract_int_from_type(ty: &Type) -> (r: Option<u32>)
    ensures
        r == state::int_in_type(*ty),
{
    match ty {
        Type::Literal(e, _) => small_literal(e),
        _ => None,
    }
}

fn extract_int_from_arg(arg: &GenericArg) -> (r: Option<u32>)
    ensures
        r == state::int_in_arg(*arg),
{
    match arg {
        GenericArg::Positional(t) => extract_int_from_type(t),
        GenericArg::Named(_, t) => extract_int_from_type(t),
        GenericArg::Const(ac) => small_literal(&ac.value),
    }
}

fn int_argument(args: &List<GenericArg>, n: usize) -> (r: Option<u32>)
    ensures
        r == state::int_at(*args, n as nat),
    decreases *args,
{
    match args {
        List::Nil => None,
        List::Cons(link) => if n == 0 {
            extract_int_from_arg(&link.head)
        } else {
            int_argument(&link.tail, n - 1)
        },
    }
}

fn or_default(a: Option<u32>, b: u32) -> (r: u32)
    ensures
        r == state::or_else(a, b),
{
    match a {
        Some(x) => x,
        None => b,
    }
}

fn snoc<T>(list: &List<T>, x: T) -> (r: List<T>) where T: Clone
    requires
        forall|a: T, b: T| call_ensures(T::clone, (&a,), b) ==> a == b,
        forall|a: T| call_requires(T::clone, (&a,)),
    ensures
        r == list.snoc(x),
    decreases *list,
{
    match list {
        List::Nil => List::Nil.push(x),
        List::Cons(link) => {
            let head = link.head.clone();
            snoc(&link.tail, x).push(head)
        },
    }
}

fn kind_of_definition(def: &TypeDefinition) -> (r: TypeKind)
    ensures
        r == state::kind_of(*def),
{
    match def {
        TypeDefinition::Struct(_) => TypeKind::Struct,
        TypeDefinition::Enum(_, _, _) => TypeKind::Enum,
        TypeDefinition::Alias(_, _) => TypeKind::Alias,
        TypeDefinition::Opaque => TypeKind::Opaque,
        TypeDefinition::TraitDef => TypeKind::Trait,
        TypeDefinition::ImplBlock => TypeKind::Impl,
        TypeDefinition::Constraint => TypeKind::Constraint,
    }
}

fn types_of_fields(fields: &List<FieldBinding>) -> (r: List<TypeId>)
    ensures
        r == state::field_types(*fields),
    decreases *fields,
{
    match fields {
        List::Nil => List::Nil,
        List::Cons(link) => types_of_fields(&link.tail).push(link.head.ty),
    }
}

fn types_of_parameters(params: &List<Parameter>) -> (r: List<TypeId>)
    ensures
        r == state::parameter_types(*params),
    decreases *params,
{
    match params {
        List::Nil => List::Nil,
        List::Cons(link) => types_of_parameters(&link.tail).push(link.head.ty),
    }
}

fn defaults_of_assoc(list: &List<AssocType>) -> (r: List<(Symbol, Option<Rc<Type>>)>)
    ensures
        r == state::assoc_defaults(*list),
    decreases *list,
{
    match list {
        List::Nil => List::Nil,
        List::Cons(link) => defaults_of_assoc(&link.tail).push(
            (link.head.name, share_option(&link.head.default)),
        ),
    }
}

fn is_constrained(
    eqs: &List<(Symbol, Rc<Type>)>,
    params: &List<TypeParam>,
    exists_params: &List<Symbol>,
) -> (r: bool)
    ensures
        r == state::constrained(*eqs, *params, *exists_params),
    decreases *eqs,
{
    match eqs {
        List::Nil => false,
        List::Cons(link) => has_param(params, link.head.0) || list_has_name(
            exists_params,
            link.head.0,
        ) || is_constrained(&link.tail, params, exists_params),
    }
}

fn any_is_constrained(variants: &List<VariantDef>, params: &List<TypeParam>) -> (r: bool)
    ensures
        r == state::any_constrained(*variants, *params),
    decreases *variants,
{
    match variants {
        List::Nil => false,
        List::Cons(link) => is_constrained(
            &link.head.eq_spec,
            params,
            &link.head.exists_params,
        ) || any_is_constrained(&link.tail, params),
    }
}

fn find_last_default(mods: &List<TypeModifier>, found: Option<Rc<Expr>>) -> (r: Option<Rc<Expr>>)
    ensures
        r == state::last_default(*mods, found),
    decreases *mods,
{
    match mods {
        List::Nil => found,
        List::Cons(link) => match &link.head {
            TypeModifier::Default(e) => find_last_default(&link.tail, Some(share(e))),
            _ => find_last_default(&link.tail, found),
        },
    }
}

fn has_no_default(mods: &List<TypeModifier>) -> (r: bool)
    ensures
        r == state::without_default(*mods),
    decreases *mods,
{
    match mods {
        List::Nil => false,
        List::Cons(link) => matches!(link.head, TypeModifier::NoDefault) || has_no_default(
            &link.tail,
        ),
    }
}

fn add_missing(expanded: List<Attribute>, more: &List<Attribute>) -> (r: List<Attribute>)
    ensures
        r == state::with_missing(expanded, *more),
    decreases *more,
{
    match more {
        List::Nil => expanded,
        List::Cons(link) => if has_attribute_named(&expanded, link.head.name.0) {
            add_missing(expanded, &link.tail)
        } else {
            add_missing(snoc(&expanded, link.head.clone()), &link.tail)
        },
    }
}

fn last_of_path(path: &List<Symbol>) -> (r: Option<Symbol>)
    ensures
        r == state::last_name(*path),
    decreases *path,
{
    match path {
        List::Nil => None,
        List::Cons(link) => if link.tail.is_empty() {
            Some(link.head)
        } else {
            last_of_path(&link.tail)
        },
    }
}

fn span_of_type(ty: &Type) -> (r: Span)
    ensures
        r == state::type_span(*ty),
{
    match ty {
        Type::Path(_, s) => *s,
        Type::Generic(_, _, s) => *s,
        Type::Reference { span, .. } => *span,
        Type::Pointer(_, s) => *s,
        Type::Slice(_, s) => *s,
        Type::Array(_, _, s) => *s,
        Type::Tuple(_, s) => *s,
        Type::Function { span, .. } => *span,
        Type::Forall { span, .. } => *span,
        Type::Projection { span, .. } => *span,
        Type::DynTrait(_, s) => *s,
        Type::Exists { span, .. } => *span,
        Type::WhereShorthand { span, .. } => *span,
        Type::Literal(_, s) => *s,
        Type::Never(s) => *s,
        Type::Union(_, s) => *s,
        Type::Error(s) => *s,
        Type::Expr(_, s) => *s,
        Type::Regex(_, s) => *s,
    }
}

fn plain_layout(expanded: List<Attribute>) -> (r: Layout)
    ensures
        r == state::no_layout(expanded),
{
    Layout {
        c_layout: false,
        transparent: false,
        packed: false,
        endian: None,
        bit_order: None,
        align: None,
        pad: None,
        expanded,
    }
}

fn empty_body() -> (r: TypeBody)
    ensures
        r == TypeBody::none(),
{
    TypeBody {
        fields: List::Nil,
        variants: List::Nil,
        alias_ast: None,
        default_value: None,
        no_default: false,
        missing_match: None,
    }
}

fn empty_map() -> (r: ResolutionMap)
    ensures
        r == ResolutionMap::none(),
{
    ResolutionMap {
        type_def_ids: List::Nil,
        type_bindings: List::Nil,
        value_resolutions: List::Nil,
        type_resolutions: List::Nil,
        has_main: false,
    }
}

fn find_known(list: &List<(Symbol, TypeId)>, name: Symbol) -> (r: Option<TypeId>)
    ensures
        r == table::entry(*list, name),
    decreases *list,
{
    match list {
        List::Nil => None,
        List::Cons(link) => if link.head.0 == name {
            Some(link.head.1)
        } else {
            find_known(&link.tail, name)
        },
    }
}

fn find_layout<'a>(list: &'a List<(Symbol, List<Attribute>)>, name: Symbol) -> (r: Option<
    &'a List<Attribute>,
>)
    ensures
        match r {
            Some(v) => table::entry(*list, name) == Some(*v),
            None => table::entry(*list, name) is None,
        },
    decreases *list,
{
    match list {
        List::Nil => None,
        List::Cons(link) => if link.head.0 == name {
            Some(&link.head.1)
        } else {
            find_layout(&link.tail, name)
        },
    }
}

impl NameResolver {
    // -----------------------------------------------------------------------
    // Small steps
    // -----------------------------------------------------------------------

    fn add_type(&mut self, d: TypeData) -> (r: TypeId)
        ensures
            (final(self)@, r) == old(self)@.add_type(d),
            growth::grows(old(self)@, final(self)@),
    {
        proof {
            growth::lemma_types_grow(self@, self@.ctx.with(d).0);
        }
        self.ctx.allocate(d)
    }

    fn report(&mut self, kind: DiagKind, span: Option<Span>)
        ensures
            final(self)@ == old(self)@.report(kind, span),
            growth::grows(old(self)@, final(self)@),
    {
        let d = Diagnostic { kind, span };
        proof {
            growth::lemma_one_more(self@, d);
        }
        self.diagnostics = self.diagnostics.clone().push(d);
    }

    fn note(&mut self, d: Option<Diagnostic>)
        ensures
            final(self)@ == old(self)@.note((old(self)@.symbols, d)),
            growth::grows(old(self)@, final(self)@),
    {
        if let Some(d) = d {
            proof {
                growth::lemma_one_more(self@, d);
            }
            self.diagnostics = self.diagnostics.clone().push(d);
        }
    }

    fn enter_scope(&mut self)
        ensures
            final(self)@ == old(self)@.enter(),
    {
        self.symbols.push_scope();
    }

    fn exit_scope(&mut self)
        ensures
            final(self)@ == old(self)@.exit(),
    {
        self.symbols.pop_scope();
    }

    fn allocate_def_id(&mut self) -> (r: DefId)
        ensures
            (final(self)@, r) == old(self)@.define(),
            growth::grows(old(self)@, final(self)@),
    {
        proof {
            growth::lemma_table_grows(self@, self@.symbols.with_def().0);
        }
        self.symbols.allocate_def_id()
    }

    /// A step that changes none of what only grows.
    fn set_generics(&mut self, params: Option<List<(Symbol, TypeId)>>)
        ensures
            final(self)@ == (State { impl_params: params, ..old(self)@ }),
            growth::grows(old(self)@, final(self)@),
    {
        proof {
            growth::lemma_aside(self@, State { impl_params: params, ..self@ });
        }
        self.impl_params = params;
    }

    fn set_self(&mut self, ty: Option<TypeId>)
        ensures
            final(self)@ == (State { impl_for: ty, ..old(self)@ }),
            growth::grows(old(self)@, final(self)@),
    {
        proof {
            growth::lemma_aside(self@, State { impl_for: ty, ..self@ });
        }
        self.impl_for = ty;
    }

    fn set_main(&mut self)
        ensures
            final(self)@ == (State { has_main: true, ..old(self)@ }),
            growth::grows(old(self)@, final(self)@),
    {
        proof {
            growth::lemma_aside(self@, State { has_main: true, ..self@ });
        }
        self.has_main = true;
    }

    fn record_type_id(&mut self, name: Symbol, d: DefId)
        ensures
            final(self)@ == old(self)@.with_type_id(name, d),
            growth::grows(old(self)@, final(self)@),
    {
        proof {
            growth::lemma_aside(self@, self@.with_type_id(name, d));
        }
        self.map.type_def_ids = self.map.type_def_ids.clone().push((name, d));
    }

    fn record_binding(&mut self, d: DefId, b: Rc<TypeBinding>)
        ensures
            final(self)@ == old(self)@.with_binding(d, b),
            growth::grows(old(self)@, final(self)@),
    {
        proof {
            growth::lemma_aside(self@, self@.with_binding(d, b));
        }
        self.map.type_bindings = self.map.type_bindings.clone().push((d, b));
    }

    fn put_layout(&mut self, name: Symbol, attributes: List<Attribute>)
        ensures
            final(self)@ == (State {
                layout_aliases: old(self)@.layout_aliases.cons((name, attributes)),
                ..old(self)@
            }),
            growth::grows(old(self)@, final(self)@),
    {
        proof {
            growth::lemma_aside(
                self@,
                State {
                    layout_aliases: self@.layout_aliases.cons((name, attributes)),
                    ..self@
                },
            );
        }
        self.layout_aliases = self.layout_aliases.clone().push((name, attributes));
    }

    fn put_edition(&mut self, e: Edition)
        ensures
            final(self)@ == (State {
                ctx: Types { edition: Some(e), ..old(self)@.ctx },
                ..old(self)@
            }),
            growth::grows(old(self)@, final(self)@),
    {
        proof {
            growth::lemma_types_grow(self@, Types { edition: Some(e), ..self@.ctx });
        }
        self.ctx.set_edition(e);
    }

    fn put_adt(&mut self, d: DefId, def: AdtDef)
        ensures
            final(self)@ == (State { ctx: old(self)@.ctx.with_adt(d, def), ..old(self)@ }),
            growth::grows(old(self)@, final(self)@),
    {
        proof {
            growth::lemma_types_grow(self@, self@.ctx.with_adt(d, def));
        }
        self.ctx.register_adt(d, def);
    }

    fn fresh_param(&mut self) -> (r: u64)
        ensures
            final(self)@ == (State { ctx: old(self)@.ctx.with_param().0, ..old(self)@ }),
            r == old(self)@.ctx.with_param().1,
            growth::grows(old(self)@, final(self)@),
    {
        proof {
            growth::lemma_types_grow(self@, self@.ctx.with_param().0);
        }
        self.ctx.fresh_param_index()
    }

    fn put_variable(&mut self, name: Symbol, b: VariableBinding, span: Span)
        ensures
            final(self)@ == old(self)@.note(old(self)@.symbols.with_variable(name, b, span)),
            growth::grows(old(self)@, final(self)@),
    {
        proof {
            let top = self@.symbols.top();
            growth::lemma_top_stays(
                self@.symbols,
                table::Scope { variables: top.variables.cons((name, b)), ..top },
            );
            growth::lemma_table_grows(self@, self@.symbols.with_variable(name, b, span).0);
        }
        let d = self.symbols.insert_variable(name, b, span);
        self.note(d);
    }

    fn put_function(&mut self, name: Symbol, b: Rc<FunctionBinding>, span: Span)
        ensures
            final(self)@ == old(self)@.note(old(self)@.symbols.with_function(name, b, span)),
            growth::grows(old(self)@, final(self)@),
    {
        proof {
            let top = self@.symbols.top();
            growth::lemma_top_stays(
                self@.symbols,
                table::Scope { functions: top.functions.cons((name, b)), ..top },
            );
            growth::lemma_table_grows(self@, self@.symbols.with_function(name, b, span).0);
        }
        let d = self.symbols.insert_function(name, b, span);
        self.note(d);
    }

    fn put_function_at_root(&mut self, name: Symbol, b: Rc<FunctionBinding>, span: Span)
        ensures
            growth::knows_function(final(self)@.symbols.scopes, name),
            final(self)@ == old(self)@.note(
                old(self)@.symbols.with_function_at_root(name, b, span),
            ),
            growth::grows(old(self)@, final(self)@),
    {
        proof {
            growth::lemma_root_scopes(self@.symbols.scopes, name, b);
            growth::lemma_table_grows(
                self@,
                self@.symbols.with_function_at_root(name, b, span).0,
            );
        }
        let d = self.symbols.insert_function_at_root(name, b, span);
        self.note(d);
    }

    fn put_type(&mut self, name: Symbol, b: Rc<TypeBinding>, span: Span) -> (r: Option<Diagnostic>)
        ensures
            (final(self)@.symbols, r) == old(self)@.symbols.with_type(name, b, span),
            final(self)@ == (State { symbols: final(self)@.symbols, ..old(self)@ }),
            growth::grows(old(self)@, final(self)@),
    {
        proof {
            let top = self@.symbols.top();
            growth::lemma_top_stays(
                self@.symbols,
                table::Scope { types: top.types.cons((name, b.def_id)), ..top },
            );
            growth::lemma_table_grows(self@, self@.symbols.with_type(name, b, span).0);
        }
        self.symbols.insert_type(name, b, span)
    }

    fn put_trait(&mut self, name: Symbol, b: Rc<TraitBinding>, span: Span) -> (r: Option<
        Diagnostic,
    >)
        ensures
            (final(self)@.symbols, r) == old(self)@.symbols.with_trait(name, b, span),
            final(self)@ == (State { symbols: final(self)@.symbols, ..old(self)@ }),
            growth::grows(old(self)@, final(self)@),
    {
        proof {
            let top = self@.symbols.top();
            growth::lemma_top_stays(
                self@.symbols,
                table::Scope { traits: top.traits.cons((name, b.def_id)), ..top },
            );
            growth::lemma_table_grows(self@, self@.symbols.with_trait(name, b, span).0);
        }
        self.symbols.insert_trait(name, b, span)
    }

    fn put_method(&mut self, receiver: DefId, name: Symbol, d: DefId)
        ensures
            final(self)@ == (State {
                symbols: SymbolTable {
                    method_ids: old(self)@.symbols.method_ids.cons((receiver, name, d)),
                    ..old(self)@.symbols
                },
                ..old(self)@
            }),
            growth::grows(old(self)@, final(self)@),
    {
        proof {
            growth::lemma_table_grows(
                self@,
                SymbolTable {
                    method_ids: self@.symbols.method_ids.cons((receiver, name, d)),
                    ..self@.symbols
                },
            );
        }
        self.symbols.insert_method_def_id(receiver, name, d);
    }

    fn put_path(&mut self, path: List<Symbol>, d: DefId)
        ensures
            final(self)@ == (State {
                symbols: SymbolTable {
                    full_paths: old(self)@.symbols.full_paths.cons((path, d)),
                    ..old(self)@.symbols
                },
                ..old(self)@
            }),
            growth::grows(old(self)@, final(self)@),
    {
        proof {
            growth::lemma_table_grows(
                self@,
                SymbolTable {
                    full_paths: self@.symbols.full_paths.cons((path, d)),
                    ..self@.symbols
                },
            );
        }
        self.symbols.register_full_path(path, d);
    }

    fn put_impl(&mut self, b: Rc<ImplBinding>)
        ensures
            final(self)@ == (State {
                symbols: SymbolTable {
                    impls: old(self)@.symbols.impls.cons(b),
                    ..old(self)@.symbols
                },
                ..old(self)@
            }),
            growth::grows(old(self)@, final(self)@),
    {
        proof {
            growth::lemma_table_grows(
                self@,
                SymbolTable { impls: self@.symbols.impls.cons(b), ..self@.symbols },
            );
        }
        self.symbols.insert_impl(b);
    }

    /// Forgets what has been reported since `before`.
    fn restore_diagnostics(&mut self, diagnostics: List<Diagnostic>, Ghost(before): Ghost<State>)
        requires
            growth::grows(before, old(self)@),
            diagnostics == before.diagnostics,
        ensures
            final(self)@ == (State { diagnostics, ..old(self)@ }),
            growth::grows(before, final(self)@),
    {
        proof {
            growth::lemma_restored(before, self@);
        }
        self.diagnostics = diagnostics;
    }

    fn put_constraint(&mut self, name: Symbol, b: Rc<ConstraintBinding>, span: Span)
        ensures
            final(self)@ == old(self)@.note(old(self)@.symbols.with_constraint(name, b, span)),
            growth::grows(old(self)@, final(self)@),
    {
        proof {
            let top = self@.symbols.top();
            growth::lemma_top_stays(
                self@.symbols,
                table::Scope { constraints: top.constraints.cons((name, b)), ..top },
            );
            growth::lemma_table_grows(self@, self@.symbols.with_constraint(name, b, span).0);
        }
        let d = self.symbols.insert_constraint(name, b, span);
        self.note(d);
    }

    fn bind(&mut self, name: Symbol, ty: TypeId, mutable: bool, span: Span)
        ensures
            final(self)@ == old(self)@.bind(name, ty, mutable, span),
            growth::grows(old(self)@, final(self)@),
    {
        let def_id = self.allocate_def_id();
        self.put_variable(name, VariableBinding { ty, mutable, span, def_id }, span);
    }

    fn register_generics(
        &mut self,
        params: &List<TypeParam>,
        i: usize,
        known: List<(Symbol, TypeId)>,
    ) -> (r: List<(Symbol, TypeId)>)
        ensures
            (final(self)@, r) == old(self)@.generics(*params, i, known),
            growth::grows(old(self)@, final(self)@),
        decreases *params,
    {
        match params {
            List::Nil => known,
            List::Cons(link) => {
                let t = self.add_type(TypeData::GenericParam { index: i, name: link.head.name });
                let n: usize = if i < usize::MAX {
                    i + 1
                } else {
                    i
                };
                self.register_generics(&link.tail, n, known.push((link.head.name, t)))
            },
        }
    }

    fn install_generics(&mut self, params: &List<TypeParam>)
        ensures
            final(self)@ == old(self)@.with_generics(*params),
            growth::grows(old(self)@, final(self)@),
    {
        let known = self.register_generics(params, 0, List::Nil);
        self.set_generics(Some(known));
    }

    fn literal_type(&mut self, lit: &Literal) -> (r: TypeId)
        ensures
            (final(self)@, r) == old(self)@.literal(*lit),
            growth::grows(old(self)@, final(self)@),
    {
        match lit {
            Literal::Int(_) => self.add_type(TypeData::Int { bits: 32, signed: true }),
            Literal::Float => self.add_type(TypeData::Float { bits: 64 }),
            Literal::Char(_) => TypeId(TY_CHAR),
            Literal::Text(_) => self.add_type(TypeData::Slice { elem: TypeId(TY_BYTE) }),
            Literal::Bytes(_) => self.add_type(TypeData::Slice { elem: TypeId(TY_BYTE) }),
            Literal::Bool(_) => TypeId(TY_BOOL),
        }
    }

    // -----------------------------------------------------------------------
    // Types
    // -----------------------------------------------------------------------

    fn undefined_type(&mut self, path: &List<Symbol>, span: Span) -> (r: TypeId)
        ensures
            (final(self)@, r) == old(self)@.undefined_type(*path, span),
            growth::grows(old(self)@, final(self)@),
    {
        match path {
            List::Nil => {
                self.report(DiagKind::UndefinedType(path.clone()), Some(span));
                TypeId(TY_ERROR)
            },
            List::Cons(link) => {
                let n: u32 = link.head.0;
                if n == BOOL {
                    TypeId(TY_BOOL)
                } else if n == CHAR {
                    TypeId(TY_CHAR)
                } else if n == BYTE {
                    TypeId(TY_BYTE)
                } else if n == USIZE {
                    TypeId(TY_USIZE)
                } else if n == UNIT {
                    self.report(DiagKind::UseUnitTuple, None);
                    TypeId(TY_ERROR)
                } else if n == NEVER {
                    TypeId(TY_NEVER)
                } else if n == INT || n == UINT || n == FLOAT || n == RATIONAL {
                    TypeId(TY_ERROR)
                } else {
                    self.report(DiagKind::UndefinedType(path.clone()), Some(span));
                    TypeId(TY_ERROR)
                }
            },
        }
    }

    fn local_type(&self, path: &List<Symbol>) -> (r: Option<TypeId>)
        ensures
            r == self@.local_type(*path),
    {
        match single_name(path) {
            Some(n) => if n.0 == SELF_TYPE && self.impl_for.is_some() {
                self.impl_for
            } else {
                match &self.impl_params {
                    Some(known) => find_known(known, n),
                    None => None,
                }
            },
            None => None,
        }
    }

    fn add_instance(&mut self, kind: TypeKind, d: DefId, args: List<TypeId>) -> (r: Option<TypeId>)
        ensures
            match old(self)@.instance(kind, d, args) {
                Some(x) => r == Some(x.1) && final(self)@ == x.0,
                None => r is None && final(self)@ == old(self)@,
            },
            growth::grows(old(self)@, final(self)@),
    {
        match kind {
            TypeKind::Struct => Some(
                self.add_type(TypeData::Adt { kind: AdtKind::Struct, def_id: d, args }),
            ),
            TypeKind::Enum => Some(
                self.add_type(TypeData::Adt { kind: AdtKind::Enum, def_id: d, args }),
            ),
            _ => None,
        }
    }

    #[verifier::spinoff_prover]
    fn resolve_path_type(&mut self, ty: &Type, depth: usize) -> (r: TypeId)
        ensures
            (final(self)@, r) == old(self)@.path_type(*ty, depth as nat),
            growth::grows(old(self)@, final(self)@),
        decreases depth, *ty, 2nat,
    {
        proof {
            reveal(State::path_type);
            reveal(State::type_expr);
        }
        match ty {
            Type::Path(path, span) => {
                if let Some(t) = self.local_type(path) {
                    return t;
                }
                match self.symbols.lookup_type_by_path(path) {
                    Some(d) => {
                        let found = match self.symbols.lookup_type_by_def_id(d) {
                            Some(b) => Some((share_option(&b.alias_ast), b.kind)),
                            None => None,
                        };
                        match found {
                            Some((Some(alias), _)) => if depth == 0 {
                                TypeId(TY_ERROR)
                            } else {
                                self.resolve_type_expr(&alias, depth - 1)
                            },
                            Some((None, kind)) => match self.add_instance(kind, d, List::Nil) {
                                Some(t) => t,
                                None => TypeId(TY_ERROR),
                            },
                            None => TypeId(TY_ERROR),
                        }
                    },
                    None => self.undefined_type(path, *span),
                }
            },
            _ => TypeId(TY_ERROR),
        }
    }

    #[verifier::spinoff_prover]
    fn resolve_builtin_generic(
        &mut self,
        name: Symbol,
        args: &List<GenericArg>,
        depth: usize,
    ) -> (r: Option<TypeId>)
        ensures
            match old(self)@.builtin_generic(name, *args, depth as nat) {
                Some(x) => r == Some(x.1) && final(self)@ == x.0,
                None => r is None && final(self)@ == old(self)@,
            },
            growth::grows(old(self)@, final(self)@),
        decreases depth, *args, 1nat,
    {
        proof {
            reveal(State::builtin_generic);
            reveal(State::arg_type);
        }
        if name.0 == INT {
            let bits: u32 = or_default(int_argument(args, 0), 32);
            Some(self.add_type(TypeData::Int { bits, signed: true }))
        } else if name.0 == UINT {
            let bits: u32 = or_default(int_argument(args, 0), 32);
            Some(self.add_type(TypeData::Int { bits, signed: false }))
        } else if name.0 == FLOAT {
            let bits: u32 = or_default(int_argument(args, 0), 64);
            Some(self.add_type(TypeData::Float { bits }))
        } else if name.0 == RATIONAL {
            let p: u32 = or_default(int_argument(args, 0), 16);
            let q: u32 = or_default(int_argument(args, 1), 16);
            Some(self.add_type(TypeData::Rational { p: p as u8, q: q as u8 }))
        } else if name.0 == PTR {
            match args {
                List::Nil => Some(
                    self.add_type(
                        TypeData::Ptr { size: TypeId(TY_USIZE), pointee: TypeId(TY_ERROR) },
                    ),
                ),
                List::Cons(a) => {
                    let size = self.resolve_arg(&a.head, depth);
                    match &a.tail {
                        List::Nil => Some(
                            self.add_type(TypeData::Ptr { size, pointee: TypeId(TY_ERROR) }),
                        ),
                        List::Cons(b) => {
                            let pointee = self.resolve_arg(&b.head, depth);
                            Some(self.add_type(TypeData::Ptr { size, pointee }))
                        },
                    }
                },
            }
        } else if name.0 == USIZE {
            Some(TypeId(TY_USIZE))
        } else {
            None
        }
    }

    #[verifier::spinoff_prover]
    fn resolve_applied(&mut self, ty: &Type, depth: usize) -> (r: TypeId)
        ensures
            (final(self)@, r) == old(self)@.applied(*ty, depth as nat),
            growth::grows(old(self)@, final(self)@),
        decreases depth, *ty, 2nat,
    {
        proof {
            reveal(State::applied);
            reveal(State::arg_types);
            reveal(State::type_expr);
        }
        match ty {
            Type::Generic(base, args, span) => {
                let t = self.resolve_type_expr(base, depth);
                match self.ctx.get_def_id_for_type(t) {
                    Some(d) => {
                        let found = match self.symbols.lookup_type_by_def_id(d) {
                            Some(b) => Some(b.kind),
                            None => None,
                        };
                        match found {
                            Some(kind) => {
                                let tys = self.resolve_args(args, depth);
                                match self.add_instance(kind, d, tys) {
                                    Some(t) => t,
                                    None => {
                                        self.report(DiagKind::GenericOnNonGeneric, Some(*span));
                                        TypeId(TY_ERROR)
                                    },
                                }
                            },
                            None => {
                                self.report(DiagKind::TypeNotFound, Some(*span));
                                TypeId(TY_ERROR)
                            },
                        }
                    },
                    None => {
                        self.report(DiagKind::ExpectedPath, Some(*span));
                        TypeId(TY_ERROR)
                    },
                }
            },
            _ => TypeId(TY_ERROR),
        }
    }

    fn base_name(base: &Type) -> (r: Option<Symbol>)
        ensures
            r == State::base_name(*base),
    {
        match base {
            Type::Path(p, _) => single_name(p),
            _ => None,
        }
    }

    #[verifier::spinoff_prover]
    fn resolve_type_expr(&mut self, ty: &Type, depth: usize) -> (r: TypeId)
        ensures
            (final(self)@, r) == old(self)@.type_expr(*ty, depth as nat),
            growth::grows(old(self)@, final(self)@),
        decreases depth, *ty, 3nat,
    {
        proof {
            reveal(State::type_expr);
            reveal(State::applied);
            reveal(State::builtin_generic);
            reveal(State::path_type);
            reveal(State::type_of_expr);
            reveal(State::types);
        }
        match ty {
            Type::Path(_, _) => self.resolve_path_type(ty, depth),
            Type::Generic(base, args, _) => {
                if let Some(n) = NameResolver::base_name(base) {
                    if let Some(t) = self.resolve_builtin_generic(n, args, depth) {
                        return t;
                    }
                }
                self.resolve_applied(ty, depth)
            },
            Type::Reference { inner, mutable, lifetime, .. } => {
                let t = self.resolve_type_expr(inner, depth);
                self.add_type(TypeData::Ref { ty: t, mutable: *mutable, lifetime: *lifetime })
            },
            Type::Pointer(inner, _) => {
                let t = self.resolve_type_expr(inner, depth);
                self.add_type(TypeData::Pointer { ty: t })
            },
            Type::Slice(inner, _) => {
                let t = self.resolve_type_expr(inner, depth);
                self.add_type(TypeData::Slice { elem: t })
            },
            Type::Array(inner, size, span) => {
                let t = self.resolve_type_expr(inner, depth);
                match &**size {
                    Expr::Literal(Literal::Int(n), _) => self.add_type(
                        TypeData::Array { elem: t, size: size_of_literal(*n) },
                    ),
                    _ => {
                        self.report(DiagKind::ArraySize, Some(*span));
                        TypeId(TY_ERROR)
                    },
                }
            },
            Type::Tuple(tys, _) => {
                let elems = self.resolve_types(tys, depth);
                self.add_type(TypeData::Tuple { elems })
            },
            Type::Function { params, ret, .. } => {
                let ps = self.resolve_types(params, depth);
                let r = self.resolve_type_expr(ret, depth);
                self.add_type(TypeData::Function { params: ps, ret: r })
            },
            Type::Forall { lifetime, body, .. } => {
                let t = self.resolve_type_expr(body, depth);
                let index: u64 = self.fresh_param();
                self.add_type(TypeData::Forall { index, lifetime: *lifetime, body: t })
            },
            Type::Projection { impl_type, trait_path, .. } => {
                let _ = self.resolve_type_expr(impl_type, depth);
                let _ = self.resolve_type_expr(trait_path, depth);
                TypeId(TY_ERROR)
            },
            Type::DynTrait(tys, _) => {
                let traits = self.resolve_trait_ids(tys);
                self.add_type(TypeData::DynTrait { traits })
            },
            Type::Exists { name, base, condition, .. } => {
                let t = self.resolve_type_expr(base, depth);
                let index: u64 = self.fresh_param();
                self.add_type(
                    TypeData::Exists { index, name: *name, base: t, condition: share(condition) },
                )
            },
            Type::WhereShorthand { base, condition, fresh, .. } => {
                let c = replace_ident_in_expr(condition, Symbol(VALUE), *fresh);
                let t = self.resolve_type_expr(base, depth);
                let index: u64 = self.fresh_param();
                self.add_type(
                    TypeData::Exists { index, name: *fresh, base: t, condition: Rc::new(c) },
                )
            },
            Type::Literal(e, _) => self.resolve_type_of_expr(e, depth),
            Type::Never(_) => TypeId(TY_NEVER),
            Type::Union(_, _) => TypeId(TY_ERROR),
            Type::Error(_) => TypeId(TY_ERROR),
            Type::Expr(e, _) => self.resolve_type_of_expr(e, depth),
            Type::Regex(pattern, _) => self.add_type(TypeData::Regex(share(pattern))),
        }
    }

    #[verifier::spinoff_prover]
    fn resolve_type_of_expr(&mut self, e: &Expr, depth: usize) -> (r: TypeId)
        ensures
            (final(self)@, r) == old(self)@.type_of_expr(*e, depth as nat),
            growth::grows(old(self)@, final(self)@),
        decreases depth, *e, 4nat,
    {
        proof {
            reveal(State::type_of_expr);
            reveal(State::expr);
        }
        match self.resolve_expr(e, depth) {
            Some(t) => t,
            None => TypeId(TY_ERROR),
        }
    }

    #[verifier::spinoff_prover]
    fn resolve_optional_type(&mut self, ty: &Option<Rc<Type>>, depth: usize) -> (r: TypeId)
        ensures
            (final(self)@, r) == old(self)@.optional_type(*ty, depth as nat),
            growth::grows(old(self)@, final(self)@),
        decreases depth, *ty, 4nat,
    {
        proof {
            reveal(State::optional_type);
            reveal(State::type_expr);
        }
        match ty {
            Some(t) => self.resolve_type_expr(t, depth),
            None => TypeId(TY_ERROR),
        }
    }

    #[verifier::spinoff_prover]
    fn resolve_returned(&mut self, ty: &Option<Rc<Type>>, depth: usize) -> (r: TypeId)
        ensures
            (final(self)@, r) == old(self)@.returned(*ty, depth as nat),
            growth::grows(old(self)@, final(self)@),
        decreases depth, *ty, 4nat,
    {
        proof {
            reveal(State::returned);
            reveal(State::type_expr);
        }
        match ty {
            Some(t) => self.resolve_type_expr(t, depth),
            None => TypeId(TY_UNIT),
        }
    }

    #[verifier::spinoff_prover]
    fn resolve_types(&mut self, tys: &List<Type>, depth: usize) -> (r: List<TypeId>)
        ensures
            (final(self)@, r) == old(self)@.types(*tys, depth as nat),
            growth::grows(old(self)@, final(self)@),
        decreases depth, *tys, 3nat,
    {
        proof {
            reveal(State::types);
            reveal(State::type_expr);
        }
        match tys {
            List::Nil => List::Nil,
            List::Cons(link) => {
                let t = self.resolve_type_expr(&link.head, depth);
                self.resolve_types(&link.tail, depth).push(t)
            },
        }
    }

    #[verifier::spinoff_prover]
    fn resolve_arg(&mut self, arg: &GenericArg, depth: usize) -> (r: TypeId)
        ensures
            (final(self)@, r) == old(self)@.arg_type(*arg, depth as nat),
            growth::grows(old(self)@, final(self)@),
        decreases depth, *arg, 3nat,
    {
        proof {
            reveal(State::arg_type);
            reveal(State::type_expr);
            reveal(State::type_of_expr);
        }
        match arg {
            GenericArg::Positional(t) => self.resolve_type_expr(t, depth),
            GenericArg::Named(_, t) => self.resolve_type_expr(t, depth),
            GenericArg::Const(ac) => self.resolve_type_of_expr(&ac.value, depth),
        }
    }

    #[verifier::spinoff_prover]
    fn resolve_args(&mut self, args: &List<GenericArg>, depth: usize) -> (r: List<TypeId>)
        ensures
            (final(self)@, r) == old(self)@.arg_types(*args, depth as nat),
            growth::grows(old(self)@, final(self)@),
        decreases depth, *args, 3nat,
    {
        proof {
            reveal(State::arg_types);
            reveal(State::arg_type);
        }
        match args {
            List::Nil => List::Nil,
            List::Cons(link) => {
                let t = self.resolve_arg(&link.head, depth);
                self.resolve_args(&link.tail, depth).push(t)
            },
        }
    }

    fn resolve_trait_ids(&self, tys: &List<Type>) -> (r: List<DefId>)
        ensures
            r == self@.trait_ids(*tys),
        decreases *tys,
    {
        match tys {
            List::Nil => List::Nil,
            List::Cons(link) => {
                let rest = self.resolve_trait_ids(&link.tail);
                match &link.head {
                    Type::Path(p, _) => match self.symbols.lookup_type_by_path(p) {
                        Some(d) => rest.push(d),
                        None => rest,
                    },
                    _ => rest,
                }
            },
        }
    }

    // -----------------------------------------------------------------------
    // Expressions
    // -----------------------------------------------------------------------

    fn resolve_ident(&mut self, name: Symbol, span: Span) -> (r: Option<TypeId>)
        ensures
            (final(self)@, r) == old(self)@.ident(name, span),
            growth::grows(old(self)@, final(self)@),
    {
        if let Some(b) = self.symbols.lookup_variable(name) {
            return Some(b.ty);
        }
        let found = match self.symbols.lookup_function(name) {
            Some(f) => Some((types_of_parameters(&f.signature.params), f.signature.return_type)),
            None => None,
        };
        if let Some((params, ret)) = found {
            return Some(self.add_type(TypeData::Function { params, ret }));
        }
        if self.symbols.lookup_type(name).is_some() || name.0 == RESULT {
            return None;
        }
        self.report(DiagKind::UndefinedName(name), Some(span));
        Some(TypeId(TY_ERROR))
    }

    fn resolve_literal_of(&mut self, d: Option<DefId>, kind: TypeKind) -> (r: Option<TypeId>)
        ensures
            (final(self)@, r) == old(self)@.literal_of(d, kind),
            growth::grows(old(self)@, final(self)@),
    {
        match d {
            Some(d) => {
                let same = match self.symbols.lookup_type_by_def_id(d) {
                    Some(b) => b.kind == kind,
                    None => false,
                };
                if same {
                    self.add_instance(kind, d, List::Nil)
                } else {
                    None
                }
            },
            None => None,
        }
    }

    #[verifier::spinoff_prover]
    fn resolve_expr(&mut self, e: &Expr, depth: usize) -> (r: Option<TypeId>)
        ensures
            (final(self)@, r) == old(self)@.expr(*e, depth as nat),
            growth::grows(old(self)@, final(self)@),
        decreases depth, *e, 3nat,
    {
        proof {
            reveal(State::expr);
            reveal(State::arms);
            reveal(State::bind_params);
            reveal(State::block);
            reveal(State::block_value);
            reveal(State::catches);
            reveal(State::expr_types);
            reveal(State::exprs);
            reveal(State::field_values);
            reveal(State::first_type);
            reveal(State::optional_block);
            reveal(State::optional_expr);
            reveal(State::param_types);
            reveal(State::pattern);
            reveal(State::returned);
            reveal(State::stmts);
            reveal(State::type_expr);
        }
        match e {
            Expr::Literal(lit, _) => Some(self.literal_type(lit)),
            Expr::Ident(name, span) => self.resolve_ident(*name, *span),
            Expr::TypeAnnotated { expr, ty } => {
                let _ = self.resolve_type_expr(ty, depth);
                self.resolve_expr(expr, depth)
            },
            Expr::BinaryOp { left, right } => {
                self.resolve_expr(left, depth);
                self.resolve_expr(right, depth);
                None
            },
            Expr::UnaryOp { expr } => {
                self.resolve_expr(expr, depth);
                None
            },
            Expr::Call { callee, args } => {
                self.resolve_expr(callee, depth);
                self.resolve_exprs(args, depth);
                None
            },
            Expr::Index { base, index } => {
                self.resolve_expr(base, depth);
                self.resolve_expr(index, depth);
                None
            },
            Expr::FieldAccess { base, .. } => {
                self.resolve_expr(base, depth);
                None
            },
            Expr::AttrAccess { base, .. } => {
                self.resolve_expr(base, depth);
                None
            },
            Expr::Cast { expr, ty } => {
                self.resolve_expr(expr, depth);
                let _ = self.resolve_type_expr(ty, depth);
                None
            },
            Expr::Range { start, end } => {
                self.resolve_optional_expr(start, depth);
                self.resolve_optional_expr(end, depth);
                None
            },
            Expr::StructLit { path, fields } => {
                let d = self.symbols.lookup_type_by_path(path);
                self.resolve_field_values(fields, depth);
                self.resolve_literal_of(d, TypeKind::Struct)
            },
            Expr::EnumLit { path, payload, .. } => {
                self.resolve_optional_expr(payload, depth);
                let d = self.symbols.lookup_type_by_path(path);
                self.resolve_literal_of(d, TypeKind::Enum)
            },
            Expr::Move(expr) => {
                self.resolve_expr(expr, depth);
                None
            },
            Expr::Tuple(es) => {
                let elems = self.resolve_expr_types(es, depth);
                Some(self.add_type(TypeData::Tuple { elems }))
            },
            Expr::Array(es) => {
                let first = self.resolve_first_type(es, None, depth);
                let elem = match first {
                    Some(t) => t,
                    None => TypeId(TY_ERROR),
                };
                let n: u64 = es.len() as u64;
                Some(self.add_type(TypeData::Array { elem, size: n }))
            },
            Expr::Closure { params, return_type, body } => {
                self.enter_scope();
                self.bind_params(params, depth);
                self.resolve_stmts(body, depth);
                self.exit_scope();
                let ret = self.resolve_returned(return_type, depth);
                let ps = self.resolve_param_types(params, depth);
                Some(self.add_type(TypeData::Function { params: ps, ret }))
            },
            Expr::Try { expr } => {
                self.resolve_expr(expr, depth);
                None
            },
            Expr::UnsafeBlock { body } => {
                self.resolve_block(body, depth);
                Some(TypeId(TY_UNIT))
            },
            Expr::Catch { expr, branches } => {
                self.resolve_expr(expr, depth);
                self.resolve_catches(branches, depth);
                None
            },
            Expr::LeaveWith { expr } => {
                self.resolve_expr(expr, depth);
                Some(TypeId(TY_NEVER))
            },
            Expr::Await { expr } => {
                self.resolve_expr(expr, depth);
                None
            },
            Expr::If { cond, then_branch, else_branch } => {
                self.resolve_expr(cond, depth);
                self.resolve_block(then_branch, depth);
                self.resolve_optional_block(else_branch, depth);
                None
            },
            Expr::IfLet { pattern, scrutinee, then_branch, else_branch } => {
                self.resolve_expr(scrutinee, depth);
                self.resolve_pattern(pattern, depth);
                self.resolve_block(then_branch, depth);
                self.resolve_optional_block(else_branch, depth);
                None
            },
            Expr::Match { scrutinee, arms } => {
                self.resolve_expr(scrutinee, depth);
                self.resolve_arms(arms, depth);
                None
            },
            Expr::Block(stmts) => {
                self.enter_scope();
                let t = self.resolve_block_value(stmts, None, depth);
                self.exit_scope();
                t
            },
            Expr::Quantified { range, body } => {
                self.resolve_expr(range, depth);
                self.resolve_expr(body, depth);
                Some(TypeId(TY_ERROR))
            },
            Expr::PolyBox { expr } => {
                self.resolve_expr(expr, depth);
                Some(TypeId(TY_ERROR))
            },
            Expr::PolyUnbox { expr } => {
                self.resolve_expr(expr, depth);
                Some(TypeId(TY_ERROR))
            },
            Expr::Old(expr) => {
                self.resolve_expr(expr, depth);
                None
            },
            Expr::Path(path) => {
                self.report(DiagKind::UnresolvedPath(path.clone()), Some(Span::new(0, 0)));
                Some(TypeId(TY_ERROR))
            },
            Expr::Error => Some(TypeId(TY_ERROR)),
            Expr::TypeInfo(ty) => {
                let _ = self.resolve_type_expr(ty, depth);
                Some(TypeId(TY_UNIT))
            },
            Expr::LayoutOf(ty) => {
                let _ = self.resolve_type_expr(ty, depth);
                Some(TypeId(TY_ERROR))
            },
            Expr::CompileError(_) => Some(TypeId(TY_ERROR)),
            Expr::Task { body } => {
                self.resolve_stmts(body, depth);
                Some(TypeId(TY_UNIT))
            },
        }
    }

    #[verifier::spinoff_prover]
    fn resolve_optional_expr(&mut self, e: &Option<Rc<Expr>>, depth: usize)
        ensures
            final(self)@ == old(self)@.optional_expr(*e, depth as nat),
            growth::grows(old(self)@, final(self)@),
        decreases depth, *e, 4nat,
    {
        proof {
            reveal(State::optional_expr);
            reveal(State::expr);
        }
        if let Some(x) = e {
            self.resolve_expr(x, depth);
        }
    }

    #[verifier::spinoff_prover]
    fn resolve_exprs(&mut self, es: &List<Expr>, depth: usize)
        ensures
            final(self)@ == old(self)@.exprs(*es, depth as nat),
            growth::grows(old(self)@, final(self)@),
        decreases depth, *es, 3nat,
    {
        proof {
            reveal(State::exprs);
            reveal(State::expr);
        }
        if let List::Cons(link) = es {
            self.resolve_expr(&link.head, depth);
            self.resolve_exprs(&link.tail, depth);
        }
    }

    #[verifier::spinoff_prover]
    fn resolve_field_values(&mut self, fields: &List<(Symbol, Expr)>, depth: usize)
        ensures
            final(self)@ == old(self)@.field_values(*fields, depth as nat),
            growth::grows(old(self)@, final(self)@),
        decreases depth, *fields, 3nat,
    {
        proof {
            reveal(State::field_values);
            reveal(State::expr);
        }
        if let List::Cons(link) = fields {
            self.resolve_expr(&link.head.1, depth);
            self.resolve_field_values(&link.tail, depth);
        }
    }

    #[verifier::spinoff_prover]
    fn resolve_expr_types(&mut self, es: &List<Expr>, depth: usize) -> (r: List<TypeId>)
        ensures
            (final(self)@, r) == old(self)@.expr_types(*es, depth as nat),
            growth::grows(old(self)@, final(self)@),
        decreases depth, *es, 3nat,
    {
        proof {
            reveal(State::expr_types);
            reveal(State::expr);
        }
        match es {
            List::Nil => List::Nil,
            List::Cons(link) => {
                let t = match self.resolve_expr(&link.head, depth) {
                    Some(t) => t,
                    None => TypeId(TY_ERROR),
                };
                self.resolve_expr_types(&link.tail, depth).push(t)
            },
        }
    }

    #[verifier::spinoff_prover]
    fn resolve_first_type(
        &mut self,
        es: &List<Expr>,
        found: Option<TypeId>,
        depth: usize,
    ) -> (r: Option<TypeId>)
        ensures
            (final(self)@, r) == old(self)@.first_type(*es, found, depth as nat),
            growth::grows(old(self)@, final(self)@),
        decreases depth, *es, 3nat,
    {
        proof {
            reveal(State::first_type);
            reveal(State::expr);
        }
        match es {
            List::Nil => found,
            List::Cons(link) => {
                let t = self.resolve_expr(&link.head, depth);
                let now = match found {
                    Some(x) => Some(x),
                    None => t,
                };
                self.resolve_first_type(&link.tail, now, depth)
            },
        }
    }

    #[verifier::spinoff_prover]
    fn bind_params(&mut self, params: &List<Param>, depth: usize)
        ensures
            final(self)@ == old(self)@.bind_params(*params, depth as nat),
            growth::grows(old(self)@, final(self)@),
        decreases depth, *params, 3nat,
    {
        proof {
            reveal(State::bind_params);
            reveal(State::optional_type);
        }
        if let List::Cons(link) = params {
            let t = self.resolve_optional_type(&link.head.ty, depth);
            self.bind(link.head.name, t, false, link.head.span);
            self.bind_params(&link.tail, depth);
        }
    }

    #[verifier::spinoff_prover]
    fn resolve_param_types(&mut self, params: &List<Param>, depth: usize) -> (r: List<TypeId>)
        ensures
            (final(self)@, r) == old(self)@.param_types(*params, depth as nat),
            growth::grows(old(self)@, final(self)@),
        decreases depth, *params, 3nat,
    {
        proof {
            reveal(State::param_types);
            reveal(State::optional_type);
        }
        match params {
            List::Nil => List::Nil,
            List::Cons(link) => {
                let t = self.resolve_optional_type(&link.head.ty, depth);
                self.resolve_param_types(&link.tail, depth).push(t)
            },
        }
    }

    #[verifier::spinoff_prover]
    fn resolve_catches(&mut self, branches: &List<CatchBranch>, depth: usize)
        ensures
            final(self)@ == old(self)@.catches(*branches, depth as nat),
            growth::grows(old(self)@, final(self)@),
        decreases depth, *branches, 3nat,
    {
        proof {
            reveal(State::catches);
            reveal(State::block);
            reveal(State::pattern);
        }
        if let List::Cons(link) = branches {
            self.resolve_pattern(&link.head.pattern, depth);
            if let Some(name) = link.head.bind {
                self.bind(name, TypeId(TY_ERROR), false, link.head.span);
            }
            self.resolve_block(&link.head.body, depth);
            self.resolve_catches(&link.tail, depth);
        }
    }

    #[verifier::spinoff_prover]
    fn resolve_arms(&mut self, arms: &List<MatchArm>, depth: usize)
        ensures
            final(self)@ == old(self)@.arms(*arms, depth as nat),
            growth::grows(old(self)@, final(self)@),
        decreases depth, *arms, 3nat,
    {
        proof {
            reveal(State::arms);
            reveal(State::expr);
            reveal(State::optional_expr);
            reveal(State::pattern);
        }
        if let List::Cons(link) = arms {
            self.resolve_pattern(&link.head.pattern, depth);
            self.resolve_optional_expr(&link.head.guard, depth);
            self.resolve_expr(&link.head.body, depth);
            self.resolve_arms(&link.tail, depth);
        }
    }

    #[verifier::spinoff_prover]
    fn resolve_optional_block(&mut self, b: &Option<List<Stmt>>, depth: usize)
        ensures
            final(self)@ == old(self)@.optional_block(*b, depth as nat),
            growth::grows(old(self)@, final(self)@),
        decreases depth, *b, 5nat,
    {
        proof {
            reveal(State::optional_block);
            reveal(State::block);
        }
        if let Some(stmts) = b {
            self.resolve_block(stmts, depth);
        }
    }

    #[verifier::spinoff_prover]
    fn resolve_block(&mut self, stmts: &List<Stmt>, depth: usize)
        ensures
            final(self)@ == old(self)@.block(*stmts, depth as nat),
            growth::grows(old(self)@, final(self)@),
        decreases depth, *stmts, 4nat,
    {
        proof {
            reveal(State::block);
            reveal(State::stmts);
        }
        self.enter_scope();
        self.resolve_stmts(stmts, depth);
        self.exit_scope();
    }

    #[verifier::spinoff_prover]
    fn resolve_block_value(
        &mut self,
        stmts: &List<Stmt>,
        last: Option<TypeId>,
        depth: usize,
    ) -> (r: Option<TypeId>)
        ensures
            (final(self)@, r) == old(self)@.block_value(*stmts, last, depth as nat),
            growth::grows(old(self)@, final(self)@),
        decreases depth, *stmts, 3nat,
    {
        proof {
            reveal(State::block_value);
            reveal(State::expr);
            reveal(State::stmt);
        }
        match stmts {
            List::Nil => last,
            List::Cons(link) => match &link.head {
                Stmt::Expression(e) => {
                    let t = self.resolve_expr(e, depth);
                    self.resolve_block_value(&link.tail, t, depth)
                },
                _ => {
                    self.resolve_stmt(&link.head, depth);
                    self.resolve_block_value(&link.tail, last, depth)
                },
            },
        }
    }

    // -----------------------------------------------------------------------
    // Patterns
    // -----------------------------------------------------------------------

    #[verifier::spinoff_prover]
    fn resolve_pattern(&mut self, p: &Pattern, depth: usize)
        ensures
            final(self)@ == old(self)@.pattern(*p, depth as nat),
            growth::grows(old(self)@, final(self)@),
        decreases depth, *p, 3nat,
    {
        proof {
            reveal(State::pattern);
            reveal(State::expr);
            reveal(State::field_patterns);
            reveal(State::optional_pattern);
            reveal(State::patterns);
        }
        match p {
            Pattern::Wildcard => {},
            Pattern::Ident(name, span) => self.bind(*name, TypeId(TY_ERROR), false, *span),
            Pattern::Literal(e) => {
                self.resolve_expr(e, depth);
            },
            Pattern::Tuple(ps) => self.resolve_patterns(ps, depth),
            Pattern::Struct { fields } => self.resolve_field_patterns(fields, depth),
            Pattern::Enum { inner } => self.resolve_optional_pattern(inner, depth),
            Pattern::Or(ps) => self.resolve_patterns(ps, depth),
            Pattern::Slice(before, slice, after) => {
                self.resolve_patterns(before, depth);
                self.resolve_optional_pattern(slice, depth);
                self.resolve_patterns(after, depth);
            },
            Pattern::Error => {},
        }
    }

    #[verifier::spinoff_prover]
    fn resolve_optional_pattern(&mut self, p: &Option<Rc<Pattern>>, depth: usize)
        ensures
            final(self)@ == old(self)@.optional_pattern(*p, depth as nat),
            growth::grows(old(self)@, final(self)@),
        decreases depth, *p, 4nat,
    {
        proof {
            reveal(State::optional_pattern);
            reveal(State::pattern);
        }
        if let Some(x) = p {
            self.resolve_pattern(x, depth);
        }
    }

    #[verifier::spinoff_prover]
    fn resolve_patterns(&mut self, ps: &List<Pattern>, depth: usize)
        ensures
            final(self)@ == old(self)@.patterns(*ps, depth as nat),
            growth::grows(old(self)@, final(self)@),
        decreases depth, *ps, 3nat,
    {
        proof {
            reveal(State::patterns);
            reveal(State::pattern);
        }
        if let List::Cons(link) = ps {
            self.resolve_pattern(&link.head, depth);
            self.resolve_patterns(&link.tail, depth);
        }
    }

    #[verifier::spinoff_prover]
    fn resolve_field_patterns(&mut self, ps: &List<(Symbol, Pattern)>, depth: usize)
        ensures
            final(self)@ == old(self)@.field_patterns(*ps, depth as nat),
            growth::grows(old(self)@, final(self)@),
        decreases depth, *ps, 3nat,
    {
        proof {
            reveal(State::field_patterns);
            reveal(State::pattern);
        }
        if let List::Cons(link) = ps {
            self.resolve_pattern(&link.head.1, depth);
            self.resolve_field_patterns(&link.tail, depth);
        }
    }

    // -----------------------------------------------------------------------
    // Statements
    // -----------------------------------------------------------------------

    fn register_captures(&mut self, caps: &List<TypeParam>, span: Span)
        ensures
            final(self)@ == old(self)@.captures(*caps, span),
            growth::grows(old(self)@, final(self)@),
        decreases *caps,
    {
        if let List::Cons(link) = caps {
            let d = self.allocate_def_id();
            let name = link.head.name;
            self.record_type_id(name, d);
            let b = TypeBinding {
                def_id: d,
                params: List::Nil,
                kind: TypeKind::Alias,
                span,
                alias_ast: None,
                attributes: List::Nil,
                fields: List::Nil,
                variants: List::Nil,
                default_value: None,
                no_default: true,
                crate_id: self.local_crate_id,
                missing_match: None,
                exhaustive: false,
                layout: plain_layout(List::Nil),
            };
            let _ = self.put_type(name, Rc::new(b), span);
            self.register_captures(&link.tail, span);
        }
    }

    #[verifier::spinoff_prover]
    fn resolve_stmts(&mut self, stmts: &List<Stmt>, depth: usize)
        ensures
            final(self)@ == old(self)@.stmts(*stmts, depth as nat),
            growth::grows(old(self)@, final(self)@),
        decreases depth, *stmts, 3nat,
    {
        proof {
            reveal(State::stmts);
            reveal(State::stmt);
        }
        if let List::Cons(link) = stmts {
            self.resolve_stmt(&link.head, depth);
            self.resolve_stmts(&link.tail, depth);
        }
    }

    #[verifier::spinoff_prover]
    fn resolve_stmt(&mut self, stmt: &Stmt, depth: usize)
        ensures
            final(self)@ == old(self)@.stmt(*stmt, depth as nat),
            growth::grows(old(self)@, final(self)@),
        decreases depth, *stmt, 6nat,
    {
        proof {
            reveal(State::stmt);
            reveal(State::block);
            reveal(State::expr);
            reveal(State::item);
            reveal(State::optional_block);
            reveal(State::optional_expr);
            reveal(State::optional_pattern);
            reveal(State::pattern);
            reveal(State::type_expr);
            reveal(State::type_of_expr);
        }
        match stmt {
            Stmt::FunctionDef { .. } => self.resolve_item(stmt, depth),
            Stmt::TypeDef { .. } => self.resolve_item(stmt, depth),
            Stmt::VariableDef {
                mutable,
                name,
                pattern,
                ty,
                value,
                else_branch,
                span,
                type_captures,
            } => {
                if let Some(n) = name {
                    let t = match ty {
                        Some(t) => self.resolve_type_expr(t, depth),
                        None => match value {
                            Some(v) => self.resolve_type_of_expr(v, depth),
                            None => {
                                self.report(DiagKind::CannotInfer, Some(*span));
                                TypeId(TY_ERROR)
                            },
                        },
                    };
                    self.bind(*n, t, *mutable, *span);
                }
                self.register_captures(type_captures, *span);
                self.resolve_optional_pattern(pattern, depth);
                self.resolve_optional_block(else_branch, depth);
            },
            Stmt::Expression(e) => {
                self.resolve_expr(e, depth);
            },
            Stmt::If { cond, then_branch, else_branch } => {
                self.resolve_expr(cond, depth);
                self.resolve_block(then_branch, depth);
                self.resolve_optional_block(else_branch, depth);
            },
            Stmt::IfLet { pattern, scrutinee, then_branch, else_branch } => {
                self.resolve_expr(scrutinee, depth);
                self.resolve_pattern(pattern, depth);
                self.resolve_block(then_branch, depth);
                self.resolve_optional_block(else_branch, depth);
            },
            Stmt::While { cond, body, loop_invariant, measure } => {
                self.resolve_expr(cond, depth);
                self.resolve_optional_expr(loop_invariant, depth);
                self.resolve_optional_expr(measure, depth);
                self.resolve_block(body, depth);
            },
            Stmt::WhileLet { pattern, scrutinee, body, loop_invariant, measure } => {
                self.resolve_expr(scrutinee, depth);
                self.resolve_pattern(pattern, depth);
                self.resolve_optional_expr(loop_invariant, depth);
                self.resolve_optional_expr(measure, depth);
                self.resolve_block(body, depth);
            },
            Stmt::For { pattern, iterable, body, loop_invariant, measure } => {
                self.resolve_expr(iterable, depth);
                self.resolve_pattern(pattern, depth);
                self.resolve_optional_expr(loop_invariant, depth);
                self.resolve_optional_expr(measure, depth);
                self.resolve_block(body, depth);
            },
            Stmt::Loop { body } => self.resolve_block(body, depth),
            Stmt::Return { value } => self.resolve_optional_expr(value, depth),
            Stmt::Assign { target, value } => {
                self.resolve_expr(target, depth);
                self.resolve_expr(value, depth);
            },
            Stmt::ComptimeBlock { body } => self.resolve_block(body, depth),
            Stmt::ScopeCleanup { body } => self.resolve_block(body, depth),
            Stmt::Unsafe { body } => self.resolve_block(body, depth),
            Stmt::GhostVariableDef { inner } => self.resolve_stmt(inner, depth),
            Stmt::Isolate { body } => self.resolve_block(body, depth),
            _ => {},
        }
    }

    // -----------------------------------------------------------------------
    // Functions, traits, impl blocks
    // -----------------------------------------------------------------------

    #[verifier::spinoff_prover]
    fn collect_parameters(&mut self, params: &List<Param>, depth: usize) -> (r: List<Parameter>)
        ensures
            (final(self)@, r) == old(self)@.parameters(*params, depth as nat),
            growth::grows(old(self)@, final(self)@),
        decreases depth, *params, 3nat,
    {
        proof {
            reveal(State::parameters);
            reveal(State::optional_type);
        }
        match params {
            List::Nil => List::Nil,
            List::Cons(link) => {
                let p = &link.head;
                let ty = self.resolve_optional_type(&p.ty, depth);
                let rest = self.collect_parameters(&link.tail, depth);
                rest.push(
                    Parameter { name: p.name, ty, span: p.span, default: share_option(&p.default) },
                )
            },
        }
    }

    #[verifier::spinoff_prover]
    fn collect_trait_methods(&mut self, methods: &List<TraitMethod>, depth: usize) -> (r: List<
        (Symbol, FunctionSignature),
    >)
        ensures
            (final(self)@, r) == old(self)@.trait_methods(*methods, depth as nat),
            growth::grows(old(self)@, final(self)@),
        decreases depth, *methods, 3nat,
    {
        proof {
            reveal(State::trait_methods);
            reveal(State::parameters);
            reveal(State::type_expr);
        }
        match methods {
            List::Nil => List::Nil,
            List::Cons(link) => {
                let m = &link.head;
                let params = self.collect_parameters(&m.params, depth);
                let return_type = self.resolve_type_expr(&m.return_type, depth);
                let rest = self.collect_trait_methods(&link.tail, depth);
                rest.push(
                    (m.name, FunctionSignature { params, return_type, type_params: List::Nil }),
                )
            },
        }
    }

    #[verifier::spinoff_prover]
    fn resolve_with_self(&mut self, ty: &Type, for_type: &Type, depth: usize)
        ensures
            final(self)@ == old(self)@.self_type(*ty, *for_type, depth as nat),
            growth::grows(old(self)@, final(self)@),
        decreases depth, *ty, 0nat,
    {
        proof {
            reveal(State::self_type);
            reveal(State::type_expr);
        }
        if depth > 0 {
            let t = resolve_self_in_type(ty, for_type);
            let _ = self.resolve_type_expr(&t, depth - 1);
        }
    }

    #[verifier::spinoff_prover]
    fn resolve_method_params(&mut self, params: &List<Param>, for_type: &Type, depth: usize)
        ensures
            final(self)@ == old(self)@.method_params(*params, *for_type, depth as nat),
            growth::grows(old(self)@, final(self)@),
        decreases depth, *params, 3nat,
    {
        proof {
            reveal(State::method_params);
            reveal(State::self_type);
        }
        if let List::Cons(link) = params {
            if let Some(t) = &link.head.ty {
                self.resolve_with_self(t, for_type, depth);
            }
            self.resolve_method_params(&link.tail, for_type, depth);
        }
    }

    #[verifier::spinoff_prover]
    fn resolve_impl_methods(
        &mut self,
        methods: &List<ImplMethod>,
        receiver: Option<DefId>,
        for_type: &Type,
        depth: usize,
    )
        ensures
            final(self)@ == old(self)@.impl_methods(*methods, receiver, *for_type, depth as nat),
            growth::grows(old(self)@, final(self)@),
        decreases depth, *methods, 3nat,
    {
        proof {
            reveal(State::impl_methods);
            reveal(State::method_params);
            reveal(State::self_type);
        }
        if let List::Cons(link) = methods {
            let m = &link.head;
            let d = self.allocate_def_id();
            if let Some(r) = receiver {
                self.put_method(r, m.name, d);
            }
            self.resolve_method_params(&m.params, for_type, depth);
            self.resolve_with_self(&m.return_type, for_type, depth);
            self.resolve_impl_methods(&link.tail, receiver, for_type, depth);
        }
    }

    #[verifier::spinoff_prover]
    fn resolve_assoc_types(&mut self, list: &List<AssocType>, depth: usize)
        ensures
            final(self)@ == old(self)@.assoc_types(*list, depth as nat),
            growth::grows(old(self)@, final(self)@),
        decreases depth, *list, 3nat,
    {
        proof {
            reveal(State::assoc_types);
            reveal(State::type_expr);
        }
        if let List::Cons(link) = list {
            if let Some(t) = &link.head.default {
                let _ = self.resolve_type_expr(t, depth);
            }
            self.resolve_assoc_types(&link.tail, depth);
        }
    }

    #[verifier::spinoff_prover]
    fn resolve_impl_trait(&mut self, path: &Option<Rc<Type>>, depth: usize) -> (r: Option<DefId>)
        ensures
            (final(self)@, r) == old(self)@.impl_trait(*path, depth as nat),
            growth::grows(old(self)@, final(self)@),
        decreases depth, *path, 4nat,
    {
        proof {
            reveal(State::impl_trait);
            reveal(State::type_expr);
        }
        match path {
            None => None,
            Some(t) => match &**t {
                Type::Path(p, _) => self.symbols.lookup_trait_by_path(p),
                _ => {
                    let ty = self.resolve_type_expr(t, depth);
                    self.ctx.get_def_id_for_type(ty)
                },
            },
        }
    }

    fn mark_drop(&mut self, of_trait: Option<DefId>, resolved_for: TypeId)
        ensures
            final(self)@ == old(self)@.mark_drop(of_trait, resolved_for),
            growth::grows(old(self)@, final(self)@),
    {
        if let Some(d) = of_trait {
            if self.builtin_drop.is_none() {
                let found = match self.symbols.lookup_trait(Symbol(DROP)) {
                    Some(b) => Some(b.def_id),
                    None => None,
                };
                proof {
                    growth::lemma_aside(self@, State { builtin_drop: found, ..self@ });
                }
                self.builtin_drop = found;
            }
            if Some(d) == self.builtin_drop {
                if let Some(a) = self.ctx.get_def_id_for_type(resolved_for) {
                    proof {
                        growth::lemma_types_grow(self@, self@.ctx.with_drop(a));
                    }
                    self.ctx.set_adt_has_drop(a);
                }
            }
        }
    }

    // -----------------------------------------------------------------------
    // Type definitions
    // -----------------------------------------------------------------------

    #[verifier::spinoff_prover]
    fn resolve_fields(&mut self, fields: &List<FieldDef>, depth: usize) -> (r: List<FieldBinding>)
        ensures
            (final(self)@, r) == old(self)@.struct_fields(*fields, depth as nat),
            growth::grows(old(self)@, final(self)@),
        decreases depth, *fields, 3nat,
    {
        proof {
            reveal(State::struct_fields);
            reveal(State::type_expr);
        }
        match fields {
            List::Nil => List::Nil,
            List::Cons(link) => {
                let f = &link.head;
                let ty = self.resolve_type_expr(&f.ty, depth);
                let rest = self.resolve_fields(&link.tail, depth);
                rest.push(
                    FieldBinding {
                        name: f.name,
                        ty,
                        default: share_option(&f.default),
                        span: f.span,
                    },
                )
            },
        }
    }

    #[verifier::spinoff_prover]
    fn resolve_payloads(&mut self, variants: &List<VariantDef>, depth: usize) -> (r: List<
        FieldBinding,
    >)
        ensures
            (final(self)@, r) == old(self)@.payloads(*variants, depth as nat),
            growth::grows(old(self)@, final(self)@),
        decreases depth, *variants, 3nat,
    {
        proof {
            reveal(State::payloads);
            reveal(State::type_expr);
        }
        match variants {
            List::Nil => List::Nil,
            List::Cons(link) => {
                let v = &link.head;
                match &v.payload {
                    Some(p) => {
                        let before = self.diagnostics.clone();
                        let ghost before_state = self@;
                        let ty = self.resolve_type_expr(p, depth);
                        self.restore_diagnostics(before, Ghost(before_state));
                        let rest = self.resolve_payloads(&link.tail, depth);
                        rest.push(
                            FieldBinding { name: v.name, ty, default: None, span: v.span },
                        )
                    },
                    None => self.resolve_payloads(&link.tail, depth),
                }
            },
        }
    }

    fn check_when_names(
        &mut self,
        eqs: &List<(Symbol, Rc<Type>)>,
        params: &List<TypeParam>,
        exists_params: &List<Symbol>,
        span: Span,
    )
        ensures
            final(self)@ == old(self)@.when_names(*eqs, *params, *exists_params, span),
            growth::grows(old(self)@, final(self)@),
        decreases *eqs,
    {
        if let List::Cons(link) = eqs {
            let name = link.head.0;
            let ty = &link.head.1;
            if !has_param(params, name) && !list_has_name(exists_params, name) {
                self.report(
                    DiagKind::UnknownWhenParam(name, names_of(params, exists_params)),
                    Some(span),
                );
            }
            if let Some(bad) = find_param_ref_in_type(ty, params) {
                self.report(DiagKind::WhenRefersToParam(bad), Some(span_of_type(ty)));
            }
            self.check_when_names(&link.tail, params, exists_params, span);
        }
    }

    fn check_exists_names(
        &mut self,
        exists_params: &List<Symbol>,
        params: &List<TypeParam>,
        span: Span,
    )
        ensures
            final(self)@ == old(self)@.exists_names(*exists_params, *params, span),
            growth::grows(old(self)@, final(self)@),
        decreases *exists_params,
    {
        if let List::Cons(link) = exists_params {
            if has_param(params, link.head) {
                self.report(DiagKind::ExistsShadows(link.head), Some(span));
            }
            self.check_exists_names(&link.tail, params, span);
        }
    }

    fn check_contradictions_with(
        &mut self,
        first: &(Symbol, Rc<Type>),
        later: &List<(Symbol, Rc<Type>)>,
        exists_params: &List<Symbol>,
    )
        ensures
            final(self)@ == old(self)@.contradictions_with(*first, *later, *exists_params),
            growth::grows(old(self)@, final(self)@),
        decreases *later,
    {
        if let List::Cons(link) = later {
            let name = link.head.0;
            let ty = &link.head.1;
            if name == first.0 && rhs_is_provably_concrete(&first.1, exists_params, &self.symbols)
                && rhs_is_provably_concrete(ty, exists_params, &self.symbols)
                && types_are_different(&first.1, ty, &self.symbols) {
                self.report(
                    DiagKind::Contradictory(name, share(&first.1), share(ty)),
                    Some(span_of_type(ty)),
                );
            }
            self.check_contradictions_with(first, &link.tail, exists_params);
        }
    }

    fn check_contradictions(
        &mut self,
        eqs: &List<(Symbol, Rc<Type>)>,
        exists_params: &List<Symbol>,
    )
        ensures
            final(self)@ == old(self)@.contradictions(*eqs, *exists_params),
            growth::grows(old(self)@, final(self)@),
        decreases *eqs,
    {
        if let List::Cons(link) = eqs {
            self.check_contradictions_with(&link.head, &link.tail, exists_params);
            self.check_contradictions(&link.tail, exists_params);
        }
    }

    fn check_variants(
        &mut self,
        variants: &List<VariantDef>,
        params: &List<TypeParam>,
        span: Span,
    )
        ensures
            final(self)@ == old(self)@.variant_checks(*variants, *params, span),
            growth::grows(old(self)@, final(self)@),
        decreases *variants,
    {
        if let List::Cons(link) = variants {
            let v = &link.head;
            self.check_when_names(&v.eq_spec, params, &v.exists_params, span);
            self.check_exists_names(&v.exists_params, params, span);
            self.check_contradictions(&v.eq_spec, &v.exists_params);
            self.check_variants(&link.tail, params, span);
        }
    }

    fn check_defaults(&mut self, mods: &List<TypeModifier>, span: Span)
        ensures
            final(self)@ == old(self)@.default_checks(*mods, span),
            growth::grows(old(self)@, final(self)@),
        decreases *mods,
    {
        if let List::Cons(link) = mods {
            if let TypeModifier::Default(_) = &link.head {
                self.report(DiagKind::DefaultOnGeneric, Some(span));
            }
            self.check_defaults(&link.tail, span);
        }
    }

    #[verifier::spinoff_prover]
    fn resolve_definition(
        &mut self,
        def: &TypeDefinition,
        params: &List<TypeParam>,
        span: Span,
        depth: usize,
    ) -> (r: TypeBody)
        ensures
            (final(self)@, r) == old(self)@.definition(*def, *params, span, depth as nat),
            growth::grows(old(self)@, final(self)@),
        decreases depth, *def, 3nat,
    {
        proof {
            reveal(State::definition);
            reveal(State::payloads);
            reveal(State::struct_fields);
        }
        let mut body = empty_body();
        match def {
            TypeDefinition::Struct(fields) => {
                body.fields = self.resolve_fields(fields, depth);
            },
            TypeDefinition::Enum(variants, missing, mods) => {
                body.fields = self.resolve_payloads(variants, depth);
                self.check_variants(variants, params, span);
                if !params.is_empty() && any_is_constrained(variants, params) {
                    self.check_defaults(mods, span);
                }
                body.variants = variants.clone();
                body.missing_match = share_option(missing);
            },
            TypeDefinition::Alias(ty, mods) => {
                body.alias_ast = Some(share(ty));
                body.default_value = find_last_default(mods, None);
                body.no_default = has_no_default(mods);
            },
            _ => {},
        }
        body
    }

    // -----------------------------------------------------------------------
    // Layout attributes
    // -----------------------------------------------------------------------

    fn apply_layout_names(&self, args: &List<Expr>, lay: Layout) -> (r: Layout)
        ensures
            r == self@.layout_names(*args, lay),
        decreases *args,
    {
        match args {
            List::Nil => lay,
            List::Cons(link) => {
                let mut lay = lay;
                if let Expr::Ident(name, _) = &link.head {
                    if name.0 == LAYOUT_C {
                        lay.c_layout = true;
                    } else if let Some(attrs) = find_layout(&self.layout_aliases, *name) {
                        lay.expanded = add_missing(lay.expanded.clone(), attrs);
                    }
                }
                self.apply_layout_names(&link.tail, lay)
            },
        }
    }

    fn apply_endian(&mut self, attr: &Attribute, lay: Layout) -> (r: Layout)
        ensures
            (final(self)@, r) == old(self)@.endian_attr(*attr, lay),
            growth::grows(old(self)@, final(self)@),
    {
        let mut lay = lay;
        match &attr.args {
            List::Nil => {
                self.report(DiagKind::EndianNeedsArgument, Some(attr.span));
            },
            List::Cons(link) => match &link.head {
                Expr::Ident(name, _) => {
                    if name.0 == LITTLE {
                        lay.endian = Some(Endianness::Little);
                    } else if name.0 == BIG {
                        lay.endian = Some(Endianness::Big);
                    } else {
                        self.report(DiagKind::EndianExpects(*name), Some(attr.span));
                    }
                },
                _ => {
                    self.report(DiagKind::EndianNeedsIdent, Some(attr.span));
                },
            },
        }
        lay
    }

    fn apply_bit_order(&mut self, attr: &Attribute, lay: Layout) -> (r: Layout)
        ensures
            (final(self)@, r) == old(self)@.bit_order_attr(*attr, lay),
            growth::grows(old(self)@, final(self)@),
    {
        let mut lay = lay;
        match &attr.args {
            List::Nil => {
                self.report(DiagKind::BitOrderNeedsArgument, Some(attr.span));
            },
            List::Cons(link) => match &link.head {
                Expr::Ident(name, _) => {
                    if name.0 == LSB_TO_MSB {
                        lay.bit_order = Some(BitOrder::LsbToMsb);
                    } else if name.0 == MSB_TO_LSB {
                        lay.bit_order = Some(BitOrder::MsbToLsb);
                    } else {
                        self.report(DiagKind::BitOrderExpects(*name), Some(attr.span));
                    }
                },
                _ => {
                    self.report(DiagKind::BitOrderNeedsIdent, Some(attr.span));
                },
            },
        }
        lay
    }

    fn apply_size(&mut self, attr: &Attribute, lay: Layout) -> (r: Layout)
        ensures
            (final(self)@, r) == old(self)@.size_attr(*attr, lay),
            growth::grows(old(self)@, final(self)@),
    {
        let mut lay = lay;
        match &attr.args {
            List::Nil => {
                self.report(DiagKind::NeedsInteger(attr.name, false), Some(attr.span));
            },
            List::Cons(link) => match &link.head {
                Expr::Literal(Literal::Int(n), _) => {
                    if attr.name.0 == ALIGN {
                        lay.align = Some(size_of_literal(*n));
                    } else {
                        lay.pad = Some(size_of_literal(*n));
                    }
                },
                _ => {
                    self.report(DiagKind::NeedsInteger(attr.name, true), Some(attr.span));
                },
            },
        }
        lay
    }

    fn apply_layout_attr(&mut self, attr: &Attribute, lay: Layout) -> (r: Layout)
        ensures
            (final(self)@, r) == old(self)@.layout_attr(*attr, lay),
            growth::grows(old(self)@, final(self)@),
    {
        let n: u32 = attr.name.0;
        let mut lay = lay;
        if n == LAYOUT {
            self.apply_layout_names(&attr.args, lay)
        } else if n == TRANSPARENT {
            lay.transparent = true;
            lay
        } else if n == PACKED {
            lay.packed = true;
            lay
        } else if n == ENDIAN {
            self.apply_endian(attr, lay)
        } else if n == BIT_ORDER {
            self.apply_bit_order(attr, lay)
        } else if n == ALIGN || n == PAD {
            self.apply_size(attr, lay)
        } else {
            lay
        }
    }

    fn apply_layout_attrs(&mut self, attrs: &List<Attribute>, lay: Layout) -> (r: Layout)
        ensures
            (final(self)@, r) == old(self)@.layout_attrs(*attrs, lay),
            growth::grows(old(self)@, final(self)@),
        decreases *attrs,
    {
        match attrs {
            List::Nil => lay,
            List::Cons(link) => {
                let l = self.apply_layout_attr(&link.head, lay);
                self.apply_layout_attrs(&link.tail, l)
            },
        }
    }

    // -----------------------------------------------------------------------
    // Imports
    // -----------------------------------------------------------------------

    fn import_type(&mut self, name: Symbol, d: DefId, full: List<Symbol>, span: Span)
        ensures
            final(self)@ == old(self)@.import_type(name, d, full, span),
            growth::grows(old(self)@, final(self)@),
    {
        self.record_type_id(name, d);
        let found = match self.symbols.lookup_type_by_def_id(d) {
            Some(b) => Some(share(b)),
            None => None,
        };
        if let Some(b) = found {
            let _ = self.put_type(name, b, span);
        }
        self.put_path(full, d);
    }

    fn import_type_items(&mut self, items: &List<Symbol>, path: &List<Symbol>, span: Span)
        ensures
            final(self)@ == old(self)@.import_type_items(*items, *path, span),
            growth::grows(old(self)@, final(self)@),
        decreases *items,
    {
        if let List::Cons(link) = items {
            let item_path = List::Nil.push(link.head);
            if let Some(d) = self.symbols.lookup_type_by_path(&item_path) {
                self.import_type(link.head, d, snoc(path, link.head), span);
            }
            self.import_type_items(&link.tail, path, span);
        }
    }

    fn find_trait(&self, path: &List<Symbol>) -> (r: Option<Rc<TraitBinding>>)
        ensures
            r == self@.trait_at(*path),
    {
        match self.symbols.lookup_trait_by_path(path) {
            Some(d) => match self.symbols.lookup_trait_by_def_id(d) {
                Some(b) => Some(share(b)),
                None => None,
            },
            None => None,
        }
    }

    fn import_trait_items(&mut self, items: &List<Symbol>, span: Span)
        ensures
            final(self)@ == old(self)@.import_trait_items(*items, span),
            growth::grows(old(self)@, final(self)@),
        decreases *items,
    {
        if let List::Cons(link) = items {
            let item_path = List::Nil.push(link.head);
            if let Some(b) = self.find_trait(&item_path) {
                let _ = self.put_trait(link.head, b, span);
            }
            self.import_trait_items(&link.tail, span);
        }
    }

    fn find_function(&self, path: &List<Symbol>) -> (r: Option<Rc<FunctionBinding>>)
        ensures
            r == self@.function_at(*path),
    {
        match single_name(path) {
            Some(n) => match self.symbols.lookup_function(n) {
                Some(f) => Some(share(f)),
                None => None,
            },
            None => None,
        }
    }

    fn resolve_import_path(
        &mut self,
        path: &List<Symbol>,
        items: &Option<List<Symbol>>,
        alias: Option<Symbol>,
        span: Span,
    )
        ensures
            final(self)@ == old(self)@.import(*path, *items, alias, span),
            growth::grows(old(self)@, final(self)@),
    {
        let name = match alias {
            Some(a) => Some(a),
            None => last_of_path(path),
        };
        if let Some(d) = self.symbols.lookup_type_by_path(path) {
            if let Some(n) = name {
                self.import_type(n, d, path.clone(), span);
            }
            if let Some(list) = items {
                self.import_type_items(list, path, span);
            }
            return;
        }
        if let Some(b) = self.find_trait(path) {
            if let Some(n) = name {
                let _ = self.put_trait(n, b, span);
            }
            if let Some(list) = items {
                self.import_trait_items(list, span);
            }
            return;
        }
        if let Some(f) = self.find_function(path) {
            if let Some(n) = name {
                self.put_function(n, f, span);
            }
            return;
        }
        self.report(DiagKind::CannotImport(path.clone()), Some(span));
    }

    // -----------------------------------------------------------------------
    // Items
    // -----------------------------------------------------------------------

    fn bound_trait(&self, ty: &Type) -> (r: Option<DefId>)
        ensures
            r == self@.bound_trait(*ty),
    {
        match NameResolver::base_name(ty) {
            Some(n) => match self.symbols.lookup_trait(n) {
                Some(b) => Some(b.def_id),
                None => None,
            },
            None => None,
        }
    }

    #[verifier::spinoff_prover]
    fn resolve_bounds(&mut self, tys: &List<Type>, depth: usize) -> (r: List<TypeId>)
        ensures
            (final(self)@, r) == old(self)@.bounds(*tys, depth as nat),
            growth::grows(old(self)@, final(self)@),
        decreases depth, *tys, 3nat,
    {
        proof {
            reveal(State::bounds);
            reveal(State::type_expr);
        }
        match tys {
            List::Nil => List::Nil,
            List::Cons(link) => {
                let t = match self.bound_trait(&link.head) {
                    Some(d) => self.add_type(TypeData::DynTrait { traits: List::Nil.push(d) }),
                    None => self.resolve_type_expr(&link.head, depth),
                };
                self.resolve_bounds(&link.tail, depth).push(t)
            },
        }
    }

    #[verifier::spinoff_prover]
    fn resolve_predicates(&mut self, list: &List<Predicate>, depth: usize) -> (r: List<
        ConstraintPredicate,
    >)
        ensures
            (final(self)@, r) == old(self)@.predicates(*list, depth as nat),
            growth::grows(old(self)@, final(self)@),
        decreases depth, *list, 3nat,
    {
        proof {
            reveal(State::predicates);
            reveal(State::bounds);
            reveal(State::type_expr);
        }
        match list {
            List::Nil => List::Nil,
            List::Cons(link) => {
                let subject = self.resolve_type_expr(&link.head.ty, depth);
                let bounds = self.resolve_bounds(&link.head.bounds, depth);
                self.resolve_predicates(&link.tail, depth).push(
                    ConstraintPredicate { subject, bounds },
                )
            },
        }
    }

    #[verifier::spinoff_prover]
    fn resolve_function_head(&mut self, stmt: &Stmt, depth: usize)
        ensures
            final(self)@ == old(self)@.function_head(*stmt, depth as nat),
            growth::grows(old(self)@, final(self)@),
            match *stmt {
                Stmt::FunctionDef { name, .. } => growth::knows_function(
                    final(self)@.symbols.scopes,
                    name,
                ),
                _ => true,
            },
        decreases depth, *stmt, 3nat,
    {
        proof {
            reveal(State::function_head);
            reveal(State::parameters);
            reveal(State::returned);
        }
        match stmt {
            Stmt::FunctionDef {
                span,
                attributes,
                name,
                params,
                return_type,
                body: _,
                type_params,
                is_comptime,
                is_async,
                contracts,
            } => {
                let def_id = self.allocate_def_id();
                self.install_generics(type_params);
                let ps = self.collect_parameters(params, depth);
                let ret = self.resolve_returned(return_type, depth);
                let b = FunctionBinding {
                    def_id,
                    signature: FunctionSignature {
                        params: ps,
                        return_type: ret,
                        type_params: type_params.clone(),
                    },
                    is_comptime: *is_comptime,
                    is_async: *is_async,
                    is_pure: has_attribute_named(attributes, PURE),
                    is_ieee_contracts: has_attribute_named(attributes, IEEE_CONTRACTS),
                    hints: extract_hints(attributes),
                    contracts: contracts.clone(),
                    attributes: attributes.clone(),
                };
                self.put_function_at_root(*name, Rc::new(b), *span);
                if name.0 == MAIN {
                    self.set_main();
                }
            },
            _ => {},
        }
    }

    #[verifier::spinoff_prover]
    fn resolve_function_body(&mut self, stmt: &Stmt, depth: usize)
        ensures
            final(self)@ == old(self)@.function_body(*stmt, depth as nat),
            growth::grows(old(self)@, final(self)@),
        decreases depth, *stmt, 3nat,
    {
        proof {
            reveal(State::function_body);
            reveal(State::bind_params);
            reveal(State::stmts);
        }
        match stmt {
            Stmt::FunctionDef { params, body, .. } => {
                self.enter_scope();
                self.bind_params(params, depth);
                if let Some(stmts) = body {
                    self.resolve_stmts(stmts, depth);
                }
                self.set_generics(None);
                self.exit_scope();
            },
            _ => {},
        }
    }

    #[verifier::spinoff_prover]
    fn resolve_function_def(&mut self, stmt: &Stmt, depth: usize)
        ensures
            final(self)@ == old(self)@.function_def(*stmt, depth as nat),
            growth::grows(old(self)@, final(self)@),
        decreases depth, *stmt, 4nat,
    {
        proof {
            reveal(State::function_def);
            reveal(State::function_head);
            reveal(State::function_body);
        }
        self.resolve_function_head(stmt, depth);
        self.resolve_function_body(stmt, depth);
    }

    #[verifier::spinoff_prover]
    fn resolve_type_def(&mut self, stmt: &Stmt, depth: usize)
        ensures
            final(self)@ == old(self)@.type_def(*stmt, depth as nat),
            growth::grows(old(self)@, final(self)@),
        decreases depth, *stmt, 4nat,
    {
        proof {
            reveal(State::type_def);
            reveal(State::definition);
        }
        match stmt {
            Stmt::TypeDef { span, attributes, name, params, definition } => {
                let def_id = self.allocate_def_id();
                self.record_type_id(*name, def_id);
                let previous = list_option(&self.impl_params);
                self.install_generics(params);
                let body = self.resolve_definition(definition, params, *span, depth);
                let layout = self.apply_layout_attrs(attributes, plain_layout(attributes.clone()));
                let kind = kind_of_definition(definition);
                if kind == TypeKind::Struct || kind == TypeKind::Enum {
                    self.put_adt(
                        def_id,
                        AdtDef { fields: types_of_fields(&body.fields), has_drop: false },
                    );
                }
                let b = TypeBinding {
                    def_id,
                    params: params.clone(),
                    kind,
                    span: *span,
                    alias_ast: body.alias_ast,
                    attributes: attributes.clone(),
                    fields: body.fields,
                    variants: body.variants,
                    default_value: body.default_value,
                    no_default: body.no_default,
                    crate_id: self.symbols.local_crate_id,
                    missing_match: body.missing_match,
                    exhaustive: has_attribute_named(attributes, EXHAUSTIVE),
                    layout,
                };
                let d = self.put_type(*name, Rc::new(b), *span);
                self.note(d);
                self.put_path(snoc(&self.modules, *name), def_id);
                let found = match self.symbols.lookup_type(*name) {
                    Some(b) => Some(share(b)),
                    None => None,
                };
                if let Some(b) = found {
                    self.record_binding(def_id, b);
                }
                self.set_generics(previous);
            },
            _ => {},
        }
    }

    #[verifier::spinoff_prover]
    fn resolve_trait_def(&mut self, stmt: &Stmt, depth: usize)
        ensures
            final(self)@ == old(self)@.trait_def(*stmt, depth as nat),
            growth::grows(old(self)@, final(self)@),
        decreases depth, *stmt, 4nat,
    {
        proof {
            reveal(State::trait_def);
            reveal(State::trait_methods);
        }
        match stmt {
            Stmt::TraitDef { span, name, methods, associated_types, attributes } => {
                let def_id = self.allocate_def_id();
                let t = self.add_type(
                    TypeData::GenericParam { index: 0, name: Symbol(SELF_TYPE) },
                );
                self.set_self(Some(t));
                let sigs = self.collect_trait_methods(methods, depth);
                self.set_self(None);
                let b = TraitBinding {
                    def_id,
                    methods: sigs,
                    associated_types: defaults_of_assoc(associated_types),
                    span: *span,
                    attributes: attributes.clone(),
                    crate_id: self.symbols.local_crate_id,
                };
                let d = self.put_trait(*name, Rc::new(b), *span);
                self.note(d);
            },
            _ => {},
        }
    }

    #[verifier::spinoff_prover]
    fn resolve_impl_block(&mut self, stmt: &Stmt, depth: usize)
        ensures
            final(self)@ == old(self)@.impl_block(*stmt, depth as nat),
            growth::grows(old(self)@, final(self)@),
        decreases depth, *stmt, 4nat,
    {
        proof {
            reveal(State::impl_block);
            reveal(State::assoc_types);
            reveal(State::impl_methods);
            reveal(State::impl_trait);
            reveal(State::type_expr);
        }
        match stmt {
            Stmt::ImplBlock {
                span,
                attributes: _,
                trait_path,
                for_type,
                methods,
                associated_types,
                type_params,
            } => {
                self.install_generics(type_params);
                let resolved_for = self.resolve_type_expr(for_type, depth);
                self.set_self(Some(resolved_for));
                let of_trait = self.resolve_impl_trait(trait_path, depth);
                self.mark_drop(of_trait, resolved_for);
                self.enter_scope();
                let def_id = self.allocate_def_id();
                self.put_impl(
                    Rc::new(ImplBinding { def_id, methods: methods.clone(), span: *span }),
                );
                let receiver = self.ctx.get_def_id_for_type(resolved_for);
                self.resolve_impl_methods(methods, receiver, for_type, depth);
                self.resolve_assoc_types(associated_types, depth);
                self.set_generics(None);
                self.set_self(None);
                self.exit_scope();
            },
            _ => {},
        }
    }

    #[verifier::spinoff_prover]
    fn resolve_constraint(&mut self, stmt: &Stmt, depth: usize)
        ensures
            final(self)@ == old(self)@.constraint_def(*stmt, depth as nat),
            growth::grows(old(self)@, final(self)@),
        decreases depth, *stmt, 4nat,
    {
        proof {
            reveal(State::constraint_def);
            reveal(State::predicates);
        }
        match stmt {
            Stmt::Constraint { name, params, predicates, span } => {
                self.install_generics(params);
                let list = self.resolve_predicates(predicates, depth);
                self.set_generics(None);
                let b = ConstraintBinding {
                    predicates: list,
                    params: params.clone(),
                    span: *span,
                };
                self.put_constraint(*name, Rc::new(b), *span);
            },
            _ => {},
        }
    }

    #[verifier::spinoff_prover]
    fn resolve_foreign_function(&mut self, stmt: &Stmt, depth: usize)
        ensures
            final(self)@ == old(self)@.foreign_function(*stmt, depth as nat),
            growth::grows(old(self)@, final(self)@),
        decreases depth, *stmt, 4nat,
    {
        proof {
            reveal(State::foreign_function);
            reveal(State::parameters);
            reveal(State::type_expr);
        }
        match stmt {
            Stmt::ExternFunction { name, params, return_type, span, attributes } => {
                let def_id = self.allocate_def_id();
                let ps = self.collect_parameters(params, depth);
                let ret = self.resolve_type_expr(return_type, depth);
                let b = FunctionBinding {
                    def_id,
                    signature: FunctionSignature {
                        params: ps,
                        return_type: ret,
                        type_params: List::Nil,
                    },
                    is_comptime: false,
                    is_async: false,
                    is_pure: false,
                    is_ieee_contracts: has_attribute_named(attributes, IEEE_CONTRACTS),
                    hints: extract_hints(attributes),
                    contracts: List::Nil,
                    attributes: attributes.clone(),
                };
                self.put_function(*name, Rc::new(b), *span);
            },
            _ => {},
        }
    }

    #[verifier::spinoff_prover]
    fn resolve_item(&mut self, item: &Stmt, depth: usize)
        ensures
            final(self)@ == old(self)@.item(*item, depth as nat),
            growth::grows(old(self)@, final(self)@),
        decreases depth, *item, 5nat,
    {
        proof {
            reveal(State::item);
            reveal(State::constraint_def);
            reveal(State::foreign_function);
            reveal(State::function_def);
            reveal(State::impl_block);
            reveal(State::trait_def);
            reveal(State::type_def);
        }
        match item {
            Stmt::FunctionDef { .. } => self.resolve_function_def(item, depth),
            Stmt::TypeDef { .. } => self.resolve_type_def(item, depth),
            Stmt::TraitDef { .. } => self.resolve_trait_def(item, depth),
            Stmt::ImplBlock { .. } => self.resolve_impl_block(item, depth),
            Stmt::Import { path, items, alias, span } => self.resolve_import_path(
                path,
                items,
                *alias,
                *span,
            ),
            Stmt::Edition(version, span) => {
                match Edition::from_str(version) {
                    Some(e) => self.put_edition(e),
                    None => self.report(DiagKind::UnknownEdition(share(version)), Some(*span)),
                }
            },
            Stmt::LayoutDef { name, attributes } => {
                if find_layout(&self.layout_aliases, *name).is_some() {
                    self.report(DiagKind::DuplicateLayout(*name), Some(Span::new(0, 0)));
                } else {
                    self.put_layout(*name, attributes.clone());
                }
            },
            Stmt::Constraint { .. } => self.resolve_constraint(item, depth),
            Stmt::ExternFunction { .. } => self.resolve_foreign_function(item, depth),
            Stmt::VariableDef { span, .. } => self.report(DiagKind::NotTopLevel, Some(*span)),
            _ => {},
        }
    }

    #[verifier::spinoff_prover]
    fn resolve_items(&mut self, items: &List<Stmt>)
        ensures
            final(self)@ == old(self)@.items(*items, EXPANSIONS as nat),
            growth::grows(old(self)@, final(self)@),
        decreases *items,
    {
        proof {
            reveal(State::items);
            reveal(State::item);
        }
        if let List::Cons(link) = items {
            self.resolve_item(&link.head, EXPANSIONS);
            self.resolve_items(&link.tail);
        }
    }

    /// Declares items: all of them but the bodies of functions.
    #[verifier::spinoff_prover]
    fn declare_items(&mut self, items: &List<Stmt>)
        ensures
            final(self)@ == old(self)@.all_declared(*items, EXPANSIONS as nat),
            growth::grows(old(self)@, final(self)@),
            growth::functions_known(*items, final(self)@.symbols.scopes),
        decreases *items,
    {
        proof {
            reveal(State::all_declared);
            reveal(State::declared);
        }
        if let List::Cons(link) = items {
            match &link.head {
                Stmt::FunctionDef { .. } => {
                    self.resolve_function_head(&link.head, EXPANSIONS);
                    self.set_generics(None);
                },
                _ => self.resolve_item(&link.head, EXPANSIONS),
            }
            let ghost mid = self@;
            self.declare_items(&link.tail);
            assert(growth::functions_stay(mid.symbols.scopes, self@.symbols.scopes)) by {
                reveal(growth::grows);
            }
        }
    }

    /// Resolves the bodies of functions that have been declared.
    #[verifier::spinoff_prover]
    fn resolve_bodies(&mut self, items: &List<Stmt>)
        ensures
            final(self)@ == old(self)@.bodies_resolved(*items, EXPANSIONS as nat),
            growth::grows(old(self)@, final(self)@),
        decreases *items,
    {
        proof {
            reveal(State::bodies_resolved);
            reveal(State::body_resolved);
        }
        if let List::Cons(link) = items {
            if let Stmt::FunctionDef { type_params, .. } = &link.head {
                self.install_generics(type_params);
                self.resolve_function_body(&link.head, EXPANSIONS);
            }
            self.resolve_bodies(&link.tail);
        }
    }

    /// Takes the results out.
    fn take_results(&mut self) -> (r: Resolution)
        ensures
            final(self)@ == old(self)@.taken(),
            r == Resolution::of(old(self)@),
    {
        let mut symbols = SymbolTable::new(self.local_crate_id);
        std::mem::swap(&mut self.symbols, &mut symbols);
        let mut map = empty_map();
        std::mem::swap(&mut self.map, &mut map);
        let mut diagnostics = List::Nil;
        std::mem::swap(&mut self.diagnostics, &mut diagnostics);
        map.has_main = self.has_main;
        Resolution { symbols, diagnostics, map }
    }

    /// A resolver whose symbol table holds the built-in items.
    pub fn new(ctx: TypeContext, local_crate_id: CrateId, builtins: Vec<Builtin>) -> (r: Self)
        ensures
            r@ == State::start(
                ctx@,
                builtins::with_builtins(SymbolTable::fresh(local_crate_id), builtins@),
                local_crate_id,
            ),
    {
        let mut symbols = SymbolTable::new(local_crate_id);
        register_builtins(&mut symbols, builtins);
        NameResolver::with_symbols(ctx, symbols, local_crate_id)
    }

    /// A resolver that starts from a symbol table.
    pub fn with_symbols(ctx: TypeContext, symbols: SymbolTable, local_crate_id: CrateId) -> (r:
        Self)
        ensures
            r@ == State::start(ctx@, symbols, local_crate_id),
    {
        NameResolver {
            ctx,
            symbols,
            local_crate_id,
            diagnostics: List::Nil,
            has_main: false,
            impl_params: None,
            impl_for: None,
            map: empty_map(),
            modules: List::Nil,
            layout_aliases: List::Nil,
            builtin_drop: None,
        }
    }

    /// Resolves the items of a program and hands out what was found. Every
    /// scope that was opened has been closed again, no diagnostic is lost,
    /// and definitions are numbered on from those of the symbol table.
    pub fn resolve_program(&mut self, program: &List<Stmt>) -> (r: Resolution)
        ensures
            ({
                let after = old(self)@.items(*program, EXPANSIONS as nat);
                &&& r == Resolution::of(after)
                &&& final(self)@ == after.taken()
                &&& growth::grows(old(self)@, after)
            }),
    {
        self.resolve_items(program);
        self.take_results()
    }

    /// Resolves further items on top of the results of an earlier
    /// resolution: their definitions are numbered on from those that are
    /// taken. The bodies of functions come last, so that the functions may
    /// refer to each other in any order.
    pub fn resolve_incremental(
        &mut self,
        new_items: &List<Stmt>,
        existing_symbols: SymbolTable,
        existing_resolution_map: ResolutionMap,
    ) -> (r: Resolution)
        ensures
            ({
                let before = old(self)@.restored(existing_symbols, existing_resolution_map);
                let declared = before.all_declared(*new_items, EXPANSIONS as nat);
                let after = before.batch(*new_items, EXPANSIONS as nat);
                &&& r == Resolution::of(after)
                &&& final(self)@ == after.taken()
                &&& growth::grows(before, after)
                &&& growth::functions_known(*new_items, declared.symbols.scopes)
            }),
    {
        self.has_main = existing_resolution_map.has_main;
        self.symbols = existing_symbols;
        self.map = existing_resolution_map;
        self.diagnostics = List::Nil;
        self.declare_items(new_items);
        self.resolve_bodies(new_items);
        self.take_results()
    }

    /// The symbol table.
    pub fn into_symbols(self) -> (r: SymbolTable)
        ensures
            r == self@.symbols,
    {
        self.symbols
    }

    /// The diagnostics, the latest first.
    pub fn diagnostics(&self) -> (r: &List<Diagnostic>)
        ensures
            *r == self@.diagnostics,
    {
        &self.diagnostics
    }

    /// The types.
    pub fn context(&self) -> (r: &TypeContext)
        ensures
            r@ == self@.ctx,
    {
        &self.ctx
    }
}

} // verus!
