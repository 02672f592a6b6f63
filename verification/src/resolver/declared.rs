//! What definitions bring into scope, and what expressions are of.
use super::diag::{DiagKind, Diagnostic};
use super::names;
use super::state;
use super::state::State;
use super::table;
use super::table::{
    BitOrder, Endianness, FieldBinding, FunctionBinding, FunctionSignature, Layout, Parameter,
    Scope, TypeBinding, TypeKind,
};
use crate::ast::{
    Attribute, Expr, FieldDef, Literal, Param, Stmt, Type, TypeDefinition, TypeParam,
};
use crate::list::List;
use crate::symbol::{
    Span, Symbol, ALIGN, BIG, BIT_ORDER, ENDIAN, EXHAUSTIVE, HINT, IEEE_CONTRACTS, LAYOUT_C, LITTLE,
    LSB_TO_MSB, MAIN, MSB_TO_LSB, PACKED, PAD, PURE, TRANSPARENT,
};
use crate::types;
use crate::types::{DefId, TypeData, TypeId, TY_NEVER, TY_UNIT};
use std::rc::Rc;
use vstd::prelude::*;

verus! {

// ---------------------------------------------------------------------------
// Attributes
// ---------------------------------------------------------------------------

/// One of the attributes has the name.
pub open spec fn is_marked(attrs: Seq<Attribute>, name: u32) -> bool {
    exists|k: int| 0 <= k < attrs.len() && (#[trigger] attrs[k]).name.0 == name
}

/// An attribute is there iff it is in the list.
pub proof fn law_attributes_are_found(attrs: List<Attribute>, name: u32)
    ensures
        state::has_attribute(attrs, name) == is_marked(attrs@, name),
    decreases attrs,
{
    if attrs is Cons {
        let rest = attrs.rest();
        law_attributes_are_found(rest, name);
        assert(attrs@ == seq![attrs.first()] + rest@);
        assert(attrs@[0] == attrs.first());
        if is_marked(rest@, name) {
            let k = choose|k: int| 0 <= k < rest@.len() && (#[trigger] rest@[k]).name.0 == name;
            assert(attrs@[k + 1] == rest@[k]);
        }
        if is_marked(attrs@, name) {
            let k = choose|k: int| 0 <= k < attrs@.len() && (#[trigger] attrs@[k]).name.0 == name;
            if k > 0 {
                assert(rest@[k - 1] == attrs@[k]);
            }
        }
    } else {
        assert(attrs@.len() == 0);
    }
}

/// The hints are the arguments of the attributes of that name, and no others.
pub proof fn law_hints_are_gathered(attrs: List<Attribute>, e: Expr)
    ensures
        state::hints(attrs)@.contains(e) <==> exists|k: int|
            0 <= k < attrs@.len() && (#[trigger] attrs@[k]).name.0 == HINT
                && attrs@[k].args@.contains(e),
    decreases attrs,
{
    if attrs is Cons {
        let rest = attrs.rest();
        let h = attrs.first();
        law_hints_are_gathered(rest, e);
        assert(attrs@ == seq![h] + rest@);
        assert(attrs@[0] == h);
        lemma_appended(h.args, state::hints(rest));
        crate::gather::lemma_in_both(h.args@, state::hints(rest)@, e);
        if exists|k: int|
            0 <= k < rest@.len() && (#[trigger] rest@[k]).name.0 == HINT
                && rest@[k].args@.contains(e) {
            let k = choose|k: int|
                0 <= k < rest@.len() && (#[trigger] rest@[k]).name.0 == HINT
                    && rest@[k].args@.contains(e);
            assert(attrs@[k + 1] == rest@[k]);
        }
        if exists|k: int|
            0 <= k < attrs@.len() && (#[trigger] attrs@[k]).name.0 == HINT
                && attrs@[k].args@.contains(e) {
            let k = choose|k: int|
                0 <= k < attrs@.len() && (#[trigger] attrs@[k]).name.0 == HINT
                    && attrs@[k].args@.contains(e);
            if k > 0 {
                assert(rest@[k - 1] == attrs@[k]);
            }
        }
    } else {
        assert(attrs@.len() == 0);
        assert(state::hints(attrs)@.len() == 0);
    }
}

proof fn lemma_appended<T>(a: List<T>, b: List<T>)
    ensures
        state::appended(a, b)@ == a@ + b@,
    decreases a,
{
    if a is Cons {
        lemma_appended(a.rest(), b);
        assert(a@ == seq![a.first()] + a.rest()@);
        assert(state::appended(a, b) == state::appended(a.rest(), b).cons(a.first()));
        assert(state::appended(a, b)@ == seq![a.first()] + state::appended(a.rest(), b)@);
        assert(a@ + b@ =~= seq![a.first()] + (a.rest()@ + b@));
    } else {
        assert(a@ + b@ =~= b@);
    }
}

// ---------------------------------------------------------------------------
// Functions
// ---------------------------------------------------------------------------

/// The state once the types of the first `n` parameters have been resolved.
pub open spec fn after_params(s: State, params: Seq<Param>, n: int, fuel: nat) -> State
    decreases n,
{
    if n <= 0 {
        s
    } else {
        after_params(s, params, n - 1, fuel).optional_type(params[n - 1].ty, fuel).0
    }
}

pub proof fn lemma_after_params(s: State, list: List<Param>, n: int, fuel: nat)
    requires
        list is Cons,
        0 < n <= list@.len(),
    ensures
        after_params(s, list@, n, fuel) == after_params(
            s.optional_type(list.first().ty, fuel).0,
            list.rest()@,
            n - 1,
            fuel,
        ),
    decreases n,
{
    assert(list@ == seq![list.first()] + list.rest()@);
    if n > 1 {
        lemma_after_params(s, list, n - 1, fuel);
        assert(list@[n - 1] == list.rest()@[n - 2]);
    } else {
        assert(list@[0] == list.first());
        assert(after_params(s, list@, 0, fuel) == s);
    }
}

/// The parameters of a signature are those that are written, in their order: their names,
/// positions and defaults, and what their types are resolved to one after the other.
pub proof fn law_parameters_are_kept(s: State, list: List<Param>, fuel: nat)
    ensures
        s.parameters(list, fuel).1@.len() == list@.len(),
        s.parameters(list, fuel).0 == after_params(s, list@, list@.len() as int, fuel),
        forall|i: int|
            0 <= i < list@.len() ==> #[trigger] s.parameters(list, fuel).1@[i] == (Parameter {
                name: list@[i].name,
                ty: after_params(s, list@, i, fuel).optional_type(list@[i].ty, fuel).1,
                span: list@[i].span,
                default: list@[i].default,
            }),
    decreases list,
{
    reveal(State::parameters);
    reveal(State::optional_type);
    if list is Cons {
        let p = list.first();
        let rest = list.rest();
        let (t, ty) = s.optional_type(p.ty, fuel);
        law_parameters_are_kept(t, rest, fuel);
        let more = t.parameters(rest, fuel).1;
        let one = Parameter { name: p.name, ty, span: p.span, default: p.default };
        assert(list@ == seq![p] + rest@);
        assert(s.parameters(list, fuel).1 == more.cons(one));
        assert(s.parameters(list, fuel).1@ == seq![one] + more@);
        lemma_after_params(s, list, list@.len() as int, fuel);
        assert forall|i: int| 0 <= i < list@.len() implies #[trigger] s.parameters(
            list,
            fuel,
        ).1@[i] == (Parameter {
            name: list@[i].name,
            ty: after_params(s, list@, i, fuel).optional_type(list@[i].ty, fuel).1,
            span: list@[i].span,
            default: list@[i].default,
        }) by {
            if i > 0 {
                lemma_after_params(s, list, i, fuel);
                assert(list@[i] == rest@[i - 1]);
                assert(s.parameters(list, fuel).1@[i] == more@[i - 1]);
            } else {
                assert(after_params(s, list@, 0, fuel) == s);
                assert(s.parameters(list, fuel).1@[0] == one);
                assert(list@[0] == p);
            }
        }
    } else {
        assert(list@.len() == 0);
        assert(s.parameters(list, fuel).1@.len() == 0);
    }
}

proof fn lemma_root_entry(scopes: List<Scope>, name: Symbol, b: Rc<FunctionBinding>)
    ensures
        table::entry(
            table::root_scope(table::with_root_function(scopes, name, b)).functions,
            name,
        ) == Some(b),
    decreases scopes,
{
    let after = table::with_root_function(scopes, name, b);
    if scopes is Cons && scopes.rest() is Cons {
        lemma_root_entry(scopes.rest(), name, b);
        let inner = table::with_root_function(scopes.rest(), name, b);
        assert(inner is Cons);
        assert(after == inner.cons(scopes.first()));
        assert(table::root_scope(after) == table::root_scope(inner));
    } else {
        assert(after.rest() is Nil);
        assert(table::root_scope(after) == after.first());
        assert(after.first().functions.first() == (name, b));
    }
}

/// What a definition gives a function that is not known yet: a new number, the types that
/// are written, and what its attributes say. It becomes known at the root; a second function
/// of its name is reported and changes nothing there.
#[verifier::rlimit(40)]
pub proof fn law_functions_are_declared(s: State, stmt: Stmt, fuel: nat)
    requires
        stmt is FunctionDef,
    ensures
        ({
            let name = stmt->FunctionDef_name;
            let attrs = stmt->FunctionDef_attributes;
            let params = stmt->FunctionDef_params;
            let t = s.function_head(stmt, fuel);
            let r = s.define().0.with_generics(stmt->FunctionDef_type_params);
            let (u, ps) = r.parameters(params, fuel);
            let (v, ret) = u.returned(stmt->FunctionDef_return_type, fuel);
            &&& t.has_main == (v.has_main || name.0 == MAIN)
            &&& if table::entry(table::root_scope(v.symbols.scopes).functions, name) is Some {
                &&& t.symbols == v.symbols
                &&& t.diagnostics == v.diagnostics.cons(
                    Diagnostic {
                        kind: DiagKind::DuplicateFunction(name),
                        span: Some(stmt->FunctionDef_span),
                    },
                )
            } else {
                let found = table::entry(table::root_scope(t.symbols.scopes).functions, name);
                &&& t.diagnostics == v.diagnostics
                &&& found is Some
                &&& found->0.def_id == DefId(s.symbols.next_def)
                &&& found->0.signature.params == ps
                &&& found->0.signature.return_type == ret
                &&& found->0.signature.type_params == stmt->FunctionDef_type_params
                &&& found->0.is_comptime == stmt->FunctionDef_is_comptime
                &&& found->0.is_async == stmt->FunctionDef_is_async
                &&& found->0.is_pure == is_marked(attrs@, PURE)
                &&& found->0.is_ieee_contracts == is_marked(attrs@, IEEE_CONTRACTS)
                &&& found->0.hints == state::hints(attrs)
                &&& found->0.contracts == stmt->FunctionDef_contracts
                &&& found->0.attributes == attrs
            }
        }),
{
    reveal(State::function_head);
    reveal(State::parameters);
    reveal(State::returned);
    if let Stmt::FunctionDef {
        span,
        attributes,
        name,
        params,
        return_type,
        body,
        type_params,
        is_comptime,
        is_async,
        contracts,
    } = stmt {
        law_attributes_are_found(attributes, PURE);
        law_attributes_are_found(attributes, IEEE_CONTRACTS);
        let (s0, def_id) = s.define();
        let r = s0.with_generics(type_params);
        let (u, ps) = r.parameters(params, fuel);
        let (v, ret) = u.returned(return_type, fuel);
        let b = Rc::new(
            FunctionBinding {
                def_id,
                signature: FunctionSignature { params: ps, return_type: ret, type_params },
                is_comptime,
                is_async,
                is_pure: state::has_attribute(attributes, PURE),
                is_ieee_contracts: state::has_attribute(attributes, IEEE_CONTRACTS),
                hints: state::hints(attributes),
                contracts,
                attributes,
            },
        );
        lemma_root_entry(v.symbols.scopes, name, b);
        let w = v.note(v.symbols.with_function_at_root(name, b, span));
        assert(s.function_head(stmt, fuel) == (State {
            has_main: w.has_main || name.0 == MAIN,
            ..w
        }));
    }
}

/// What a function returns where nothing is written is the unit type; what is written is
/// resolved.
pub proof fn law_results_are_resolved(s: State, ty: Option<Rc<Type>>, fuel: nat)
    ensures
        ty is None ==> s.returned(ty, fuel) == (s, TypeId(TY_UNIT)),
        ty matches Some(t) ==> s.returned(ty, fuel) == s.type_expr(*t, fuel),
        ty is None ==> s.optional_type(ty, fuel) == (s, s.error()),
        ty matches Some(t) ==> s.optional_type(ty, fuel) == s.type_expr(*t, fuel),
{
    reveal(State::returned);
    reveal(State::optional_type);
    reveal(State::type_expr);
}

/// The type parameters are in scope under their names, numbered in their order; the last
/// one of a name is found.
pub proof fn law_type_parameters_are_numbered(
    s: State,
    params: List<TypeParam>,
    i: usize,
    known: List<(Symbol, TypeId)>,
    k: int,
)
    requires
        0 <= k < params@.len(),
        i + params@.len() <= usize::MAX,
        s.ctx.types.len() + params@.len() <= usize::MAX,
        forall|j: int| k < j < params@.len() ==> (#[trigger] params@[j]).name != params@[k].name,
    ensures
        ({
            let (t, list) = s.generics(params, i, known);
            &&& t.ctx.types.len() == s.ctx.types.len() + params@.len()
            &&& table::entry(list, params@[k].name) is Some
            &&& t.ctx.data(table::entry(list, params@[k].name)->0) == Some(
                TypeData::GenericParam { index: (i + k) as usize, name: params@[k].name },
            )
        }),
    decreases params,
{
    let h = params.first();
    let rest = params.rest();
    if params is Nil {
        assert(params@.len() == 0);
    }
    assert(params@ == seq![h] + rest@);
    assert(params@[0] == h);
    let d = TypeData::GenericParam { index: i, name: h.name };
    let (t, id) = s.add_type(d);
    let more = known.cons((h.name, id));
    if k > 0 {
        assert(params@[k] == rest@[k - 1]);
        assert forall|j: int| k - 1 < j < rest@.len() implies (#[trigger] rest@[j]).name
            != rest@[k - 1].name by {
            assert(params@[j + 1] == rest@[j]);
        }
        law_type_parameters_are_numbered(t, rest, state::next_index(i), more, k - 1);
    } else {
        assert(id.0 == s.ctx.types.len());
        assert(t.ctx.types[id.0 as int] == d);
        assert forall|j: int| 0 <= j < rest@.len() implies (#[trigger] rest@[j]).name != h.name by {
            assert(params@[j + 1] == rest@[j]);
        }
        lemma_generics_keep(t, rest, state::next_index(i), more, h.name, id);
    }
}

proof fn lemma_generics_keep(
    s: State,
    params: List<TypeParam>,
    i: usize,
    known: List<(Symbol, TypeId)>,
    name: Symbol,
    id: TypeId,
)
    requires
        table::entry(known, name) == Some(id),
        (id.0 as int) < s.ctx.types.len(),
        forall|j: int| 0 <= j < params@.len() ==> (#[trigger] params@[j]).name != name,
    ensures
        table::entry(s.generics(params, i, known).1, name) == Some(id),
        s.generics(params, i, known).0.ctx.types.len() == s.ctx.types.len() + params@.len(),
        s.generics(params, i, known).0.ctx.data(id) == s.ctx.data(id),
    decreases params,
{
    if params is Cons {
        let h = params.first();
        let rest = params.rest();
        assert(params@ == seq![h] + rest@);
        assert(params@[0] == h);
        let (t, x) = s.add_type(TypeData::GenericParam { index: i, name: h.name });
        assert forall|j: int| 0 <= j < rest@.len() implies (#[trigger] rest@[j]).name != name by {
            assert(params@[j + 1] == rest@[j]);
        }
        lemma_generics_keep(t, rest, state::next_index(i), known.cons((h.name, x)), name, id);
    } else {
        assert(params@.len() == 0);
    }
}

// ---------------------------------------------------------------------------
// Variables
// ---------------------------------------------------------------------------

/// A variable that is defined with a declared type is found with what that type is resolved
/// to, one without it with the type of its value; a variable with neither is reported.
pub proof fn law_variables_are_declared(
    s: State,
    name: Symbol,
    mutable: bool,
    ty: Option<Rc<Type>>,
    value: Option<Rc<Expr>>,
    span: Span,
    fuel: nat,
)
    requires
        ({
            let t = declared_type(s, ty, value, span, fuel).0;
            t.symbols.scopes is Cons && table::entry(t.symbols.top().variables, name) is None
        }),
    ensures
        ({
            let stmt = Stmt::VariableDef {
                mutable,
                name: Some(name),
                pattern: None,
                ty,
                value,
                else_branch: None,
                span,
                type_captures: List::Nil,
            };
            let (t, id) = declared_type(s, ty, value, span, fuel);
            let u = s.stmt(stmt, fuel);
            let found = table::variable_in(u.symbols.scopes, name);
            &&& found is Some
            &&& found->0.ty == id
            &&& found->0.mutable == mutable
            &&& found->0.span == span
            &&& u.diagnostics == t.diagnostics
        }),
{
    reveal(State::stmt);
    reveal(State::type_expr);
    reveal(State::type_of_expr);
    reveal(State::optional_pattern);
    reveal(State::optional_block);
    let stmt = Stmt::VariableDef {
        mutable,
        name: Some(name),
        pattern: None,
        ty,
        value,
        else_branch: None,
        span,
        type_captures: List::Nil,
    };
    let (t, id) = declared_type(s, ty, value, span, fuel);
    if ty is None {
        if let Some(v) = value {
            assert(s.type_of_expr(names::of(v), fuel) == (t, id)) by {
                reveal(State::expr);
            }
        }
    }
    let a = t.bind(name, id, mutable, span);
    let b = a.captures(List::Nil, span);
    assert(b == a);
    let c = b.optional_pattern(None, fuel);
    assert(c == b);
    assert(c.optional_block(None, fuel) == c);
    assert(s.stmt(stmt, fuel) == c);
    assert(a.symbols.scopes.first().variables.first().0 == name);
}

/// The type of a variable, and the state once it is known.
pub open spec fn declared_type(
    s: State,
    ty: Option<Rc<Type>>,
    value: Option<Rc<Expr>>,
    span: Span,
    fuel: nat,
) -> (State, TypeId) {
    match ty {
        Some(t) => s.type_expr(*t, fuel),
        None => match value {
            Some(v) => {
                let (t, id) = s.expr(*v, fuel);
                (
                    t,
                    match id {
                        Some(x) => x,
                        None => TypeId(types::TY_ERROR),
                    },
                )
            },
            None => (
                State {
                    diagnostics: s.diagnostics.cons(
                        Diagnostic { kind: DiagKind::CannotInfer, span: Some(span) },
                    ),
                    ..s
                },
                TypeId(types::TY_ERROR),
            ),
        },
    }
}

// ---------------------------------------------------------------------------
// Types of expressions
// ---------------------------------------------------------------------------

/// What literals are of: whole numbers are signed and 32 bits wide, others have 64 bits;
/// texts are slices of bytes.
pub proof fn law_literals_have_types(s: State, span: Span, fuel: nat)
    requires
        s.ctx.types.len() < usize::MAX,
        types::Types::basic().is_prefix_of(s.ctx.types),
    ensures
        forall|lit: Literal|
            #![trigger s.expr(Expr::Literal(lit, span), fuel)]
            {
                let (t, id) = s.expr(Expr::Literal(lit, span), fuel);
                &&& id is Some
                &&& t.diagnostics == s.diagnostics && t.symbols == s.symbols
                &&& t.ctx.data(id->0) == Some(
                    match lit {
                        Literal::Int(_) => TypeData::Int { bits: 32, signed: true },
                        Literal::Float => TypeData::Float { bits: 64 },
                        Literal::Char(_) => TypeData::Char,
                        Literal::Text(_) => TypeData::Slice { elem: TypeId(5) },
                        Literal::Bytes(_) => TypeData::Slice { elem: TypeId(5) },
                        Literal::Bool(_) => TypeData::Bool,
                    },
                )
            },
{
    reveal(State::expr);
    let b = types::Types::basic();
    assert(s.ctx.types[3] == b[3] && s.ctx.types[4] == b[4]);
}

/// An expression that leaves has no value, blocks without a result and tasks have the unit
/// value, an annotated expression the type of the expression.
pub proof fn law_expressions_have_types(s: State, e: Expr, fuel: nat)
    ensures
        s.expr(Expr::LeaveWith { expr: Rc::new(e) }, fuel).1 == Some(TypeId(TY_NEVER)),
        forall|body: List<Stmt>|
            (#[trigger] s.expr(Expr::UnsafeBlock { body }, fuel)).1 == Some(TypeId(TY_UNIT)),
        forall|body: List<Stmt>|
            (#[trigger] s.expr(Expr::Task { body }, fuel)).1 == Some(TypeId(TY_UNIT)),
        forall|ty: Type|
            #![trigger s.type_expr(ty, fuel)]
            s.expr(Expr::TypeAnnotated { expr: Rc::new(e), ty: Rc::new(ty) }, fuel)
                == s.type_expr(ty, fuel).0.expr(e, fuel),
        forall|ty: Type|
            #![trigger s.type_expr(ty, fuel)]
            s.expr(Expr::TypeInfo(Rc::new(ty)), fuel) == (
                s.type_expr(ty, fuel).0,
                Some(TypeId(TY_UNIT)),
            ),
{
    reveal(State::expr);
    reveal(State::type_expr);
    assert forall|ty: Type|
        #![trigger s.type_expr(ty, fuel)]
        s.expr(Expr::TypeAnnotated { expr: Rc::new(e), ty: Rc::new(ty) }, fuel) == s.type_expr(
            ty,
            fuel,
        ).0.expr(e, fuel) by {
        let t = s.type_expr(ty, fuel).0;
        let r = t.expr(e, fuel);
    }
}

// ---------------------------------------------------------------------------
// Types that are defined
// ---------------------------------------------------------------------------

/// The state once the types of the first `n` fields have been resolved.
pub open spec fn after_fields(s: State, fields: Seq<FieldDef>, n: int, fuel: nat) -> State
    decreases n,
{
    if n <= 0 {
        s
    } else {
        after_fields(s, fields, n - 1, fuel).type_expr(*fields[n - 1].ty, fuel).0
    }
}

proof fn lemma_after_fields(s: State, list: List<FieldDef>, n: int, fuel: nat)
    requires
        list is Cons,
        0 < n <= list@.len(),
    ensures
        after_fields(s, list@, n, fuel) == after_fields(
            s.type_expr(*list.first().ty, fuel).0,
            list.rest()@,
            n - 1,
            fuel,
        ),
    decreases n,
{
    assert(list@ == seq![list.first()] + list.rest()@);
    if n > 1 {
        lemma_after_fields(s, list, n - 1, fuel);
        assert(list@[n - 1] == list.rest()@[n - 2]);
    } else {
        assert(list@[0] == list.first());
        assert(after_fields(s, list@, 0, fuel) == s);
    }
}

/// The fields of a struct are those that are written, in their order: their names, defaults
/// and positions, and what their types are resolved to one after the other.
pub proof fn law_fields_are_kept(s: State, list: List<FieldDef>, fuel: nat)
    ensures
        s.struct_fields(list, fuel).1@.len() == list@.len(),
        s.struct_fields(list, fuel).0 == after_fields(s, list@, list@.len() as int, fuel),
        forall|i: int|
            0 <= i < list@.len() ==> #[trigger] s.struct_fields(list, fuel).1@[i]
                == (FieldBinding {
                name: list@[i].name,
                ty: after_fields(s, list@, i, fuel).type_expr(*list@[i].ty, fuel).1,
                default: list@[i].default,
                span: list@[i].span,
            }),
    decreases list,
{
    reveal(State::struct_fields);
    reveal(State::type_expr);
    if list is Cons {
        let f = list.first();
        let rest = list.rest();
        let (t, ty) = s.type_expr(names::of(f.ty), fuel);
        law_fields_are_kept(t, rest, fuel);
        let more = t.struct_fields(rest, fuel).1;
        let one = FieldBinding { name: f.name, ty, default: f.default, span: f.span };
        assert(list@ == seq![f] + rest@);
        assert(s.struct_fields(list, fuel).1 == more.cons(one));
        assert(s.struct_fields(list, fuel).1@ == seq![one] + more@);
        lemma_after_fields(s, list, list@.len() as int, fuel);
        assert forall|i: int| 0 <= i < list@.len() implies #[trigger] s.struct_fields(
            list,
            fuel,
        ).1@[i] == (FieldBinding {
            name: list@[i].name,
            ty: after_fields(s, list@, i, fuel).type_expr(*list@[i].ty, fuel).1,
            default: list@[i].default,
            span: list@[i].span,
        }) by {
            if i > 0 {
                lemma_after_fields(s, list, i, fuel);
                assert(list@[i] == rest@[i - 1]);
                assert(s.struct_fields(list, fuel).1@[i] == more@[i - 1]);
            } else {
                assert(after_fields(s, list@, 0, fuel) == s);
                assert(s.struct_fields(list, fuel).1@[0] == one);
                assert(list@[0] == f);
            }
        }
    } else {
        assert(list@.len() == 0);
        assert(s.struct_fields(list, fuel).1@.len() == 0);
    }
}

/// A type that its scope does not know yet becomes known there under its name, with a new
/// number, as what it is defined to be: a struct with its fields, an enum with its variants,
/// an alias for another type, or one of the others. Structs and enums have their fields in
/// the type context.
#[verifier::rlimit(60)]
pub proof fn law_types_are_declared(s: State, stmt: Stmt, fuel: nat)
    requires
        stmt is TypeDef,
        ({
            let d = *stmt->TypeDef_definition;
            let r = s.define().0.with_type_id(
                stmt->TypeDef_name,
                DefId(s.symbols.next_def),
            ).with_generics(stmt->TypeDef_params);
            let t = r.definition(d, stmt->TypeDef_params, stmt->TypeDef_span, fuel).0;
            table::entry(t.symbols.top().types, stmt->TypeDef_name) is None
        }),
    ensures
        ({
            let name = stmt->TypeDef_name;
            let params = stmt->TypeDef_params;
            let attrs = stmt->TypeDef_attributes;
            let id = DefId(s.symbols.next_def);
            let r = s.define().0.with_type_id(name, id).with_generics(params);
            let t = s.type_def(stmt, fuel);
            let found = t.symbols.named_type(name);
            &&& table::type_in(t.symbols.scopes, name) == Some(id)
            &&& found is Some
            &&& found->0.def_id == id && found->0.params == params
            &&& found->0.attributes == attrs && found->0.span == stmt->TypeDef_span
            &&& found->0.exhaustive == is_marked(attrs@, EXHAUSTIVE)
            &&& t.impl_params == s.impl_params
            &&& match *stmt->TypeDef_definition {
                TypeDefinition::Struct(fields) => {
                    &&& found->0.kind == TypeKind::Struct
                    &&& found->0.fields == r.struct_fields(fields, fuel).1
                    &&& found->0.alias_ast is None
                    &&& types::find_adt(t.ctx.adts, id) is Some
                    &&& types::find_adt(t.ctx.adts, id)->0.fields == state::field_types(
                        found->0.fields,
                    )
                    &&& !types::find_adt(t.ctx.adts, id)->0.has_drop
                },
                TypeDefinition::Enum(variants, missing, mods) => {
                    &&& found->0.kind == TypeKind::Enum
                    &&& found->0.fields == r.payloads(variants, fuel).1
                    &&& found->0.variants == variants
                    &&& found->0.missing_match == missing
                    &&& found->0.alias_ast is None
                    &&& types::find_adt(t.ctx.adts, id) is Some
                    &&& types::find_adt(t.ctx.adts, id)->0.fields == state::field_types(
                        found->0.fields,
                    )
                },
                TypeDefinition::Alias(ty, mods) => {
                    &&& found->0.kind == TypeKind::Alias
                    &&& found->0.alias_ast == Some(ty)
                },
                TypeDefinition::Opaque => found->0.kind == TypeKind::Opaque,
                TypeDefinition::TraitDef => found->0.kind == TypeKind::Trait,
                TypeDefinition::ImplBlock => found->0.kind == TypeKind::Impl,
                TypeDefinition::Constraint => found->0.kind == TypeKind::Constraint,
            }
        }),
{
    reveal(State::type_def);
    reveal(State::definition);
    reveal(State::struct_fields);
    reveal(State::payloads);
    if let Stmt::TypeDef { span, attributes, name, params, definition } = stmt {
        law_attributes_are_found(attributes, EXHAUSTIVE);
        let (s0, def_id) = s.define();
        let s1 = s0.with_type_id(name, def_id);
        let r = s1.with_generics(params);
        let def = names::of(definition);
        let (s2, body) = r.definition(def, params, span, fuel);
        let lay = state::no_layout(attributes);
        names::lemma_layout_attrs(s2, attributes, lay, name, span);
        lemma_layout_aside(s2, attributes, lay);
        let (s3, layout) = s2.layout_attrs(attributes, lay);
        let kind = state::kind_of(def);
        let b = Rc::new(
            TypeBinding {
                def_id,
                params,
                kind,
                span,
                alias_ast: body.alias_ast,
                attributes,
                fields: body.fields,
                variants: body.variants,
                default_value: body.default_value,
                no_default: body.no_default,
                crate_id: s3.symbols.local_crate_id,
                missing_match: body.missing_match,
                exhaustive: state::has_attribute(attributes, EXHAUSTIVE),
                layout,
            },
        );
        let w = s3.symbols.with_type(name, b, span).0;
        let t = s.type_def(stmt, fuel);
        assert(t.symbols.scopes == w.scopes);
        assert(t.symbols.type_defs == w.type_defs);
        assert(w.type_defs == s3.symbols.type_defs.cons((def_id, b)));
        assert(w.scopes.first().types == s3.symbols.top().types.cons((name, def_id)));
        assert(table::entry(w.scopes.first().types, name) == Some(def_id));
        assert(table::type_in(w.scopes, name) == Some(def_id));
        assert(table::def_entry(w.type_defs, def_id) == Some(b));
        match def {
            TypeDefinition::Struct(fields) => {
                assert(body.fields == r.struct_fields(fields, fuel).1);
                assert(t.ctx == s3.ctx.with_adt(
                    def_id,
                    types::AdtDef { fields: state::field_types(body.fields), has_drop: false },
                ));
            },
            TypeDefinition::Enum(variants, missing, mods) => {
                assert(body.fields == r.payloads(variants, fuel).1);
                assert(t.ctx == s3.ctx.with_adt(
                    def_id,
                    types::AdtDef { fields: state::field_types(body.fields), has_drop: false },
                ));
            },
            _ => {},
        }
    }
}

proof fn lemma_layout_aside(s: State, attrs: List<Attribute>, lay: Layout)
    ensures
        s.layout_attrs(attrs, lay).0.ctx == s.ctx,
        s.layout_attrs(attrs, lay).0.symbols == s.symbols,
    decreases attrs,
{
    if attrs is Cons {
        let (t, l) = s.layout_attr(attrs.first(), lay);
        lemma_layout_aside(t, attrs.rest(), l);
    }
}

// ---------------------------------------------------------------------------
// Layout
// ---------------------------------------------------------------------------

/// A type is transparent or packed iff it has the attribute of that name.
pub proof fn law_layout_marks(s: State, attrs: List<Attribute>, lay: Layout)
    ensures
        s.layout_attrs(attrs, lay).1.transparent == (lay.transparent || is_marked(
            attrs@,
            TRANSPARENT,
        )),
        s.layout_attrs(attrs, lay).1.packed == (lay.packed || is_marked(attrs@, PACKED)),
    decreases attrs,
{
    if attrs is Cons {
        let h = attrs.first();
        let rest = attrs.rest();
        let (t, l) = s.layout_attr(h, lay);
        law_layout_marks(t, rest, l);
        lemma_names_keep(s, h.args, lay);
        lemma_marked_either(attrs, TRANSPARENT);
        lemma_marked_either(attrs, PACKED);
    } else {
        assert(attrs@.len() == 0);
    }
}

proof fn lemma_marked_either(attrs: List<Attribute>, name: u32)
    requires
        attrs is Cons,
    ensures
        is_marked(attrs@, name) == (attrs.first().name.0 == name || is_marked(
            attrs.rest()@,
            name,
        )),
{
    law_attributes_are_found(attrs, name);
    law_attributes_are_found(attrs.rest(), name);
}

proof fn lemma_names_keep(s: State, args: List<Expr>, lay: Layout)
    ensures
        s.layout_names(args, lay).transparent == lay.transparent,
        s.layout_names(args, lay).packed == lay.packed,
        s.layout_names(args, lay).endian == lay.endian,
        s.layout_names(args, lay).bit_order == lay.bit_order,
        s.layout_names(args, lay).align == lay.align,
        s.layout_names(args, lay).pad == lay.pad,
    decreases args,
{
    if args is Cons {
        let next = match args.first() {
            Expr::Ident(name, _) => if name.0 == LAYOUT_C {
                Layout { c_layout: true, ..lay }
            } else {
                match table::entry(s.layout_aliases, name) {
                    Some(attrs) => Layout {
                        expanded: state::with_missing(lay.expanded, attrs),
                        ..lay
                    },
                    None => lay,
                }
            },
            _ => lay,
        };
        lemma_names_keep(s, args.rest(), next);
    }
}

/// An attribute with the order of bytes or bits, a size or a padding sets it, whatever was
/// set before; one with anything else is reported, and sets nothing.
pub proof fn law_layout_attributes_are_read(s: State, attr: Attribute, place: Span, lay: Layout)
    requires
        attr.args is Cons,
    ensures
        ({
            let (t, l) = s.layout_attr(attr, lay);
            let arg = attr.args.first();
            &&& attr.name.0 == ENDIAN && arg == Expr::Ident(Symbol(LITTLE), place) ==> l.endian
                == Some(Endianness::Little) && t == s
            &&& attr.name.0 == ENDIAN && arg == Expr::Ident(Symbol(BIG), place) ==> l.endian
                == Some(Endianness::Big) && t == s
            &&& attr.name.0 == BIT_ORDER && arg == Expr::Ident(Symbol(LSB_TO_MSB), place)
                ==> l.bit_order == Some(BitOrder::LsbToMsb) && t == s
            &&& attr.name.0 == BIT_ORDER && arg == Expr::Ident(Symbol(MSB_TO_LSB), place)
                ==> l.bit_order == Some(BitOrder::MsbToLsb) && t == s
            &&& (attr.name.0 == ENDIAN || attr.name.0 == BIT_ORDER) && !(arg is Ident) ==> l == lay
                && t.diagnostics@.len() == s.diagnostics@.len() + 1
            &&& attr.name.0 == ALIGN || attr.name.0 == PAD ==> match arg {
                Expr::Literal(Literal::Int(n), _) => {
                    &&& t == s
                    &&& n <= u64::MAX && attr.name.0 == ALIGN ==> l.align == Some(n as u64)
                        && l.pad == lay.pad
                    &&& n <= u64::MAX && attr.name.0 == PAD ==> l.pad == Some(n as u64) && l.align
                        == lay.align
                },
                _ => l == lay && t.diagnostics@.len() == s.diagnostics@.len() + 1,
            }
        }),
{
    let (t, l) = s.layout_attr(attr, lay);
    if t.diagnostics != s.diagnostics {
        assert(t.diagnostics@ == seq![t.diagnostics.first()] + s.diagnostics@);
    }
}

} // verus!
