//! What the types of the syntax are once they are resolved.
use super::diag::{DiagKind, Diagnostic};
use super::state::State;
use super::table;
use super::table::TypeKind;
use crate::ast::{AnonConst, Expr, GenericArg, Literal, Type};
use crate::list::List;
use crate::symbol::{
    Span, Symbol, BOOL, BYTE, CHAR, FLOAT, INT, NEVER, PTR, RATIONAL, SELF_TYPE, UINT, USIZE,
};
use crate::types::{AdtKind, TypeData, TypeId, Types, TY_ERROR};
use std::rc::Rc;
use vstd::prelude::*;

verus! {

/// The path is this one name.
pub open spec fn is_name(ty: Type, name: Symbol) -> bool {
    exists|path: List<Symbol>, span: Span| #[trigger]
        is_path(ty, path, span) && path@ == seq![name]
}

pub open spec fn is_path(ty: Type, path: List<Symbol>, span: Span) -> bool {
    ty == Type::Path(path, span)
}

/// The expression that a type argument is, if it is one.
pub open spec fn written(arg: GenericArg) -> Option<Expr> {
    match arg {
        GenericArg::Const(AnonConst { value, .. }) => Some(*value),
        GenericArg::Positional(t) | GenericArg::Named(_, t) => match *t {
            Type::Literal(e, _) => Some(*e),
            _ => None,
        },
    }
}

/// The number, at most 64, that a type argument is.
pub open spec fn small_number(arg: GenericArg) -> Option<u128> {
    match written(arg) {
        Some(Expr::Literal(Literal::Int(n), _)) => if n <= 64 {
            Some(n)
        } else {
            None
        },
        _ => None,
    }
}

/// The arguments say `width` at position `n`: it is written there, as a number that is
/// at most 64, or nothing of the kind is there and it is what it is by default.
pub open spec fn says(args: Seq<GenericArg>, n: int, width: int, default: int) -> bool {
    if n < args.len() && small_number(args[n]) is Some {
        width == small_number(args[n])->0
    } else {
        width == default
    }
}

/// What the type is in the state that it was resolved in.
pub open spec fn is_data(r: (State, TypeId), d: TypeData) -> bool {
    r.0.ctx.data(r.1) == Some(d)
}

/// The types can be numbered.
pub open spec fn is_numbered(s: State) -> bool {
    s.ctx.types.len() <= usize::MAX
}

proof fn lemma_int_at(args: List<GenericArg>, n: nat)
    ensures
        super::state::int_at(args, n) == (if n < args@.len() {
            super::state::int_in_arg(args@[n as int])
        } else {
            None
        }),
    decreases args,
{
    if args is Cons {
        assert(args@ == seq![args.first()] + args.rest()@);
        if n > 0 {
            lemma_int_at(args.rest(), (n - 1) as nat);
        }
    }
}

proof fn lemma_single(path: List<Symbol>, name: Symbol)
    requires
        path@ == seq![name],
    ensures
        super::syntax::single(path) == Some(name),
        path == List::Nil.cons(name),
{
    if path is Nil {
        assert(path@.len() == 0);
    }
    assert(path@.len() == 1);
    assert(path@ == seq![path.first()] + path.rest()@);
    assert(path.rest()@.len() == 0);
    assert(path.rest() is Nil) by {
        if path.rest() is Cons {
            assert(path.rest()@ == seq![path.rest().first()] + path.rest().rest()@);
        }
    }
    assert(path@[0] == path.first());
}

/// `Int` with arguments is a signed integer and `UInt` with arguments an unsigned one, of
/// the width that the first argument says, 32 where it says none.
pub proof fn law_integers_are_resolved(
    s: State,
    base: Type,
    name: Symbol,
    args: List<GenericArg>,
    span: Span,
    fuel: nat,
    width: u32,
)
    requires
        is_name(base, name),
        says(args@, 0, width as int, 32),
        is_numbered(s.type_expr(Type::Generic(Rc::new(base), args, span), fuel).0),
    ensures
        name.0 == UINT ==> is_data(
            s.type_expr(Type::Generic(Rc::new(base), args, span), fuel),
            TypeData::Int { bits: width, signed: false },
        ),
        name.0 == INT ==> is_data(
            s.type_expr(Type::Generic(Rc::new(base), args, span), fuel),
            TypeData::Int { bits: width, signed: true },
        ),
{
    reveal(State::builtin_generic);
    lemma_int_at(args, 0);
    if name.0 == UINT || name.0 == INT {
        lemma_builtin(s, base, name, args, span, fuel);
    }
}

proof fn lemma_base(base: Type, name: Symbol)
    requires
        is_name(base, name),
    ensures
        State::base_name(base) == Some(name),
{
    let (path, span) = choose|path: List<Symbol>, span: Span| #[trigger]
        is_path(base, path, span) && path@ == seq![name];
    lemma_single(path, name);
}

/// The resolver asks for a built-in type with arguments first.
proof fn lemma_builtin(
    s: State,
    base: Type,
    name: Symbol,
    args: List<GenericArg>,
    span: Span,
    fuel: nat,
)
    requires
        is_name(base, name),
        s.builtin_generic(name, args, fuel) is Some,
    ensures
        s.type_expr(Type::Generic(Rc::new(base), args, span), fuel) == s.builtin_generic(
            name,
            args,
            fuel,
        )->0,
{
    lemma_base(base, name);
    reveal(State::type_expr);
    reveal(State::builtin_generic);
}

/// The two are told apart: with the same arguments they are different types.
pub proof fn law_signs_are_told_apart(
    s: State,
    signed: Type,
    unsigned: Type,
    args: List<GenericArg>,
    span: Span,
    fuel: nat,
)
    requires
        is_name(signed, Symbol(INT)),
        is_name(unsigned, Symbol(UINT)),
        is_numbered(s.type_expr(Type::Generic(Rc::new(signed), args, span), fuel).0),
        is_numbered(s.type_expr(Type::Generic(Rc::new(unsigned), args, span), fuel).0),
    ensures
        ({
            let (a, t) = s.type_expr(Type::Generic(Rc::new(signed), args, span), fuel);
            let (b, u) = s.type_expr(Type::Generic(Rc::new(unsigned), args, span), fuel);
            a.ctx.data(t) != b.ctx.data(u)
        }),
{
    reveal(State::builtin_generic);
    lemma_builtin(s, signed, Symbol(INT), args, span, fuel);
    lemma_builtin(s, unsigned, Symbol(UINT), args, span, fuel);
}

/// `Float` with arguments is a floating point number of the width that the first one
/// says, 64 where it says none.
pub proof fn law_floats_are_resolved(
    s: State,
    base: Type,
    args: List<GenericArg>,
    span: Span,
    fuel: nat,
    width: u32,
)
    requires
        is_name(base, Symbol(FLOAT)),
        says(args@, 0, width as int, 64),
        is_numbered(s.type_expr(Type::Generic(Rc::new(base), args, span), fuel).0),
    ensures
        is_data(
            s.type_expr(Type::Generic(Rc::new(base), args, span), fuel),
            TypeData::Float { bits: width },
        ),
{
    reveal(State::builtin_generic);
    lemma_int_at(args, 0);
    lemma_builtin(s, base, Symbol(FLOAT), args, span, fuel);
}

/// `Rational` with arguments is a fraction whose two parts have the widths that the first
/// two say, 16 where they say none.
pub proof fn law_rationals_are_resolved(
    s: State,
    base: Type,
    args: List<GenericArg>,
    span: Span,
    fuel: nat,
    p: u8,
    q: u8,
)
    requires
        is_name(base, Symbol(RATIONAL)),
        says(args@, 0, p as int, 16),
        says(args@, 1, q as int, 16),
        is_numbered(s.type_expr(Type::Generic(Rc::new(base), args, span), fuel).0),
    ensures
        is_data(
            s.type_expr(Type::Generic(Rc::new(base), args, span), fuel),
            TypeData::Rational { p, q },
        ),
{
    reveal(State::builtin_generic);
    lemma_int_at(args, 0);
    lemma_int_at(args, 1);
    lemma_builtin(s, base, Symbol(RATIONAL), args, span, fuel);
}

/// A type that is given as a type argument by position is resolved as it stands.
pub proof fn law_type_arguments_are_resolved(s: State, t: Type, fuel: nat)
    ensures
        s.arg_type(GenericArg::Positional(Rc::new(t)), fuel) == s.type_expr(t, fuel),
        forall|n: Symbol| #[trigger]
            s.arg_type(GenericArg::Named(n, Rc::new(t)), fuel) == s.type_expr(t, fuel),
{
    reveal(State::arg_type);
    reveal(State::type_expr);
    assert forall|n: Symbol| #[trigger]
        s.arg_type(GenericArg::Named(n, Rc::new(t)), fuel) == s.type_expr(t, fuel) by {}
}

/// `Ptr` with two arguments is a pointer: the first says how wide it is, the second what
/// it points to. Without them it is as wide as a size, and points to what is not known.
pub proof fn law_pointers_with_size_are_resolved(
    s: State,
    base: Type,
    args: List<GenericArg>,
    span: Span,
    fuel: nat,
)
    requires
        is_name(base, Symbol(PTR)),
        is_numbered(s.type_expr(Type::Generic(Rc::new(base), args, span), fuel).0),
    ensures
        ({
            let r = s.type_expr(Type::Generic(Rc::new(base), args, span), fuel);
            if args@.len() == 0 {
                is_data(r, TypeData::Ptr { size: TypeId(6), pointee: TypeId(0) })
            } else {
                let (t, size) = s.arg_type(args@[0], fuel);
                if args@.len() == 1 {
                    is_data(r, TypeData::Ptr { size, pointee: TypeId(0) })
                } else {
                    is_data(
                        r,
                        TypeData::Ptr { size, pointee: t.arg_type(args@[1], fuel).1 },
                    )
                }
            }
        }),
{
    reveal(State::builtin_generic);
    reveal(State::arg_type);
    if args is Cons {
        assert(args@ == seq![args.first()] + args.rest()@);
        assert(args@[0] == args.first());
        let (t, size) = s.arg_type(args@[0], fuel);
        if args.rest() is Cons {
            assert(args.rest()@ == seq![args.rest().first()] + args.rest().rest()@);
            assert(args@[1] == args.rest().first());
            let r = t.arg_type(args@[1], fuel);
            assert(s.builtin_generic(Symbol(PTR), args, fuel) == Some(
                r.0.add_type(TypeData::Ptr { size, pointee: r.1 }),
            ));
        } else {
            assert(args.rest()@.len() == 0);
            assert(s.builtin_generic(Symbol(PTR), args, fuel) == Some(
                t.add_type(TypeData::Ptr { size, pointee: TypeId(0) }),
            ));
        }
    } else {
        assert(args@.len() == 0);
    }
    lemma_builtin(s, base, Symbol(PTR), args, span, fuel);
}

/// References, pointers, slices, arrays and types with lifetimes are of what is inside,
/// as it is resolved on its own, and keep what else is written.
pub proof fn law_compound_types_are_resolved(s: State, inner: Type, span: Span, fuel: nat)
    requires
        s.type_expr(inner, fuel).0.ctx.types.len() < usize::MAX,
    ensures
        forall|mutable: bool, lifetime: Option<Symbol>|
            is_data(
                #[trigger] s.type_expr(
                    Type::Reference { inner: Rc::new(inner), mutable, lifetime, span },
                    fuel,
                ),
                TypeData::Ref { ty: s.type_expr(inner, fuel).1, mutable, lifetime },
            ),
        is_data(
            s.type_expr(Type::Pointer(Rc::new(inner), span), fuel),
            TypeData::Pointer { ty: s.type_expr(inner, fuel).1 },
        ),
        is_data(
            s.type_expr(Type::Slice(Rc::new(inner), span), fuel),
            TypeData::Slice { elem: s.type_expr(inner, fuel).1 },
        ),
        forall|n: u64, place: Span|
            is_data(
                #[trigger] s.type_expr(
                    Type::Array(
                        Rc::new(inner),
                        Rc::new(Expr::Literal(Literal::Int(n as u128), place)),
                        span,
                    ),
                    fuel,
                ),
                TypeData::Array { elem: s.type_expr(inner, fuel).1, size: n },
            ),
        forall|lifetime: Symbol|
            #![trigger s.type_expr(Type::Forall { lifetime, body: Rc::new(inner), span }, fuel)]
            is_data(
                s.type_expr(Type::Forall { lifetime, body: Rc::new(inner), span }, fuel),
                TypeData::Forall {
                    index: s.type_expr(inner, fuel).0.ctx.next_param,
                    lifetime,
                    body: s.type_expr(inner, fuel).1,
                },
            ),
        forall|name: Symbol, condition: Rc<Expr>|
            #![trigger s.type_expr(
                Type::Exists { name, base: Rc::new(inner), condition, span },
                fuel,
            )]
            is_data(
                s.type_expr(Type::Exists { name, base: Rc::new(inner), condition, span }, fuel),
                TypeData::Exists {
                    index: s.type_expr(inner, fuel).0.ctx.next_param,
                    name,
                    base: s.type_expr(inner, fuel).1,
                    condition,
                },
            ),
{
    reveal(State::type_expr);
}

/// An array whose size is not written as a number is reported.
pub proof fn law_array_sizes_are_numbers(s: State, inner: Type, size: Expr, span: Span, fuel: nat)
    requires
        !(size matches Expr::Literal(Literal::Int(_), _)),
    ensures
        ({
            let (t, id) = s.type_expr(Type::Array(Rc::new(inner), Rc::new(size), span), fuel);
            &&& id == TypeId(TY_ERROR)
            &&& t.diagnostics == s.type_expr(inner, fuel).0.diagnostics.cons(
                Diagnostic { kind: DiagKind::ArraySize, span: Some(span) },
            )
        }),
{
    reveal(State::type_expr);
}

/// The state once the first `n` of the types have been resolved.
pub open spec fn after_types(s: State, tys: Seq<Type>, n: int, fuel: nat) -> State
    decreases n,
{
    if n <= 0 {
        s
    } else {
        after_types(s, tys, n - 1, fuel).type_expr(tys[n - 1], fuel).0
    }
}

proof fn lemma_after_types(s: State, tys: List<Type>, n: int, fuel: nat)
    requires
        tys is Cons,
        0 < n <= tys@.len(),
    ensures
        after_types(s, tys@, n, fuel) == after_types(
            s.type_expr(tys.first(), fuel).0,
            tys.rest()@,
            n - 1,
            fuel,
        ),
    decreases n,
{
    assert(tys@ == seq![tys.first()] + tys.rest()@);
    if n > 1 {
        lemma_after_types(s, tys, n - 1, fuel);
        assert(tys@[n - 1] == tys.rest()@[n - 2]);
    } else {
        assert(tys@[0] == tys.first());
        assert(after_types(s, tys@, 0, fuel) == s);
    }
}

/// A list of types is resolved one after the other, each to one type.
pub proof fn law_types_are_resolved_in_order(s: State, tys: List<Type>, fuel: nat)
    ensures
        s.types(tys, fuel).1@.len() == tys@.len(),
        s.types(tys, fuel).0 == after_types(s, tys@, tys@.len() as int, fuel),
        forall|i: int|
            0 <= i < tys@.len() ==> #[trigger] s.types(tys, fuel).1@[i] == after_types(
                s,
                tys@,
                i,
                fuel,
            ).type_expr(tys@[i], fuel).1,
    decreases tys,
{
    reveal(State::types);
    reveal(State::type_expr);
    if tys is Cons {
        let (t, id) = s.type_expr(tys.first(), fuel);
        let rest = tys.rest();
        law_types_are_resolved_in_order(t, rest, fuel);
        let ids = t.types(rest, fuel).1;
        assert(tys@ == seq![tys.first()] + rest@);
        assert(s.types(tys, fuel).1 == ids.cons(id));
        assert(s.types(tys, fuel).1@ == seq![id] + ids@);
        lemma_after_types(s, tys, tys@.len() as int, fuel);
        assert forall|i: int| 0 <= i < tys@.len() implies #[trigger] s.types(tys, fuel).1@[i]
            == after_types(s, tys@, i, fuel).type_expr(tys@[i], fuel).1 by {
            if i > 0 {
                lemma_after_types(s, tys, i, fuel);
                assert(tys@[i] == rest@[i - 1]);
                assert(s.types(tys, fuel).1@[i] == ids@[i - 1]);
            } else {
                assert(after_types(s, tys@, 0, fuel) == s);
                assert(s.types(tys, fuel).1@[0] == id);
            }
        }
    }
}

/// Tuples and functions are of what their types are resolved to, in order; the result of a
/// function comes after its parameters.
pub proof fn law_lists_of_types_are_resolved(s: State, tys: List<Type>, ret: Type, span: Span, fuel: nat)
    requires
        s.types(tys, fuel).0.ctx.types.len() < usize::MAX,
        s.types(tys, fuel).0.type_expr(ret, fuel).0.ctx.types.len() < usize::MAX,
    ensures
        is_data(
            s.type_expr(Type::Tuple(tys, span), fuel),
            TypeData::Tuple { elems: s.types(tys, fuel).1 },
        ),
        is_data(
            s.type_expr(Type::Function { params: tys, ret: Rc::new(ret), span }, fuel),
            TypeData::Function {
                params: s.types(tys, fuel).1,
                ret: s.types(tys, fuel).0.type_expr(ret, fuel).1,
            },
        ),
{
    reveal(State::type_expr);
    reveal(State::types);
    let (t, ids) = s.types(tys, fuel);
    let r = t.type_expr(ret, fuel);
    assert(s.type_expr(Type::Tuple(tys, span), fuel) == t.add_type(TypeData::Tuple { elems: ids }));
    assert(s.type_expr(Type::Function { params: tys, ret: Rc::new(ret), span }, fuel)
        == r.0.add_type(TypeData::Function { params: ids, ret: r.1 }));
}

/// No definition, type parameter or `Self` stands for the name.
pub open spec fn is_free_type(s: State, name: Symbol) -> bool {
    &&& table::type_in(s.symbols.scopes, name) is None
    &&& table::path_entry(s.symbols.full_paths, seq![name]) is None
    &&& s.impl_params matches Some(known) ==> table::entry(known, name) is None
    &&& !(name.0 == SELF_TYPE && s.impl_for is Some)
}

/// A name that nothing else stands for is the basic type of that name, if it is one of
/// `Bool`, `Char`, `Byte`, `Usize` and `Never`.
pub proof fn law_basic_types_are_resolved(
    s: State,
    ty: Type,
    name: Symbol,
    fuel: nat,
)
    requires
        is_name(ty, name),
        is_free_type(s, name),
        Types::basic().is_prefix_of(s.ctx.types),
    ensures
        name.0 == BOOL ==> is_data(s.type_expr(ty, fuel), TypeData::Bool),
        name.0 == CHAR ==> is_data(s.type_expr(ty, fuel), TypeData::Char),
        name.0 == BYTE ==> is_data(s.type_expr(ty, fuel), TypeData::Byte),
        name.0 == USIZE ==> is_data(s.type_expr(ty, fuel), TypeData::USize),
        name.0 == NEVER ==> is_data(s.type_expr(ty, fuel), TypeData::Never),
        name.0 == BOOL || name.0 == CHAR || name.0 == BYTE || name.0 == USIZE || name.0 == NEVER
            ==> s.type_expr(ty, fuel).0 == s,
{
    reveal(State::type_expr);
    reveal(State::path_type);
    let (path, span) = choose|path: List<Symbol>, span: Span| #[trigger]
        is_path(ty, path, span) && path@ == seq![name];
    assert(s.type_expr(ty, fuel) == s.path_type(ty, fuel));
    lemma_single(path, name);
    let b = Types::basic();
    assert(s.ctx.types[2] == b[2] && s.ctx.types[3] == b[3] && s.ctx.types[4] == b[4]
        && s.ctx.types[5] == b[5] && s.ctx.types[6] == b[6]);
}

/// A type parameter that is in scope is found by its name.
pub proof fn law_type_parameters_are_found(
    s: State,
    ty: Type,
    name: Symbol,
    known: List<(Symbol, TypeId)>,
    id: TypeId,
    fuel: nat,
)
    requires
        is_name(ty, name),
        s.impl_params == Some(known),
        table::entry(known, name) == Some(id),
        name.0 != SELF_TYPE,
    ensures
        s.type_expr(ty, fuel) == (s, id),
{
    reveal(State::type_expr);
    reveal(State::path_type);
    let (path, span) = choose|path: List<Symbol>, span: Span| #[trigger]
        is_path(ty, path, span) && path@ == seq![name];
    assert(s.type_expr(ty, fuel) == s.path_type(ty, fuel));
    lemma_single(path, name);
}

/// The name of a struct or an enum that is in scope is an instance of its definition
/// without arguments; that of an alias is what the alias stands for.
pub proof fn law_defined_types_are_found(s: State, ty: Type, name: Symbol, fuel: nat)
    requires
        is_name(ty, name),
        s.local_type(ty->Path_0) is None,
        s.symbols.named_type(name) is Some,
        s.ctx.types.len() < usize::MAX,
        fuel > 0,
    ensures
        ({
            let b = s.symbols.named_type(name)->0;
            let d = table::type_in(s.symbols.scopes, name)->0;
            match b.alias_ast {
                Some(alias) => s.type_expr(ty, fuel) == s.type_expr(*alias, (fuel - 1) as nat),
                None => {
                    &&& b.kind == TypeKind::Struct ==> is_data(
                        s.type_expr(ty, fuel),
                        TypeData::Adt { kind: AdtKind::Struct, def_id: d, args: List::Nil },
                    )
                    &&& b.kind == TypeKind::Enum ==> is_data(
                        s.type_expr(ty, fuel),
                        TypeData::Adt { kind: AdtKind::Enum, def_id: d, args: List::Nil },
                    )
                },
            }
        }),
{
    reveal(State::type_expr);
    reveal(State::path_type);
    let (path, span) = choose|path: List<Symbol>, span: Span| #[trigger]
        is_path(ty, path, span) && path@ == seq![name];
    lemma_single(path, name);
    assert(s.type_expr(ty, fuel) == s.path_type(ty, fuel));
}

/// A path that names no type is reported where it stands, and is the type of what could
/// not be resolved.
pub proof fn law_unknown_types_are_reported(s: State, path: List<Symbol>, span: Span, fuel: nat)
    requires
        path@.len() > 0,
        s.local_type(path) is None,
        s.symbols.type_by_path(path) is None,
        !is_builtin(path@[0]),
    ensures
        s.type_expr(Type::Path(path, span), fuel).1 == TypeId(TY_ERROR),
        s.type_expr(Type::Path(path, span), fuel).0.diagnostics == s.diagnostics.cons(
            Diagnostic { kind: DiagKind::UndefinedType(path), span: Some(span) },
        ),
{
    reveal(State::type_expr);
    reveal(State::path_type);
    assert(s.type_expr(Type::Path(path, span), fuel) == s.path_type(Type::Path(path, span), fuel));
    assert(path@ == seq![path.first()] + path.rest()@);
}

/// The name is that of a built-in type.
pub open spec fn is_builtin(name: Symbol) -> bool {
    ||| name.0 == BOOL || name.0 == CHAR || name.0 == BYTE || name.0 == USIZE
    ||| name.0 == crate::symbol::UNIT || name.0 == NEVER
    ||| name.0 == INT || name.0 == UINT || name.0 == FLOAT || name.0 == RATIONAL
}

} // verus!
