use ponent::ast::{
    AnonConst, Attribute, Expr, FieldDef, GenericArg, Literal, Param, Stmt, Type, TypeDefinition,
    TypeModifier, TypeParam, VariantDef,
};
use ponent::list::List;
use ponent::resolver::builtins::Builtin;
use ponent::resolver::diag::{DiagKind, Diagnostic};
use ponent::resolver::resolve::{NameResolver, Resolution};
use ponent::resolver::syntax::{replace_ident_in_expr, resolve_self_in_type};
use ponent::resolver::table::{
    Endianness, Layout, SymbolTable, TraitBinding, TypeBinding, TypeKind, VariableBinding,
};
use ponent::symbol::{
    Interner, Span, Symbol, ALIGN, BIT_ORDER, BOOL, ENDIAN, INT, LAYOUT, LAYOUT_C, LITTLE, MAIN,
    PACKED, PAD, SELF_TYPE, SELF_VALUE, TRANSPARENT, UNIT,
};
use ponent::types::{AdtKind, CrateId, DefId, Edition, TypeContext, TypeData, TypeId};
use std::rc::Rc;

// ---------------------------------------------------------------------------
// Building programs
// ---------------------------------------------------------------------------

fn list<T>(items: Vec<T>) -> List<T> {
    List::from_vec(items)
}

fn sp(n: usize) -> Span {
    Span::new(n, n + 1)
}

fn named(n: Symbol) -> Rc<Type> {
    Rc::new(Type::Path(list(vec![n]), sp(3)))
}

fn number(n: u128) -> Rc<Expr> {
    Rc::new(Expr::Literal(Literal::Int(n), sp(4)))
}

/// `Int<32>`.
fn int32() -> Rc<Type> {
    Rc::new(Type::Generic(
        named(Symbol(INT)),
        list(vec![GenericArg::Const(AnonConst { value: number(32), span: sp(5) })]),
        sp(6),
    ))
}

fn param(n: Symbol, ty: Option<Rc<Type>>) -> Param {
    Param { name: n, ty, default: None, span: sp(7) }
}

fn function(
    n: Symbol,
    type_params: Vec<Symbol>,
    params: Vec<Param>,
    return_type: Option<Rc<Type>>,
    body: Vec<Stmt>,
) -> Stmt {
    Stmt::FunctionDef {
        span: sp(10),
        attributes: List::Nil,
        name: n,
        params: list(params),
        return_type,
        body: Some(list(body)),
        type_params: list(
            type_params.into_iter().map(|name| TypeParam { name, span: sp(8) }).collect(),
        ),
        is_comptime: false,
        is_async: false,
        contracts: List::Nil,
    }
}

fn give(e: Rc<Expr>) -> Stmt {
    Stmt::Return { value: Some(e) }
}

fn ident(n: Symbol) -> Rc<Expr> {
    Rc::new(Expr::Ident(n, sp(9)))
}

fn type_def(n: Symbol, params: Vec<Symbol>, attributes: Vec<Attribute>, d: TypeDefinition) -> Stmt {
    Stmt::TypeDef {
        span: sp(11),
        attributes: list(attributes),
        name: n,
        params: list(params.into_iter().map(|name| TypeParam { name, span: sp(8) }).collect()),
        definition: Rc::new(d),
    }
}

fn field(n: Symbol, ty: Rc<Type>) -> FieldDef {
    FieldDef { name: n, ty, default: None, span: sp(12) }
}

fn variant(n: Symbol, payload: Option<Rc<Type>>) -> VariantDef {
    VariantDef {
        name: n,
        payload,
        eq_spec: List::Nil,
        exists_params: List::Nil,
        span: sp(13),
    }
}

fn attribute(n: u32, args: Vec<Expr>) -> Attribute {
    Attribute { name: Symbol(n), args: list(args), span: sp(14) }
}

fn resolved(program: Vec<Stmt>) -> (Resolution, NameResolver) {
    let mut resolver = NameResolver::new(TypeContext::new(), CrateId(DefId(0)), Vec::new());
    let r = resolver.resolve_program(&list(program));
    (r, resolver)
}

fn kinds(r: &Resolution) -> Vec<&DiagKind> {
    r.diagnostics.to_refs().into_iter().rev().map(|d| &d.kind).collect()
}

fn accepted(program: Vec<Stmt>) -> Resolution {
    let (r, _) = resolved(program);
    assert!(r.diagnostics.is_empty(), "{:?}", kinds(&r));
    r
}

fn complaints(program: Vec<Stmt>, names: &Interner) -> Vec<String> {
    let (r, _) = resolved(program);
    let text = |d: &Diagnostic| d.message(names).unwrap_or_default();
    r.diagnostics.to_refs().into_iter().rev().map(text).collect()
}

// ---------------------------------------------------------------------------
// Programs
// ---------------------------------------------------------------------------

#[test]
fn test_resolve_empty_program() {
    accepted(vec![]);
}

#[test]
fn test_resolve_function_def() {
    let r = accepted(vec![function(
        Symbol(MAIN),
        vec![],
        vec![],
        Some(int32()),
        vec![give(number(0))],
    )]);
    assert!(r.symbols.lookup_function(Symbol(MAIN)).is_some(), "main should be registered");
    assert!(r.map.has_main);
}

#[test]
fn test_resolve_type_def_struct() {
    let mut names = Interner::new();
    let point = names.intern("Point".to_string());
    let x = names.intern("x".to_string());
    let y = names.intern("y".to_string());
    let r = accepted(vec![type_def(
        point,
        vec![],
        vec![],
        TypeDefinition::Struct(list(vec![field(x, int32()), field(y, int32())])),
    )]);
    let binding = r.symbols.lookup_type(point);
    assert!(binding.is_some(), "Point should be registered");
    if let Some(b) = binding {
        assert_eq!(b.fields.len(), 2, "Point should have 2 fields");
        assert_eq!(b.kind, TypeKind::Struct);
    }
}

#[test]
fn test_resolve_type_def_enum() {
    let mut names = Interner::new();
    let option = names.intern("MyOption".to_string());
    let t = names.intern("T".to_string());
    let none = names.intern("None".to_string());
    let some = names.intern("Some".to_string());
    let r = accepted(vec![type_def(
        option,
        vec![t],
        vec![],
        TypeDefinition::Enum(
            list(vec![variant(none, None), variant(some, Some(named(t)))]),
            None,
            List::Nil,
        ),
    )]);
    let binding = r.symbols.lookup_type(option);
    assert!(binding.is_some(), "MyOption should be registered");
    if let Some(b) = binding {
        assert_eq!(b.params.len(), 1, "MyOption should have 1 type param");
        assert_eq!(b.variants.len(), 2, "MyOption should have 2 variants");
    }
}

#[test]
fn test_resolve_type_alias() {
    let mut names = Interner::new();
    let my_int = names.intern("MyInt".to_string());
    let r = accepted(vec![type_def(
        my_int,
        vec![],
        vec![],
        TypeDefinition::Alias(int32(), List::Nil),
    )]);
    let binding = r.symbols.lookup_type(my_int);
    assert!(binding.is_some(), "MyInt should be registered");
    assert!(binding.unwrap().alias_ast.is_some(), "MyInt should have an alias AST");
}

#[test]
fn test_resolve_layout_alias() {
    let mut names = Interner::new();
    let mmio = names.intern("Mmio".to_string());
    let little_endian = names.intern("little_endian".to_string());
    accepted(vec![Stmt::LayoutDef {
        name: mmio,
        attributes: list(vec![
            attribute(PACKED, vec![]),
            attribute(little_endian.to_u32(), vec![]),
        ]),
    }]);
}

#[test]
fn test_resolve_transparent_attr() {
    let mut names = Interner::new();
    let wrapper = names.intern("Wrapper".to_string());
    let inner = names.intern("inner".to_string());
    let r = accepted(vec![type_def(
        wrapper,
        vec![],
        vec![attribute(TRANSPARENT, vec![])],
        TypeDefinition::Struct(list(vec![field(inner, int32())])),
    )]);
    let binding = r.symbols.lookup_type(wrapper);
    assert!(binding.unwrap().layout.transparent, "Wrapper should be transparent");
}

#[test]
fn test_resolve_layout_c_attr() {
    let mut names = Interner::new();
    let c_struct = names.intern("CStruct".to_string());
    let x = names.intern("x".to_string());
    let r = accepted(vec![type_def(
        c_struct,
        vec![],
        vec![attribute(LAYOUT, vec![Expr::Ident(Symbol(LAYOUT_C), sp(1))])],
        TypeDefinition::Struct(list(vec![field(x, int32())])),
    )]);
    let binding = r.symbols.lookup_type(c_struct);
    assert!(binding.unwrap().layout.c_layout, "CStruct should have c_layout");
}

#[test]
fn test_resolve_generic_function() {
    let mut names = Interner::new();
    let id = names.intern("id".to_string());
    let t = names.intern("T".to_string());
    let x = names.intern("x".to_string());
    let r = accepted(vec![function(
        id,
        vec![t],
        vec![param(x, Some(named(t)))],
        Some(named(t)),
        vec![give(ident(x))],
    )]);
    let func = r.symbols.lookup_function(id);
    assert!(func.is_some(), "id should be registered");
    assert!(
        !func.unwrap().signature.type_params.is_empty(),
        "id should have type params"
    );
}

#[test]
fn test_resolve_trait_and_impl() {
    let mut names = Interner::new();
    let show = names.intern("Show".to_string());
    accepted(vec![
        Stmt::TraitDef {
            span: sp(1),
            name: show,
            methods: List::Nil,
            associated_types: List::Nil,
            attributes: List::Nil,
        },
        Stmt::ImplBlock {
            span: sp(2),
            attributes: List::Nil,
            trait_path: Some(named(show)),
            for_type: int32(),
            methods: List::Nil,
            associated_types: List::Nil,
            type_params: List::Nil,
        },
    ]);
}

#[test]
fn test_resolve_duplicate_function() {
    let mut names = Interner::new();
    let f = names.intern("f".to_string());
    let (r, _) = resolved(vec![
        function(f, vec![], vec![], Some(int32()), vec![give(number(0))]),
        function(f, vec![], vec![], Some(int32()), vec![give(number(1))]),
    ]);
    assert!(!r.diagnostics.is_empty(), "duplicate function should error");
    assert!(kinds(&r).iter().any(|k| matches!(k, DiagKind::DuplicateFunction(n) if *n == f)));
}

// ---------------------------------------------------------------------------
// Names, types, diagnostics
// ---------------------------------------------------------------------------

#[test]
fn an_unknown_name_is_reported() {
    let mut names = Interner::new();
    let lost = names.intern("lost".to_string());
    let program = vec![function(
        Symbol(MAIN),
        vec![],
        vec![],
        Some(int32()),
        vec![give(ident(lost))],
    )];
    let texts = complaints(program, &names);
    assert_eq!(texts.len(), 1);
    assert!(texts[0].contains("lost"), "{:?}", texts);
}

#[test]
fn an_unknown_type_is_reported() {
    let mut names = Interner::new();
    let lost = names.intern("Lost".to_string());
    let (r, _) = resolved(vec![function(Symbol(MAIN), vec![], vec![], Some(named(lost)), vec![])]);
    assert!(kinds(&r).iter().any(|k| matches!(k, DiagKind::UndefinedType(_))), "{:?}", kinds(&r));
}

#[test]
fn a_repeated_type_is_reported() {
    let mut names = Interner::new();
    let t = names.intern("Pair".to_string());
    let unit = || type_def(t, vec![], vec![], TypeDefinition::Struct(List::Nil));
    let (r, _) = resolved(vec![unit(), unit()]);
    assert!(kinds(&r).iter().any(|k| matches!(k, DiagKind::DuplicateType(n) if *n == t)));
}

#[test]
fn variables_of_a_body_do_not_leave_it() {
    let mut names = Interner::new();
    let f = names.intern("f".to_string());
    let g = names.intern("g".to_string());
    let v = names.intern("v".to_string());
    let define = Stmt::VariableDef {
        mutable: false,
        name: Some(v),
        pattern: None,
        ty: Some(int32()),
        value: Some(number(1)),
        else_branch: None,
        span: sp(20),
        type_captures: List::Nil,
    };
    let (r, _) = resolved(vec![
        function(f, vec![], vec![], Some(int32()), vec![define, give(ident(v))]),
        function(g, vec![], vec![], Some(int32()), vec![give(ident(v))]),
    ]);
    let all = kinds(&r);
    assert_eq!(all.len(), 1, "{:?}", all);
    assert!(matches!(all[0], DiagKind::UndefinedName(n) if *n == v));
    assert!(r.symbols.lookup_variable(v).is_none());
}

#[test]
fn inner_variables_hide_outer_ones() {
    let mut table = SymbolTable::new(CrateId(DefId(0)));
    let x = Symbol(1000);
    let at = |ty: usize, n: usize| VariableBinding {
        ty: TypeId(ty),
        mutable: false,
        span: sp(n),
        def_id: DefId(n as u64),
    };
    assert!(table.insert_variable(x, at(7, 1), sp(1)).is_none());
    table.push_scope();
    assert_eq!(table.lookup_variable(x), Some(at(7, 1)));
    assert!(table.insert_variable(x, at(8, 2), sp(2)).is_none());
    assert_eq!(table.lookup_variable(x), Some(at(8, 2)));
    let clash = table.insert_variable(x, at(9, 3), sp(3)).unwrap();
    assert!(matches!(clash.kind, DiagKind::DuplicateVariable(n) if n == x));
    assert_eq!(clash.span, Some(sp(3)));
    assert_eq!(table.lookup_variable(x), Some(at(8, 2)));
    table.pop_scope();
    assert_eq!(table.lookup_variable(x), Some(at(7, 1)));
}

#[test]
fn the_types_of_a_signature_are_resolved() {
    let mut names = Interner::new();
    let f = names.intern("f".to_string());
    let x = names.intern("x".to_string());
    let reference = Rc::new(Type::Reference {
        inner: int32(),
        mutable: true,
        lifetime: None,
        span: sp(30),
    });
    let (r, resolver) = resolved(vec![function(
        f,
        vec![],
        vec![param(x, Some(reference))],
        Some(int32()),
        vec![give(number(0))],
    )]);
    let signature = &r.symbols.lookup_function(f).unwrap().signature;
    let data = |t: TypeId| resolver.context().get(t).unwrap();
    match data(signature.return_type) {
        TypeData::Int { bits, signed } => assert_eq!((*bits, *signed), (32, true)),
        other => panic!("an integer, got {:?}", other),
    }
    let first = match &signature.params {
        List::Cons(link) => link.head.ty,
        List::Nil => panic!("one parameter"),
    };
    match data(first) {
        TypeData::Ref { ty, mutable, lifetime } => {
            assert!(*mutable && lifetime.is_none());
            assert!(matches!(data(*ty), TypeData::Int { .. }));
        }
        other => panic!("a reference, got {:?}", other),
    }
}

#[test]
fn a_struct_is_a_type_of_its_fields() {
    let mut names = Interner::new();
    let point = names.intern("Point".to_string());
    let x = names.intern("x".to_string());
    let f = names.intern("f".to_string());
    let (r, resolver) = resolved(vec![
        type_def(
            point,
            vec![],
            vec![],
            TypeDefinition::Struct(list(vec![field(x, int32())])),
        ),
        function(f, vec![], vec![], Some(named(point)), vec![]),
    ]);
    assert!(r.diagnostics.is_empty(), "{:?}", kinds(&r));
    let d = r.symbols.lookup_type(point).unwrap().def_id;
    let t = r.symbols.lookup_function(f).unwrap().signature.return_type;
    match resolver.context().get(t).unwrap() {
        TypeData::Adt { kind, def_id, .. } => {
            assert_eq!(*kind, AdtKind::Struct);
            assert_eq!(*def_id, d);
        }
        other => panic!("the struct, got {:?}", other),
    }
    assert_eq!(resolver.context().adt_def(d).unwrap().fields.len(), 1);
}

#[test]
fn layouts_read_their_arguments() {
    let mut names = Interner::new();
    let t = names.intern("Word".to_string());
    let r = accepted(vec![type_def(
        t,
        vec![],
        vec![
            attribute(PACKED, vec![]),
            attribute(ENDIAN, vec![Expr::Ident(Symbol(LITTLE), sp(1))]),
        ],
        TypeDefinition::Struct(List::Nil),
    )]);
    let layout = &r.symbols.lookup_type(t).unwrap().layout;
    assert!(layout.packed);
    assert_eq!(layout.endian, Some(Endianness::Little));

    let wrong = vec![type_def(
        t,
        vec![],
        vec![attribute(ENDIAN, vec![Expr::Ident(t, sp(1))])],
        TypeDefinition::Struct(List::Nil),
    )];
    assert_eq!(complaints(wrong, &names), vec!["`@endian` expects `little` or `big`, got `Word`"]);
    let missing = vec![type_def(
        t,
        vec![],
        vec![attribute(ENDIAN, vec![])],
        TypeDefinition::Struct(List::Nil),
    )];
    assert_eq!(complaints(missing, &names), vec!["`@endian` requires an argument"]);
}

#[test]
fn editions_are_known_by_name() {
    let (r, resolver) = resolved(vec![Stmt::Edition(Rc::new("2026".to_string()), sp(1))]);
    assert!(r.diagnostics.is_empty());
    assert_eq!(resolver.context().edition, Some(Edition::E2026));
    let (r, _) = resolved(vec![Stmt::Edition(Rc::new("1999".to_string()), sp(1))]);
    assert!(matches!(kinds(&r)[0], DiagKind::UnknownEdition(_)));
    assert_eq!(Edition::from_str(&"2024".to_string()), Some(Edition::E2024));
    assert_eq!(Edition::from_str(&"2025".to_string()), None);
}

#[test]
fn methods_know_their_type_as_self() {
    let mut names = Interner::new();
    let point = names.intern("Point".to_string());
    let get = names.intern("get".to_string());
    let program = |method: ponent::ast::ImplMethod| {
        vec![
            type_def(point, vec![], vec![], TypeDefinition::Struct(List::Nil)),
            Stmt::ImplBlock {
                span: sp(40),
                attributes: List::Nil,
                trait_path: None,
                for_type: named(point),
                methods: list(vec![method]),
                associated_types: List::Nil,
                type_params: List::Nil,
            },
        ]
    };
    let r = accepted(program(ponent::ast::ImplMethod {
        name: get,
        params: list(vec![param(Symbol(SELF_VALUE), Some(named(Symbol(SELF_TYPE))))]),
        return_type: named(Symbol(SELF_TYPE)),
        attributes: List::Nil,
        span: sp(41),
    }));
    assert!(r.symbols.lookup_type(point).is_some());
}

#[test]
fn self_is_replaced_in_the_parts_of_a_type() {
    let mut names = Interner::new();
    let point = names.intern("Point".to_string());
    let life = names.intern("a".to_string());
    let build = |inner: Rc<Type>, lifetime: Option<Symbol>| {
        Type::Function {
            params: list(vec![
                Type::Reference { inner: inner.clone(), mutable: true, lifetime, span: sp(20) },
                Type::Generic(
                    named(point),
                    list(vec![
                        GenericArg::Positional(inner.clone()),
                        GenericArg::Const(AnonConst { value: number(3), span: sp(21) }),
                    ]),
                    sp(22),
                ),
            ]),
            ret: Rc::new(Type::Tuple(list(vec![Type::Slice(inner, sp(23))]), sp(24))),
            span: sp(25),
        }
    };
    let before = build(named(Symbol(SELF_TYPE)), Some(life));
    let after = resolve_self_in_type(&before, &named(point));
    assert_eq!(format!("{:?}", after), format!("{:?}", build(named(point), Some(life))));
    let again = resolve_self_in_type(&after, &int32());
    assert_eq!(format!("{:?}", again), format!("{:?}", after));
}

#[test]
fn conditions_name_their_value_after_their_place() {
    let mut names = Interner::new();
    let t = names.intern("T".to_string());
    let value = names.intern("value".to_string());
    let ty = Type::where_shorthand(int32(), ident(value), Span::new(120, 130), &mut names);
    let fresh = match &ty {
        Type::WhereShorthand { fresh, .. } => *fresh,
        _ => unreachable!(),
    };
    assert_eq!(names.text(fresh).unwrap(), "_where_120");
    let again = Type::where_shorthand(int32(), ident(value), Span::new(120, 140), &mut names);
    assert!(matches!(again, Type::WhereShorthand { fresh: f, .. } if f == fresh));
    let (r, resolver) = resolved(vec![function(
        t,
        vec![],
        vec![param(value, Some(Rc::new(ty)))],
        Some(int32()),
        vec![give(number(0))],
    )]);
    assert!(r.diagnostics.is_empty());
    let mut found = false;
    for i in 0..resolver.context().types.len() {
        if let TypeData::Exists { name, condition, .. } = &resolver.context().types[i] {
            found |= *name == fresh && matches!(&**condition, Expr::Ident(n, _) if *n == fresh);
        }
    }
    assert!(found);
}

#[test]
fn names_are_replaced_in_operands() {
    let mut names = Interner::new();
    let x = names.intern("x".to_string());
    let y = names.intern("y".to_string());
    let z = names.intern("z".to_string());
    let build = |n: Symbol| Expr::BinaryOp {
        left: ident(n),
        right: Rc::new(Expr::Call {
            callee: ident(z),
            args: list(vec![Expr::Ident(n, sp(30)), Expr::Literal(Literal::Int(4), sp(31))]),
        }),
    };
    let shown = |e: &Expr| format!("{:?}", e);
    assert_eq!(shown(&replace_ident_in_expr(&build(x), x, y)), shown(&build(y)));
    assert_eq!(shown(&replace_ident_in_expr(&build(x), y, z)), shown(&build(x)));
    assert_eq!(shown(&replace_ident_in_expr(&build(x), x, x)), shown(&build(x)));
}

#[test]
fn more_items_are_added_to_what_is_known() {
    let mut names = Interner::new();
    let f = names.intern("f".to_string());
    let g = names.intern("g".to_string());
    let mut resolver = NameResolver::new(TypeContext::new(), CrateId(DefId(0)), Vec::new());
    let first = resolver.resolve_program(&list(vec![function(
        f,
        vec![],
        vec![],
        Some(int32()),
        vec![give(number(0))],
    )]));
    let second = resolver.resolve_incremental(
        &list(vec![function(g, vec![], vec![], Some(int32()), vec![give(ident(f))])]),
        first.symbols,
        first.map,
    );
    assert!(second.diagnostics.is_empty(), "{:?}", kinds(&second));
    assert!(second.symbols.lookup_function(f).is_some());
    assert!(second.symbols.lookup_function(g).is_some());
}

#[test]
fn further_functions_may_refer_to_each_other() {
    let mut names = Interner::new();
    let f = names.intern("f".to_string());
    let g = names.intern("g".to_string());
    let pair = || {
        list(vec![
            function(f, vec![], vec![], Some(int32()), vec![give(ident(g))]),
            function(g, vec![], vec![], Some(int32()), vec![give(ident(f))]),
        ])
    };
    let mut resolver = NameResolver::new(TypeContext::new(), CrateId(DefId(0)), Vec::new());
    let first = resolver.resolve_program(&List::Nil);
    let second = resolver.resolve_incremental(&pair(), first.symbols, first.map);
    assert!(second.diagnostics.is_empty(), "{:?}", kinds(&second));
    let mut other = NameResolver::new(TypeContext::new(), CrateId(DefId(0)), Vec::new());
    let in_order = other.resolve_program(&pair());
    assert_eq!(kinds(&in_order).len(), 1);
    assert!(matches!(kinds(&in_order)[0], DiagKind::UndefinedName(n) if *n == g));
}

/// A built-in type and a built-in trait.
fn builtins(ty: Symbol, tr: Symbol) -> Vec<Builtin> {
    vec![
        Builtin::Type(
            ty,
            TypeBinding {
                def_id: DefId(0),
                params: List::Nil,
                kind: TypeKind::Struct,
                span: sp(0),
                alias_ast: None,
                attributes: List::Nil,
                fields: List::Nil,
                variants: List::Nil,
                default_value: None,
                no_default: false,
                crate_id: CrateId(DefId(0)),
                missing_match: None,
                exhaustive: true,
                layout: Layout {
                    c_layout: false,
                    transparent: false,
                    packed: false,
                    endian: None,
                    bit_order: None,
                    align: None,
                    pad: None,
                    expanded: List::Nil,
                },
            },
        ),
        Builtin::Trait(
            tr,
            TraitBinding {
                def_id: DefId(0),
                methods: List::Nil,
                associated_types: List::Nil,
                span: sp(0),
                attributes: List::Nil,
                crate_id: CrateId(DefId(0)),
            },
        ),
    ]
}

#[test]
fn built_in_items_are_known_from_the_start() {
    let mut names = Interner::new();
    let held = names.intern("Held".to_string());
    let dropped = names.intern("Dropped".to_string());
    let f = names.intern("f".to_string());
    let x = names.intern("x".to_string());
    let program = || {
        list(vec![function(
            f,
            vec![],
            vec![param(x, Some(named(held)))],
            Some(int32()),
            vec![give(number(0))],
        )])
    };
    let mut bare = NameResolver::new(TypeContext::new(), CrateId(DefId(0)), Vec::new());
    let r = bare.resolve_program(&program());
    assert!(!r.diagnostics.is_empty());
    let mut resolver =
        NameResolver::new(TypeContext::new(), CrateId(DefId(0)), builtins(held, dropped));
    let r = resolver.resolve_program(&program());
    assert!(r.diagnostics.is_empty(), "{:?}", kinds(&r));
    let ty = r.symbols.lookup_type(held).unwrap().def_id;
    let tr = r.symbols.lookup_trait(dropped).unwrap().def_id;
    assert_eq!(tr.0, ty.0 + 1);
    assert!(r.symbols.lookup_type_by_def_id(ty).is_some());
    assert!(r.symbols.lookup_trait_by_def_id(tr).is_some());
}

#[test]
fn contradictions_are_spelled_out() {
    let mut names = Interner::new();
    let t = names.intern("T".to_string());
    let text = Diagnostic::contradiction(&names, t, "Int<32>", "Bool");
    assert!(text.contains("`T"), "{}", text);
    assert!(text.contains("Int<32>") && text.contains("Bool"), "{}", text);
}

fn only(program: Vec<Stmt>, names: &Interner) -> (String, Option<&'static str>) {
    let (r, _) = resolved(program);
    let all = r.diagnostics.to_refs();
    assert_eq!(all.len(), 1, "{:?}", all);
    (all[0].message(names).unwrap_or_default(), all[0].code())
}

fn enum_of(n: Symbol, params: Vec<Symbol>, v: VariantDef, mods: Vec<TypeModifier>) -> Stmt {
    type_def(n, params, vec![], TypeDefinition::Enum(list(vec![v]), None, list(mods)))
}

#[test]
fn when_constraints_are_checked() {
    let mut names = Interner::new();
    let e = names.intern("E".to_string());
    let a = names.intern("A".to_string());
    let t = names.intern("T".to_string());
    let u = names.intern("U".to_string());
    let when = |eqs: Vec<(Symbol, Rc<Type>)>, exists: Vec<Symbol>| VariantDef {
        eq_spec: list(eqs),
        exists_params: list(exists),
        ..variant(a, None)
    };
    let unknown = enum_of(e, vec![t], when(vec![(u, int32())], vec![]), vec![]);
    assert_eq!(
        only(vec![unknown], &names),
        ("unknown type parameter `U` in GADT `when` constraint".to_string(), Some("E062"))
    );
    let cyclic = enum_of(e, vec![t, u], when(vec![(t, named(u))], vec![]), vec![]);
    assert_eq!(
        only(vec![cyclic], &names),
        (
            "GADT `when` constraint right-hand side references type parameter `U` of the same enum"
                .to_string(),
            Some("E064")
        )
    );
    let shadow = enum_of(e, vec![t], when(vec![], vec![t]), vec![]);
    assert_eq!(
        only(vec![shadow], &names),
        ("`exists T` shadows enum type parameter `T`".to_string(), Some("E063"))
    );
    let with_default = enum_of(
        e,
        vec![t],
        when(vec![(t, int32())], vec![]),
        vec![TypeModifier::Default(number(0))],
    );
    assert_eq!(only(vec![with_default], &names).1, Some("E061"));
    let fine = enum_of(e, vec![t], when(vec![(t, int32())], vec![u]), vec![]);
    accepted(vec![fine]);
}

#[test]
fn contradictory_constraints_are_reported() {
    let mut names = Interner::new();
    let e = names.intern("E".to_string());
    let a = names.intern("A".to_string());
    let t = names.intern("T".to_string());
    let both = |x: Rc<Type>, y: Rc<Type>| {
        let v = VariantDef { eq_spec: list(vec![(t, x), (t, y)]), ..variant(a, None) };
        resolved(vec![enum_of(e, vec![t], v, vec![])]).0
    };
    let r = both(int32(), named(Symbol(BOOL)));
    assert!(
        matches!(kinds(&r)[..], [DiagKind::Contradictory(n, _, _)] if *n == t),
        "{:?}",
        kinds(&r)
    );
    assert!(both(int32(), int32()).diagnostics.is_empty());
}

#[test]
fn layout_arguments_are_checked() {
    let mut names = Interner::new();
    let w = names.intern("W".to_string());
    let with = |attribute: Attribute| {
        vec![type_def(w, vec![], vec![attribute], TypeDefinition::Struct(List::Nil))]
    };
    let text = |attribute: Attribute| only(with(attribute), &names).0;
    let seven = || Expr::Literal(Literal::Int(7), sp(1));
    assert_eq!(
        text(attribute(ENDIAN, vec![seven()])),
        "`@endian` requires an identifier argument (`little` or `big`)"
    );
    assert_eq!(
        text(attribute(BIT_ORDER, vec![Expr::Ident(w, sp(1))])),
        "`@bit_order` expects `lsb_to_msb` or `msb_to_lsb`, got `W`"
    );
    assert_eq!(
        text(attribute(BIT_ORDER, vec![seven()])),
        "`@bit_order` requires an identifier argument"
    );
    assert_eq!(text(attribute(BIT_ORDER, vec![])), "`@bit_order` requires an argument");
    assert_eq!(text(attribute(ALIGN, vec![])), "`@align` requires an integer argument");
    assert_eq!(
        text(attribute(PAD, vec![Expr::Ident(w, sp(1))])),
        "`@pad` requires an integer argument"
    );
    let r = accepted(with(attribute(ALIGN, vec![seven()])));
    assert_eq!(r.symbols.lookup_type(w).unwrap().layout.align, Some(7));
}

#[test]
fn layout_aliases_are_defined_once() {
    let mut names = Interner::new();
    let m = names.intern("Mmio".to_string());
    let w = names.intern("W".to_string());
    let alias = || Stmt::LayoutDef { name: m, attributes: list(vec![attribute(PACKED, vec![])]) };
    assert_eq!(only(vec![alias(), alias()], &names).0, "duplicate layout alias `Mmio`");
    let r = accepted(vec![
        alias(),
        type_def(
            w,
            vec![],
            vec![attribute(LAYOUT, vec![Expr::Ident(m, sp(1))])],
            TypeDefinition::Struct(List::Nil),
        ),
    ]);
    let expanded = r.symbols.lookup_type(w).unwrap().layout.expanded.to_refs().len();
    assert_eq!(expanded, 2);
}

#[test]
fn types_are_checked() {
    let mut names = Interner::new();
    let f = names.intern("f".to_string());
    let alias = names.intern("Alias".to_string());
    let show = names.intern("Show".to_string());
    let of = |t: Type| vec![function(f, vec![], vec![], Some(Rc::new(t)), vec![])];
    assert_eq!(
        only(of(Type::Path(list(vec![Symbol(UNIT)]), sp(1))), &names),
        ("use `()` instead of `Unit`".to_string(), Some("E031"))
    );
    assert_eq!(
        only(of(Type::Array(int32(), ident(f), sp(1))), &names).0,
        "array size must be a compile-time constant integer"
    );
    let lost = Type::Path(list(vec![show, alias]), sp(1));
    assert_eq!(only(of(lost), &names).0, "undefined type: Show::Alias");
    let applied = Type::Generic(
        Rc::new(Type::Tuple(List::Nil, sp(1))),
        list(vec![GenericArg::Positional(int32())]),
        sp(1),
    );
    assert_eq!(only(of(applied), &names).0, "expected a path type for generic base");
}

#[test]
fn statements_have_their_place() {
    let mut names = Interner::new();
    let f = names.intern("f".to_string());
    let v = names.intern("v".to_string());
    let define = |value: Option<Rc<Expr>>| Stmt::VariableDef {
        mutable: false,
        name: Some(v),
        pattern: None,
        ty: None,
        value,
        else_branch: None,
        span: sp(20),
        type_captures: List::Nil,
    };
    assert!(only(vec![define(Some(number(1)))], &names).0.starts_with("`set` and `let` statements"));
    let body = |stmts: Vec<Stmt>| vec![function(f, vec![], vec![], Some(int32()), stmts)];
    assert_eq!(
        only(body(vec![define(None)]), &names).0,
        "cannot infer type without initializer"
    );
    let (r, _) = resolved(body(vec![define(Some(number(1))), define(Some(number(2)))]));
    assert!(matches!(kinds(&r)[..], [DiagKind::DuplicateVariable(n)] if *n == v));
    let path = Rc::new(Expr::Path(list(vec![f, v])));
    assert_eq!(only(body(vec![give(path)]), &names).0, "unresolved path: f::v");
}

#[test]
fn traits_and_constraints_are_defined_once() {
    let mut names = Interner::new();
    let show = names.intern("Show".to_string());
    let one_trait = || Stmt::TraitDef {
        span: sp(1),
        name: show,
        methods: List::Nil,
        associated_types: List::Nil,
        attributes: List::Nil,
    };
    let (r, _) = resolved(vec![one_trait(), one_trait()]);
    assert!(matches!(kinds(&r)[..], [DiagKind::DuplicateTrait(n)] if *n == show));
    let constraint = || Stmt::Constraint {
        name: show,
        params: List::Nil,
        predicates: List::Nil,
        span: sp(1),
    };
    let (r, _) = resolved(vec![constraint(), constraint()]);
    assert!(matches!(kinds(&r)[..], [DiagKind::DuplicateConstraint(n)] if *n == show));
}

#[test]
fn imports_name_what_is_there() {
    let mut names = Interner::new();
    let point = names.intern("Point".to_string());
    let spot = names.intern("Spot".to_string());
    let lost = names.intern("lost".to_string());
    let import = |path: Vec<Symbol>, alias: Option<Symbol>| Stmt::Import {
        path: list(path),
        items: None,
        alias,
        span: sp(1),
    };
    assert_eq!(
        only(vec![import(vec![spot, lost], None)], &names).0,
        "cannot resolve import `Spot::lost`"
    );
    let r = accepted(vec![
        type_def(point, vec![], vec![], TypeDefinition::Struct(List::Nil)),
        import(vec![point], Some(spot)),
    ]);
    let d = r.symbols.lookup_type(point).unwrap().def_id;
    assert_eq!(r.symbols.lookup_type(spot).unwrap().def_id, d);
}

#[test]
fn diagnostics_suggest() {
    let mut names = Interner::new();
    let t = names.intern("T".to_string());
    let d = Diagnostic { kind: DiagKind::ExistsShadows(t), span: None };
    assert_eq!(d.help(&names).unwrap(), "rename the `exists` variable or the type parameter");
    assert_eq!(d.suggestion(&names), None);
    let d = Diagnostic { kind: DiagKind::NeedsInteger(Symbol(ALIGN), false), span: None };
    assert_eq!(d.suggestion(&names).unwrap(), "write `@align(128)`");
    let d = Diagnostic { kind: DiagKind::UnknownWhenParam(t, list(vec![t, t])), span: None };
    assert!(d.help(&names).unwrap().ends_with("use one of: T, T"));
}

// ---------------------------------------------------------------------------
// Texts and names
// ---------------------------------------------------------------------------

#[test]
fn names_are_stored_once() {
    let mut names = Interner::new();
    let a = names.intern("alpha".to_string());
    let b = names.intern("beta".to_string());
    assert_ne!(a, b);
    assert_eq!(names.intern("alpha".to_string()), a);
    assert_eq!(names.text(a).unwrap().as_str(), "alpha");
    assert_eq!(names.text(Symbol(100_000)), None);
    assert_eq!(names.intern("main".to_string()), Symbol(MAIN));
}

#[test]
fn numbers_are_spelled_in_decimal() {
    let mut text = String::new();
    ponent::text::push_decimal(&mut text, 0);
    text.push(' ');
    ponent::text::push_decimal(&mut text, 18_446_744_073_709_551_615);
    assert_eq!(text, "0 18446744073709551615");
}

#[test]
fn lists_share_their_tails() {
    let short = list(vec![2u64, 3]);
    let long = short.clone().push(1);
    assert_eq!(short.len(), 2);
    assert_eq!(long.len(), 3);
    match (&long, &short) {
        (List::Cons(l), List::Cons(s)) => match &l.tail {
            List::Cons(t) => assert!(Rc::ptr_eq(t, s)),
            List::Nil => panic!("the tail is the short list"),
        },
        _ => panic!("neither is empty"),
    }
}
