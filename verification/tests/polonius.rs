use ponent::ast;
use ponent::hir::{hir_expr_place, HirExpr, HirStmt, UnaryOp};
use ponent::list::List;
use ponent::place::{place_is_prefix_of, place_root_var, FrozenPlace};
use ponent::polonius::calls::{call_site_facts, extract_cross_function};
use ponent::polonius::csv::{error_count, facts_csv, polonius_inputs};
use ponent::polonius::errors::{borrow_check_function, rules_to_borrow_errors, BorrowError};
use ponent::polonius::extract::{collect_method_receiver_places, extract_facts};
use ponent::polonius::facts::PoloniusFacts;
use ponent::polonius::input::{
    Block, BorrowData, CalleeEntry, CfgGraph, Kill, LoanInfo, LoanKind, LoanSite, PointLiveness,
    SignatureFacts,
};
use ponent::polonius::outputs::{
    dangling_return_spans, derive_output_origins, extract_borrow_signature,
};
use ponent::polonius::point::{point_id, same_stmt_number, BlockId, Point, PointOverflow};
use ponent::polonius::rules::{
    evaluate_drop_errors, evaluate_rules, evaluate_subset_errors, loan_live_at,
};
use ponent::polonius::signature::{
    count_return_refs, count_return_refs_ast, signature_facts, BorrowSignature,
};
use ponent::symbol::{Interner, Span, Symbol, REGION};
use ponent::types::{AdtDef, AdtKind, DefId, TypeContext, TypeData};
use std::rc::Rc;

const A: Symbol = Symbol(100);
const B: Symbol = Symbol(101);
const R: Symbol = Symbol(102);
const R2: Symbol = Symbol(103);
const S: Symbol = Symbol(104);
const X: Symbol = Symbol(105);
const Y: Symbol = Symbol(106);
const ARR: Symbol = Symbol(107);
const OBJ: Symbol = Symbol(108);
const PUT: Symbol = Symbol(109);
const GET: Symbol = Symbol(110);
const RET: Symbol = Symbol(111);
const V: Symbol = Symbol(112);
const LIFE: Symbol = Symbol(113);

// ---------------------------------------------------------------------------
// Building functions
// ---------------------------------------------------------------------------

fn name(s: Symbol) -> HirExpr {
    HirExpr::Ident(s)
}

fn unary(op: UnaryOp, e: HirExpr) -> HirExpr {
    HirExpr::UnaryOp { op, expr: Box::new(e) }
}

fn deref(e: HirExpr) -> HirExpr {
    unary(UnaryOp::Deref, e)
}

fn index(e: HirExpr, i: u64) -> HirExpr {
    HirExpr::Index { base: Box::new(e), index: Box::new(HirExpr::Int(i)) }
}

fn call(f: Symbol, args: Vec<HirExpr>) -> HirExpr {
    HirExpr::Call { callee: Box::new(name(f)), args }
}

fn def(s: Symbol, e: HirExpr) -> HirStmt {
    HirStmt::VariableDef { name: Some(s), value: Some(e) }
}

fn assign(target: HirExpr, value: HirExpr) -> HirStmt {
    HirStmt::Assign { target, value }
}

fn ret(e: HirExpr) -> HirStmt {
    HirStmt::Return { value: Some(e), span: Span::new(90, 95) }
}

fn pt(stmt: usize) -> Point {
    Point { block: BlockId(0), stmt, expr: 0 }
}

fn at(stmt: usize) -> Span {
    Span::new(10 * stmt + 1, 10 * stmt + 5)
}

fn root(s: Symbol) -> FrozenPlace {
    FrozenPlace::Root(s)
}

fn through(s: Symbol) -> FrozenPlace {
    FrozenPlace::Deref(Box::new(root(s)))
}

fn borrow(place: FrozenPlace, var: Option<Symbol>, stmt: usize) -> LoanSite {
    LoanSite { place, var, kind: LoanKind::Exclusive, point: pt(stmt), span: at(stmt) }
}

/// A function body of one block and what is known of it.
struct Program {
    cfg: CfgGraph,
    body: Vec<HirStmt>,
    live: PointLiveness,
    data: BorrowData,
}

fn straight(
    body: fn() -> Vec<HirStmt>,
    uses: Vec<Vec<Symbol>>,
    loans: Vec<LoanSite>,
    accesses: Vec<(FrozenPlace, usize, bool)>,
    kills: Vec<Kill>,
) -> Program {
    Program {
        cfg: CfgGraph { blocks: vec![Block { stmts: body(), succs: vec![] }] },
        body: body(),
        live: PointLiveness { var_uses: vec![uses] },
        data: BorrowData {
            loans,
            events: accesses.into_iter().map(|(p, s, read)| (p, pt(s), read, at(s))).collect(),
            kills,
            counts: vec![],
        },
    }
}

/// `a = 42; r = &mut a; x = *r; a = 5; return x;`
fn ended_before_write() -> Program {
    straight(
        || {
            vec![
                def(A, HirExpr::Int(42)),
                def(R, unary(UnaryOp::RefMut, name(A))),
                def(X, deref(name(R))),
                assign(name(A), HirExpr::Int(5)),
                ret(name(X)),
            ]
        },
        vec![vec![], vec![A], vec![R], vec![], vec![X]],
        vec![borrow(root(A), Some(R), 1)],
        vec![(through(R), 2, true), (root(A), 3, false), (root(X), 4, true)],
        vec![Kill { place: root(A), var: None, point: pt(3) }],
    )
}

/// `a = 42; r = &mut a; return *r;`
fn plain_through_borrow() -> Program {
    straight(
        || {
            vec![
                def(A, HirExpr::Int(42)),
                def(R, unary(UnaryOp::RefMut, name(A))),
                ret(deref(name(R))),
            ]
        },
        vec![vec![], vec![A], vec![R]],
        vec![borrow(root(A), Some(R), 1)],
        vec![(through(R), 2, true)],
        vec![],
    )
}

/// `a = 42; while a > 0 { a = a - 1; } return a;`
fn loop_without_borrows() -> Program {
    let stmts = || {
        vec![
            def(A, HirExpr::Int(42)),
            HirStmt::While { body: vec![assign(name(A), HirExpr::Other)] },
            ret(name(A)),
        ]
    };
    Program {
        cfg: CfgGraph {
            blocks: vec![
                Block { stmts: vec![def(A, HirExpr::Int(42))], succs: vec![BlockId(1)] },
                Block {
                    stmts: vec![HirStmt::Expression(name(A))],
                    succs: vec![BlockId(2), BlockId(3)],
                },
                Block { stmts: vec![assign(name(A), HirExpr::Other)], succs: vec![BlockId(1)] },
                Block { stmts: vec![ret(name(A))], succs: vec![] },
            ],
        },
        body: stmts(),
        live: PointLiveness { var_uses: vec![vec![vec![]], vec![vec![A]], vec![vec![A]], vec![vec![A]]] },
        data: BorrowData {
            loans: vec![],
            events: vec![(
                root(A),
                Point { block: BlockId(2), stmt: 0, expr: 0 },
                false,
                Span::new(20, 25),
            )],
            kills: vec![],
            counts: vec![],
        },
    }
}

/// `a = 42; r = &mut a; a = 5; return *r;`
fn write_while_borrowed() -> Program {
    straight(
        || {
            vec![
                def(A, HirExpr::Int(42)),
                def(R, unary(UnaryOp::RefMut, name(A))),
                assign(name(A), HirExpr::Int(5)),
                ret(deref(name(R))),
            ]
        },
        vec![vec![], vec![A], vec![], vec![R]],
        vec![borrow(root(A), Some(R), 1)],
        vec![(root(A), 2, false), (through(R), 3, true)],
        vec![Kill { place: root(A), var: None, point: pt(2) }],
    )
}

/// `a = 42; r = &mut a; x = a; *r = x; return x;`
fn read_while_borrowed() -> Program {
    straight(
        || {
            vec![
                def(A, HirExpr::Int(42)),
                def(R, unary(UnaryOp::RefMut, name(A))),
                def(X, name(A)),
                assign(deref(name(R)), name(X)),
                ret(name(X)),
            ]
        },
        vec![vec![], vec![A], vec![A], vec![R, X], vec![X]],
        vec![borrow(root(A), Some(R), 1)],
        vec![(root(A), 2, true), (through(R), 3, false), (root(X), 4, true)],
        vec![],
    )
}

/// `a = 42; r = &mut a; s = &mut a; *s = 1; return *r;`
fn two_exclusive_borrows() -> Program {
    straight(
        || {
            vec![
                def(A, HirExpr::Int(42)),
                def(R, unary(UnaryOp::RefMut, name(A))),
                def(S, unary(UnaryOp::RefMut, name(A))),
                assign(deref(name(S)), HirExpr::Int(1)),
                ret(deref(name(R))),
            ]
        },
        vec![vec![], vec![A], vec![A], vec![S], vec![R]],
        vec![borrow(root(A), Some(R), 1), borrow(root(A), Some(S), 2)],
        vec![(through(S), 3, false), (through(R), 4, true)],
        vec![],
    )
}

/// `arr = [1, 2, 3]; r = &mut arr[1]; arr = [4, 5, 6]; *r = 7; return 0;`
fn whole_overwritten_under_part() -> Program {
    straight(
        || {
            vec![
                def(ARR, HirExpr::Array(vec![HirExpr::Int(1), HirExpr::Int(2), HirExpr::Int(3)])),
                def(R, unary(UnaryOp::RefMut, index(name(ARR), 1))),
                assign(
                    name(ARR),
                    HirExpr::Array(vec![HirExpr::Int(4), HirExpr::Int(5), HirExpr::Int(6)]),
                ),
                assign(deref(name(R)), HirExpr::Int(7)),
                ret(HirExpr::Int(0)),
            ]
        },
        vec![vec![], vec![ARR], vec![], vec![R], vec![]],
        vec![borrow(FrozenPlace::ConstIndex(Box::new(root(ARR)), 1), Some(R), 1)],
        vec![(root(ARR), 2, false), (through(R), 3, false)],
        vec![Kill { place: root(ARR), var: None, point: pt(2) }],
    )
}

/// `a = 1; b = 2; r = &mut a; r2 = &mut b; r = r2; a = 5; *r = 9; return a;`
fn reborrowed() -> Program {
    straight(
        || {
            vec![
                def(A, HirExpr::Int(1)),
                def(B, HirExpr::Int(2)),
                def(R, unary(UnaryOp::RefMut, name(A))),
                def(R2, unary(UnaryOp::RefMut, name(B))),
                assign(name(R), name(R2)),
                assign(name(A), HirExpr::Int(5)),
                assign(deref(name(R)), HirExpr::Int(9)),
                ret(name(A)),
            ]
        },
        vec![vec![], vec![], vec![A], vec![B], vec![R2], vec![], vec![R], vec![A]],
        vec![borrow(root(A), Some(R), 2), borrow(root(B), Some(R2), 3)],
        vec![(root(A), 5, false), (through(R), 6, false), (root(A), 7, true)],
        vec![
            Kill { place: root(R), var: Some(R), point: pt(4) },
            Kill { place: root(A), var: None, point: pt(5) },
        ],
    )
}

fn get_entry() -> CalleeEntry {
    let sig = signature_facts(
        &BorrowSignature {
            input_borrows: vec![(X, false)],
            input_lifetimes: vec![None],
            output_borrows: vec![RET],
        },
        &vec![0],
    );
    CalleeEntry { name: GET, is_method: false, positions: vec![0], signature: sig }
}

/// `a = 42; r = get(&mut a); *r = 10; return *r;`
fn call_that_returns_its_argument() -> Program {
    straight(
        || {
            vec![
                def(A, HirExpr::Int(42)),
                def(R, call(GET, vec![unary(UnaryOp::RefMut, name(A))])),
                assign(deref(name(R)), HirExpr::Int(10)),
                ret(deref(name(R))),
            ]
        },
        vec![vec![], vec![A], vec![R], vec![R]],
        vec![borrow(root(A), Some(R), 1)],
        vec![(through(R), 2, false), (through(R), 3, true)],
        vec![],
    )
}

/// `a = 42; r = get(&mut a); a = 5; return *r;`
fn call_and_write() -> Program {
    straight(
        || {
            vec![
                def(A, HirExpr::Int(42)),
                def(R, call(GET, vec![unary(UnaryOp::RefMut, name(A))])),
                assign(name(A), HirExpr::Int(5)),
                ret(deref(name(R))),
            ]
        },
        vec![vec![], vec![A], vec![], vec![R]],
        vec![borrow(root(A), Some(R), 1)],
        vec![(root(A), 2, false), (through(R), 3, true)],
        vec![],
    )
}

fn facts_of(p: Program) -> (PoloniusFacts, Vec<LoanInfo>, Vec<(FrozenPlace, Point, bool, Span)>) {
    extract_facts(&p.cfg, &p.body, &p.live, p.data).expect("the facts extraction must succeed")
}

fn errors_of(p: Program) -> Vec<BorrowError> {
    let (facts, infos, events) = facts_of(p);
    rules_to_borrow_errors(&facts, &infos, &events).expect("the mapping must succeed")
}

// ---------------------------------------------------------------------------
// Bodies
// ---------------------------------------------------------------------------

#[test]
fn test_extract_cross_function() {
    let p = call_that_returns_its_argument();
    let registry = vec![get_entry()];
    let (facts, _infos) = extract_cross_function(&p.cfg, &p.body, &p.live, p.data, &registry)
        .expect("the cross-function extraction must succeed");
    assert!(
        !facts.subset_base.is_empty(),
        "the subset_base must be instantiated at the call point"
    );
    assert!(
        !facts.universal_region.is_empty(),
        "the callee's universal_region must be merged"
    );
}

#[test]
fn test_cross_function_rules_detection() {
    let p = call_and_write();
    let registry = vec![get_entry()];
    let (facts, _infos) = extract_cross_function(&p.cfg, &p.body, &p.live, p.data, &registry)
        .expect("the cross-function extraction must succeed");
    assert!(
        !facts.subset_base.is_empty(),
        "the call site must instantiate the subset_base"
    );
    assert!(
        !evaluate_rules(&facts).is_empty(),
        "the rules engine must detect the cross-function returned-borrow freeze"
    );
}

#[test]
fn test_polonius_equivalence_accepted() {
    for p in [ended_before_write(), plain_through_borrow(), loop_without_borrows()] {
        let (facts, _infos, _events) = facts_of(p);
        let errs = evaluate_rules(&facts);
        assert!(errs.is_empty(), "no errors on accepted programs: {:?}", errs);
    }
}

#[test]
fn test_polonius_equivalence_rejected() {
    let (facts, _infos, _events) = facts_of(write_while_borrowed());
    assert!(!evaluate_rules(&facts).is_empty(), "the rules must find the violation");
}

#[test]
fn test_differential_handwritten_vs_rules() {
    let cases: [(fn() -> Program, bool); 3] = [
        (ended_before_write, true),
        (plain_through_borrow, true),
        (write_while_borrowed, false),
    ];
    for (program, accept) in cases {
        let p = program();
        let errs = borrow_check_function(&p.cfg, &p.body, &p.live, p.data, &vec![]);
        assert_eq!(errs.is_empty(), accept);
        let (facts, _infos, _events) = facts_of(program());
        assert_eq!(evaluate_rules(&facts).is_empty(), accept);
    }
}

#[test]
fn test_write_facts_csv() {
    let (facts, _infos, _events) = facts_of(plain_through_borrow());
    let tables = facts_csv(&facts);
    let inputs = polonius_inputs();
    assert_eq!(inputs.len(), 17);
    for (table, _) in &tables {
        assert!(inputs.contains(table), "{} is no input", table);
    }
    let text = |n: &str| tables.iter().find(|t| t.0 == n).unwrap().1.clone();
    assert!(!text("cfg_edge.csv").is_empty(), "cfg_edge must be populated");
    assert!(!text("loan_issued_at.csv").is_empty(), "loan_issued_at must be populated");
}

#[test]
fn test_rules_to_borrow_errors_mapping() {
    let errs = errors_of(write_while_borrowed());
    assert!(!errs.is_empty(), "the mapped errors must be non-empty for a rejected program");
    assert!(
        errs.iter().any(|e| matches!(e.loan_kind, Some(LoanKind::Exclusive))),
        "the freeze loan must be classified as Exclusive: {:?}",
        errs
    );
    assert!(
        errs.iter().all(|e| e.span.start != 0 || e.span.end != 0),
        "every mapped error must carry a real span"
    );
}

#[test]
fn test_mapping_e109_read_freeze() {
    let errs = errors_of(read_while_borrowed());
    assert!(
        errs.iter().any(|e| e.is_read),
        "the read of a frozen place must surface: {:?}",
        errs
    );
}

#[test]
fn test_mapping_e112_exclusivity() {
    let errs = errors_of(two_exclusive_borrows());
    assert!(
        errs.iter().any(|e| e.is_exclusive),
        "the overlapping live loans must surface: {:?}",
        errs
    );
}

#[test]
fn test_polonius_ancestor_clobber_exclusion() {
    let (facts, _infos, _events) = facts_of(whole_overwritten_under_part());
    assert!(
        !facts.loan_invalidated_at.is_empty(),
        "the loan must be invalidated (not killed) by the ancestor clobber"
    );
    assert!(
        facts.loan_killed_at.is_empty(),
        "the Field/Index exclusion must prevent the kill"
    );
    assert!(
        !evaluate_rules(&facts).is_empty(),
        "the rules engine must detect the ancestor-clobber use"
    );
}

#[test]
fn test_reborrow_kill_engine_path() {
    let (facts, _infos, _events) = facts_of(reborrowed());
    assert!(
        evaluate_rules(&facts).is_empty(),
        "the reborrow must kill the old loan: {:?}",
        evaluate_rules(&facts)
    );
}

#[test]
fn test_method_receiver_loan_two_phase() {
    let body = vec![
        def(OBJ, HirExpr::StructLit { fields: vec![(V, HirExpr::Int(0))] }),
        def(
            R,
            HirExpr::Call {
                callee: Box::new(HirExpr::FieldAccess { base: Box::new(name(OBJ)), field: PUT }),
                args: vec![HirExpr::Int(5)],
            },
        ),
        ret(name(R)),
    ];
    let receivers = collect_method_receiver_places(&body);
    assert!(
        receivers.iter().any(|p| p.same(&root(OBJ))),
        "the method-call receiver place must be collected: {:?}",
        receivers
    );
}

#[test]
fn a_body_with_too_many_statements_has_no_facts() {
    let mut p = plain_through_borrow();
    p.data.loans[0].point.stmt = 1 << 20;
    let r = extract_facts(&p.cfg, &p.body, &p.live, p.data);
    assert_eq!(r.err(), Some(PointOverflow::Stmt(1 << 20)));
    let mut p = plain_through_borrow();
    p.data.loans[0].point.expr = 1 << 16;
    let errs = borrow_check_function(&p.cfg, &p.body, &p.live, p.data, &vec![]);
    assert_eq!(errs.len(), 1);
}

// ---------------------------------------------------------------------------
// Signatures
// ---------------------------------------------------------------------------

#[test]
fn test_signature_facts_borrow_return() {
    let sig = BorrowSignature {
        input_borrows: vec![(X, false)],
        input_lifetimes: vec![None],
        output_borrows: vec![RET],
    };
    let facts = signature_facts(&sig, &vec![0]);
    assert_eq!(
        facts.universal_region,
        vec![0, 1],
        "the input and the output are placeholder origins"
    );
    assert_eq!(
        facts.known_placeholder_subset,
        vec![(0, 1)],
        "the declared constraint from input to output"
    );
}

#[test]
fn test_signature_facts_no_borrows() {
    let facts = signature_facts(&BorrowSignature::default(), &vec![]);
    assert!(facts.universal_region.is_empty());
    assert!(facts.known_placeholder_subset.is_empty());
}

#[test]
fn test_signature_facts_derivation_precision() {
    let sig = BorrowSignature {
        input_borrows: vec![(X, false), (Y, true)],
        input_lifetimes: vec![None, None],
        output_borrows: vec![RET],
    };
    let facts = signature_facts(&sig, &vec![0]);
    assert_eq!(
        facts.universal_region,
        vec![0, 1, 2],
        "both inputs and the output are placeholder origins"
    );
    assert_eq!(
        facts.known_placeholder_subset,
        vec![(0, 2)],
        "only the deriving input x constrains the output"
    );
}

#[test]
fn test_derive_output_origins() {
    let body = vec![ret(name(X))];
    assert_eq!(
        derive_output_origins(&body, &vec![X, Y]),
        vec![0],
        "`return x` derives from the x parameter"
    );
    let body2 = vec![
        def(A, HirExpr::Int(42)),
        def(R, unary(UnaryOp::RefMut, name(A))),
        ret(name(R)),
    ];
    assert!(
        derive_output_origins(&body2, &vec![X]).is_empty(),
        "a local borrow return has no input derivation"
    );
}

#[test]
fn a_local_may_stand_for_two_parameters() {
    let arm = |p: Symbol| {
        vec![
            def(R, unary(UnaryOp::RefMut, unary(UnaryOp::Deref, name(p)))),
            ret(name(R)),
        ]
    };
    let body = vec![HirStmt::If { then_branch: arm(X), else_branch: Some(arm(Y)) }];
    assert_eq!(derive_output_origins(&body, &vec![X, Y]), vec![0, 1]);
    let rebound = vec![def(R, name(Y)), def(R2, name(R)), def(R, name(X)), ret(name(R2))];
    assert_eq!(derive_output_origins(&rebound, &vec![X, Y]), vec![0, 1]);
    assert_eq!(derive_output_origins(&vec![ret(name(A))], &vec![X, Y]), Vec::<usize>::new());
}

#[test]
fn test_extract_borrow_signature_multi_output() {
    let mut names = Interner::new();
    let x = names.intern("x".to_string());
    let y = names.intern("y".to_string());
    let sig =
        extract_borrow_signature(&vec![(x, true, false, None), (y, true, true, None)], 2, &mut names);
    assert_eq!(
        sig.output_borrows,
        vec![names.intern("__ret0".to_string()), names.intern("__ret1".to_string())],
        "two output origins"
    );
    let facts = signature_facts(&sig, &vec![0, 1]);
    assert_eq!(facts.universal_region, vec![0, 1, 2, 3]);
    assert_eq!(facts.known_placeholder_subset.len(), 4);
    for &(i, o) in &[(0u32, 2u32), (0, 3), (1, 2), (1, 3)] {
        assert!(
            facts.known_placeholder_subset.contains(&(i, o)),
            "missing {}→{}: {:?}",
            i,
            o,
            facts.known_placeholder_subset
        );
    }
}

#[test]
fn test_extract_borrow_signature() {
    let mut names = Interner::new();
    let x = names.intern("x".to_string());
    let n = names.intern("n".to_string());
    let sig = extract_borrow_signature(
        &vec![(x, true, false, None), (n, false, false, None)],
        1,
        &mut names,
    );
    assert_eq!(sig.input_borrows, vec![(x, false)]);
    assert!(!sig.output_borrows.is_empty());
    let sig2 = extract_borrow_signature(&vec![(x, true, true, None)], 0, &mut names);
    assert_eq!(sig2.input_borrows.len(), 1);
    assert!(sig2.output_borrows.is_empty());
}

#[test]
fn test_count_return_refs_recursive() {
    let reference = |mutable: bool| ast::Type::Reference {
        inner: Rc::new(ast::Type::Path(List::Nil, Span::new(0, 1))),
        mutable,
        lifetime: None,
        span: Span::new(0, 1),
    };
    assert_eq!(count_return_refs_ast(&reference(true)), 1);
    let tup = ast::Type::Tuple(
        List::Nil.push(reference(false)).push(reference(true)),
        Span::new(0, 1),
    );
    assert_eq!(
        count_return_refs_ast(&tup),
        2,
        "a tuple of two references counts 2 outputs"
    );
}

#[test]
fn test_shared_lifetime_same_origin() {
    let sig = BorrowSignature {
        input_borrows: vec![(X, true), (Y, false)],
        input_lifetimes: vec![Some(LIFE), Some(LIFE)],
        output_borrows: vec![RET],
    };
    let facts = signature_facts(&sig, &vec![0, 1]);
    assert_eq!(
        facts.universal_region,
        vec![0, 0, 1],
        "the inputs with one lifetime must map to one origin: {:?}",
        facts.universal_region
    );
    assert!(
        facts.known_placeholder_subset.contains(&(0, 1)),
        "both deriving inputs flow to the output: {:?}",
        facts.known_placeholder_subset
    );
}

#[test]
fn test_count_return_refs_adt_generic() {
    let mut ctx = TypeContext::new();
    let t_param = ctx.allocate(TypeData::GenericParam { index: 0, name: X });
    let s_def = AdtDef { fields: List::Nil.push(t_param), has_drop: false };
    let ref_id = ctx.allocate(TypeData::Ref { ty: t_param, mutable: true, lifetime: None });
    let s_id = ctx.allocate(TypeData::Adt {
        kind: AdtKind::Struct,
        def_id: DefId(1),
        args: List::Nil.push(ref_id),
    });
    ctx.register_adt(DefId(1), s_def);
    assert_eq!(
        count_return_refs(&ctx, s_id),
        1,
        "the generic field substituted with a reference must count 1"
    );
}

#[test]
fn returned_references_to_locals_dangle() {
    let body = vec![
        def(A, HirExpr::Int(1)),
        ret(unary(UnaryOp::RefMut, name(A))),
    ];
    assert_eq!(dangling_return_spans(&body, &vec![X]), vec![Span::new(90, 95)]);
    let body = vec![ret(unary(UnaryOp::RefMut, name(X)))];
    assert_eq!(dangling_return_spans(&body, &vec![X]), vec![]);
}

// ---------------------------------------------------------------------------
// Rules
// ---------------------------------------------------------------------------

#[test]
fn test_two_phase_reserved_read_exempt() {
    let span = Span::new(0, 1);
    let facts = PoloniusFacts {
        cfg_edge: vec![(0, 1)],
        loan_issued_at: vec![(0, 0, 0)],
        var_used_at: vec![(99, 0)],
        use_of_var_derefs_origin: vec![(99, 0)],
        ..Default::default()
    };
    let infos = vec![LoanInfo {
        id: 0,
        origin: 0,
        place: root(V),
        borrow_var: Some(V),
        kind: LoanKind::Exclusive,
        point: pt(0),
        span,
        two_phase: true,
    }];
    let events = vec![(root(V), pt(0), true, span)];
    let errs = rules_to_borrow_errors(&facts, &infos, &events)
        .expect("the mapping must succeed (the facts are pre-validated)");
    assert!(
        !errs.iter().any(|e| e.is_read),
        "the reserved-phase read must be exempt: {:?}",
        errs
    );
    let mut plain = infos.clone();
    plain[0].two_phase = false;
    let errs_plain = rules_to_borrow_errors(&facts, &plain, &events)
        .expect("the mapping must succeed (the facts are pre-validated)");
    assert!(
        errs_plain.iter().any(|e| e.is_read),
        "an active exclusive loan must freeze the read: {:?}",
        errs_plain
    );
}

#[test]
fn test_drop_while_borrowed() {
    let facts = PoloniusFacts {
        cfg_edge: vec![(0, 1)],
        loan_issued_at: vec![(0, 0, 0)],
        var_used_at: vec![(99, 0)],
        use_of_var_derefs_origin: vec![(99, 0)],
        var_dropped_at: vec![(99, 0)],
        drop_of_var_derefs_origin: vec![(99, 0)],
        ..Default::default()
    };
    let errs = evaluate_drop_errors(&facts);
    assert_eq!(
        errs,
        vec![(0, 0)],
        "the drop-while-borrowed must yield exactly the (loan, point) pair (0, 0)"
    );
}

#[test]
fn test_subset_arho_propagation() {
    let facts = PoloniusFacts {
        cfg_edge: vec![(0, 1), (1, 2)],
        subset_base: vec![(0, 1, 0)],
        universal_region: vec![0],
        loan_issued_at: vec![(0, 0, 0)],
        loan_invalidated_at: vec![(0, 2)],
        var_used_at: vec![(99, 2)],
        use_of_var_derefs_origin: vec![(99, 1)],
        known_placeholder_subset: vec![(0, 1)],
        loan_killed_at: vec![],
        var_defined_at: vec![],
        var_dropped_at: vec![],
        drop_of_var_derefs_origin: vec![],
        child_path: vec![],
        path_is_var: vec![],
        reborrow_sources: vec![],
    };
    let errs = evaluate_rules(&facts);
    assert!(
        errs.contains(&(0, 2)),
        "the input loan must be live at the output's live point"
    );
    assert!(evaluate_subset_errors(&facts).is_empty());
}

#[test]
fn test_subset_errors_r9() {
    let facts = PoloniusFacts {
        cfg_edge: vec![(0, 1)],
        subset_base: vec![(0, 2, 0)],
        universal_region: vec![0, 2],
        ..Default::default()
    };
    let errs = evaluate_subset_errors(&facts);
    assert!(
        errs.contains(&(0, 2, 0)),
        "the undeclared placeholder subset must be rejected"
    );
}

#[test]
fn test_r9_wired_into_borrow_errors() {
    let facts = PoloniusFacts {
        cfg_edge: vec![(0, 1)],
        subset_base: vec![(0, 2, 0)],
        universal_region: vec![0, 2],
        ..Default::default()
    };
    let errs = rules_to_borrow_errors(&facts, &vec![], &vec![])
        .expect("the mapping must succeed (the facts are pre-validated)");
    let r9 = errs.iter().find(|e| matches!(&e.place, FrozenPlace::Root(n) if n.to_u32() == REGION));
    assert!(
        r9.is_some(),
        "the undeclared placeholder subset must surface as a borrow error"
    );
    let names = Interner::new();
    assert_eq!(names.text(Symbol(REGION)).unwrap().as_str(), "<region>");
}

#[test]
fn test_drop_errors_wired_into_borrow_errors() {
    let facts = PoloniusFacts {
        cfg_edge: vec![(0, 16), (16, 32)],
        loan_issued_at: vec![(0, 0, 16)],
        loan_invalidated_at: vec![(0, 32)],
        var_used_at: vec![(99, 32)],
        use_of_var_derefs_origin: vec![(99, 0)],
        var_dropped_at: vec![(99, 32)],
        drop_of_var_derefs_origin: vec![(99, 0)],
        ..Default::default()
    };
    let infos = vec![LoanInfo {
        id: 0,
        origin: 0,
        place: root(V),
        borrow_var: None,
        kind: LoanKind::Exclusive,
        point: Point { block: BlockId(0), stmt: 0, expr: 16 },
        span: Span::new(10, 20),
        two_phase: false,
    }];
    let errs = rules_to_borrow_errors(&facts, &infos, &vec![])
        .expect("the mapping must succeed (the facts are pre-validated)");
    let drop_err = errs.iter().find(|e| e.is_drop);
    assert!(
        drop_err.is_some(),
        "the drop-while-borrowed violation must surface: {:?}",
        errs
    );
}

#[test]
fn test_borrow_errors_dedup() {
    let facts = PoloniusFacts {
        cfg_edge: vec![(0, 16), (16, 32), (32, 48)],
        loan_issued_at: vec![(0, 0, 16)],
        loan_invalidated_at: vec![(0, 32), (0, 48)],
        var_used_at: vec![(99, 32), (99, 48)],
        use_of_var_derefs_origin: vec![(99, 0)],
        ..Default::default()
    };
    let infos = vec![LoanInfo {
        id: 0,
        origin: 0,
        place: root(V),
        borrow_var: None,
        kind: LoanKind::Exclusive,
        point: Point { block: BlockId(0), stmt: 0, expr: 16 },
        span: Span::new(10, 20),
        two_phase: false,
    }];
    let errs = rules_to_borrow_errors(&facts, &infos, &vec![])
        .expect("the mapping must succeed (the facts are pre-validated)");
    let e110 = errs.iter().filter(|e| !e.is_read && !e.is_exclusive && !e.is_drop);
    assert_eq!(
        e110.count(),
        1,
        "the two identical violations must deduplicate into one: {:?}",
        errs
    );
}

#[test]
fn test_loan_killed_semantics() {
    let facts = PoloniusFacts {
        cfg_edge: vec![(0, 16), (16, 32)],
        loan_issued_at: vec![(0, 0, 16)],
        loan_invalidated_at: vec![(0, 32)],
        loan_killed_at: vec![(0, 16)],
        var_used_at: vec![(99, 32)],
        use_of_var_derefs_origin: vec![(99, 0)],
        ..Default::default()
    };
    let errs = evaluate_rules(&facts);
    assert!(
        !errs.contains(&(0, 32)),
        "the killed loan must not be live at the invalidated point"
    );
}

#[test]
fn test_call_site_facts() {
    let (loans, subset) = call_site_facts(&vec![0], 7, &vec![(0, 1)], 0);
    assert_eq!(
        loans,
        vec![(0, 0, 7)],
        "the argument loan issued in the input origin 0 at the call point"
    );
    assert_eq!(subset, vec![(0, 1, 7)], "the instantiation at the call point");
    let (loans2, subset2) = call_site_facts(&vec![], 7, &vec![(0, 1)], 0);
    assert!(loans2.is_empty());
    assert!(subset2.is_empty());
}

#[test]
fn test_cross_function_arho_scenario() {
    let sig = signature_facts(
        &BorrowSignature {
            input_borrows: vec![(X, false)],
            input_lifetimes: vec![None],
            output_borrows: vec![RET],
        },
        &vec![0],
    );
    let (call_loans, call_subset) =
        call_site_facts(&vec![0], 16, &sig.known_placeholder_subset, 0);
    let mut facts = PoloniusFacts {
        cfg_edge: vec![(0, 16), (16, 32), (32, 48), (48, 64)],
        var_used_at: vec![(99, 64)],
        use_of_var_derefs_origin: vec![(99, 1)],
        loan_invalidated_at: vec![(0, 32)],
        ..Default::default()
    };
    facts.universal_region.extend(sig.universal_region);
    facts.known_placeholder_subset.extend(sig.known_placeholder_subset);
    facts.loan_issued_at.extend(call_loans);
    facts.subset_base.extend(call_subset);
    let errs = evaluate_rules(&facts);
    assert!(
        errs.contains(&(0, 32)),
        "the input source stays frozen while the returned borrow is alive"
    );
    assert!(
        evaluate_subset_errors(&facts).is_empty(),
        "the declared relation must not fire subset errors"
    );
}

#[test]
fn no_loans_no_errors() {
    let facts = PoloniusFacts {
        cfg_edge: vec![(0, 1), (1, 0)],
        var_used_at: vec![(1, 1)],
        loan_invalidated_at: vec![(0, 1)],
        ..Default::default()
    };
    assert!(evaluate_rules(&facts).is_empty());
    assert!(loan_live_at(&facts).is_empty());
    assert!(evaluate_drop_errors(&facts).is_empty());
}

#[test]
fn a_loan_lives_round_a_loop() {
    let facts = PoloniusFacts {
        cfg_edge: vec![(0, 16), (16, 32), (32, 16)],
        loan_issued_at: vec![(0, 0, 0)],
        var_used_at: vec![(99, 16)],
        use_of_var_derefs_origin: vec![(99, 0)],
        ..Default::default()
    };
    let live = loan_live_at(&facts);
    assert!(live.contains(&(0, 16)));
    assert!(live.contains(&(0, 32)));
}

// ---------------------------------------------------------------------------
// Points, tables, places
// ---------------------------------------------------------------------------

#[test]
fn points_are_numbered_in_order() {
    let p = |b, s, e| point_id(Point { block: BlockId(b), stmt: s, expr: e });
    let first = p(0, 0, 1).unwrap();
    let second = p(0, 1, 0).unwrap();
    let third = p(1, 0, 0).unwrap();
    assert!(first < second && second < third);
    assert!(same_stmt_number(p(0, 1, 0).unwrap(), p(0, 1, 7).unwrap()));
    assert!(!same_stmt_number(first, second));
    assert_eq!(p(0, 1 << 20, 0), Err(PointOverflow::Stmt(1 << 20)));
    assert_eq!(p(0, 0, 1 << 16), Err(PointOverflow::Expr(1 << 16)));
    assert_eq!(p(1 << 20, 0, 0), Err(PointOverflow::Block(1 << 20)));
    assert_eq!(
        PointOverflow::Stmt(1048576).message(),
        "the function's CFG exceeds the point-encoding capacity: statement index 1048576 is beyond the 2^20 bound"
    );
}

#[test]
fn tables_put_the_columns_in_their_order() {
    let facts = PoloniusFacts {
        cfg_edge: vec![(0, 16), (16, 1048576)],
        loan_issued_at: vec![(3, 4, 5)],
        loan_invalidated_at: vec![(6, 70)],
        ..Default::default()
    };
    let tables = facts_csv(&facts);
    let text = |n: &str| tables.iter().find(|t| t.0 == n).unwrap().1.clone();
    assert_eq!(text("cfg_edge.csv"), "0,16\n16,1048576\n");
    assert_eq!(text("loan_issued_at.csv"), "4,3,5\n");
    assert_eq!(text("loan_invalidated_at.csv"), "70,6\n");
}

#[test]
fn every_table_is_filled_from_its_facts() {
    let facts = PoloniusFacts {
        loan_issued_at: vec![(1, 2, 3)],
        loan_invalidated_at: vec![(1, 9)],
        var_dropped_at: vec![(5, 6)],
        drop_of_var_derefs_origin: vec![(7, 8)],
        var_defined_at: vec![(9, 10)],
        child_path: vec![(11, 12)],
        path_is_var: vec![(13, 14)],
        ..Default::default()
    };
    let filled = [
        ("loan_issued_at.csv", "2,1,3\n"),
        ("loan_invalidated_at.csv", "9,1\n"),
        ("var_dropped_at.csv", "5,6\n"),
        ("drop_of_var_derefs_origin.csv", "7,8\n"),
        ("var_defined_at.csv", "9,10\n"),
        ("child_path.csv", "11,12\n"),
        ("path_is_var.csv", "13,14\n"),
    ];
    let tables = facts_csv(&facts);
    assert_eq!(tables.len(), 17);
    for n in polonius_inputs() {
        let text = tables.iter().find(|t| t.0 == n).unwrap().1.clone();
        let want = filled.iter().find(|f| f.0 == n).map_or("", |f| f.1);
        assert_eq!(text, want, "{}", n);
    }
}

#[test]
fn the_answer_of_an_engine_is_read() {
    assert_eq!(error_count("loaded\nerrors: 12\n"), Some(12));
    assert_eq!(error_count("nothing here"), None);
}

#[test]
fn places_overlap() {
    let a1 = FrozenPlace::ConstIndex(Box::new(root(ARR)), 1);
    let a2 = FrozenPlace::ConstIndex(Box::new(root(ARR)), 2);
    let any = FrozenPlace::Index(Box::new(root(ARR)));
    assert!(place_is_prefix_of(&root(ARR), &a1));
    assert!(!place_is_prefix_of(&a1, &root(ARR)));
    assert!(!a1.touches(&a2));
    assert!(a1.touches(&any));
    assert!(!root(A).touches(&root(B)));
    assert_eq!(place_root_var(&a1), ARR);
    assert!(hir_expr_place(&index(name(ARR), 1)).unwrap().same(&a1));
    assert!(hir_expr_place(&HirExpr::Int(3)).is_none());
}

#[test]
fn signatures_keep_what_is_mutable() {
    let sig = BorrowSignature {
        input_borrows: vec![(X, true), (Y, false)],
        input_lifetimes: vec![None, None],
        output_borrows: vec![],
    };
    let facts: SignatureFacts = signature_facts(&sig, &vec![]);
    assert_eq!(facts.input_borrow_mutable, vec![true, false]);
    assert_eq!(facts.universal_region, vec![0, 1]);
}
