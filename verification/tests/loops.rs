use ponent::loops::big::BigNum;
use ponent::loops::lower::loop_instrs_to_loop_problem;
use ponent::loops::problem::{
    ArithSem, BiiLoopProblem, BiiVar, CmpOp, Cond, EdgeKind, LoopInstr, ScalarExpr, TransitionEdge,
};
use ponent::loops::separate::separate_loop_params;
use ponent::symbol::Symbol;

fn sym(name: &str) -> Symbol {
    match name {
        "i" => Symbol(100),
        "j" => Symbol(101),
        "n" => Symbol(102),
        _ => panic!("no such name"),
    }
}

#[test]
fn test_separate_loop_params_basic() {
    let vars = vec![sym("i"), sym("n")];
    let init = vec![LoopInstr::ConstVar(0, 0)];
    let body = vec![
        LoopInstr::TestDiffLe(0, 1, -1),
        LoopInstr::AddVar(0, 1),
    ];
    let sep = separate_loop_params(&vars, &init, &body, &vec![8, 8], &vec![false, false])
        .expect("must separate");
    assert_eq!(sep.vars, vec![sym("i")]);
    assert_eq!(sep.params.len(), 1);
    assert_eq!(sep.params[0].symbol, sym("n"));
    assert_eq!(sep.params[0].bw, 8);
    assert_eq!(sep.body, body);
    assert_eq!(sep.init, init);
    assert_eq!(sep.bit_widths, vec![8, 8]);
    assert_eq!(sep.signed, vec![false, false]);
    let problem = loop_instrs_to_loop_problem(
        &sep.vars,
        &sep.init,
        &sep.body,
        &sep.bit_widths,
        &sep.signed,
        &sep.params,
        true,
    )
    .expect("must lower with separated params");
    assert_eq!(problem.vars.len(), 1);
    assert_eq!(problem.params.len(), 1);
    assert_eq!(problem.params[0].symbol, sym("n"));
}

#[test]
fn test_separate_loop_params_remap() {
    let vars = vec![sym("n"), sym("i")];
    let init = vec![LoopInstr::ConstVar(1, 0)];
    let body = vec![
        LoopInstr::TestDiffLe(1, 0, -1),
        LoopInstr::AddVar(1, 1),
    ];
    let sep = separate_loop_params(&vars, &init, &body, &vec![8, 8], &vec![false, false])
        .expect("must separate");
    assert_eq!(sep.vars, vec![sym("i")]);
    assert_eq!(sep.params[0].symbol, sym("n"));
    assert_eq!(sep.init, vec![LoopInstr::ConstVar(0, 0)]);
    assert_eq!(
        sep.body,
        vec![LoopInstr::TestDiffLe(0, 1, -1), LoopInstr::AddVar(0, 1),]
    );
    assert_eq!(sep.bit_widths, vec![8, 8]);
}

#[test]
fn test_separate_loop_params_none() {
    let vars = vec![sym("i")];
    let body = vec![LoopInstr::TestLe(0, 5), LoopInstr::AddVar(0, 1)];
    assert!(separate_loop_params(&vars, &vec![], &body, &vec![8], &vec![false]).is_none());
}

#[test]
fn test_problem_construction() {
    let problem = BiiLoopProblem {
        vars: vec![BiiVar {
            symbol: sym("i"),
            bw: 8,
            signed: false,
        }],
        params: vec![],
        init: vec![ScalarExpr::Const(BigNum::of(0))],
        loop_guard: Cond::Cmp {
            op: CmpOp::Lt,
            lhs: Box::new(ScalarExpr::Var(0)),
            rhs: Box::new(ScalarExpr::Const(BigNum::of(6))),
            signed: false,
        },
        back_edges: vec![TransitionEdge {
            kind: EdgeKind::Back,
            guard: None,
            definedness: None,
            next_values: vec![ScalarExpr::Add(
                Box::new(ScalarExpr::Var(0)),
                Box::new(ScalarExpr::Const(BigNum::of(1))),
                ArithSem::Wrap,
            )],
        }],
        exit_edges: vec![TransitionEdge {
            kind: EdgeKind::Exit,
            guard: None,
            definedness: None,
            next_values: vec![ScalarExpr::Var(0)],
        }],
        saturates: vec![],
        post: None,
    };
    assert_eq!(problem.vars.len(), 1);
    assert_eq!(problem.back_edges.len(), 1);
    assert_eq!(problem.back_edges[0].kind, EdgeKind::Back);
    assert!(problem.params.is_empty() && problem.post.is_none());
    assert_eq!(problem.exit_edges.len(), 1);
    assert_eq!(problem.exit_edges[0].kind, EdgeKind::Exit);
}

#[test]
fn test_cond_combination() {
    let c = Cond::Cmp {
        op: CmpOp::Ge,
        lhs: Box::new(ScalarExpr::Var(0)),
        rhs: Box::new(ScalarExpr::Const(BigNum::of(0))),
        signed: true,
    };
    let combo = Cond::And(Box::new(c.clone()), Box::new(Cond::Not(Box::new(c))));
    match &combo {
        Cond::And(a, b) => {
            assert!(matches!(**a, Cond::Cmp { .. }));
            assert!(matches!(**b, Cond::Not(_)));
        }
        _ => panic!("expected And"),
    }
    assert_ne!(combo, Cond::True);
}

#[test]
fn test_loop_instrs_to_loop_problem_basic() {
    let vars = vec![sym("i")];
    let init = vec![LoopInstr::ConstVar(0, 0)];
    let body = vec![LoopInstr::TestLe(0, 5), LoopInstr::AddVar(0, 1)];
    let problem = loop_instrs_to_loop_problem(&vars, &init, &body, &vec![8], &vec![false], &vec![], true)
        .expect("basic loop must lower");
    assert_eq!(problem.vars.len(), 1);
    assert_eq!(problem.vars[0].bw, 8);
    assert_eq!(problem.vars[0].signed, false);
    assert_eq!(problem.init, vec![ScalarExpr::Const(BigNum::of(0))]);
    assert_eq!(
        problem.loop_guard,
        Cond::Cmp {
            op: CmpOp::Le,
            lhs: Box::new(ScalarExpr::Var(0)),
            rhs: Box::new(ScalarExpr::Const(BigNum::of(5))),
            signed: false,
        }
    );
    assert_eq!(problem.back_edges.len(), 1);
    assert_eq!(problem.back_edges[0].kind, EdgeKind::Back);
    assert_eq!(
        problem.back_edges[0].next_values,
        vec![ScalarExpr::Add(
            Box::new(ScalarExpr::Var(0)),
            Box::new(ScalarExpr::Const(BigNum::of(1))),
            ArithSem::Wrap,
        )]
    );
}

#[test]
fn test_loop_instrs_to_loop_problem_ssa() {
    let vars = vec![sym("i"), sym("j")];
    let init = vec![LoopInstr::ConstVar(0, 0), LoopInstr::ConstVar(1, 0)];
    let body = vec![LoopInstr::AddVar(0, 1), LoopInstr::CopyVar(1, 0)];
    let problem =
        loop_instrs_to_loop_problem(&vars, &init, &body, &vec![8, 8], &vec![false, false], &vec![], true)
            .expect("ssa loop must lower");
    assert_eq!(
        problem.back_edges[0].next_values,
        vec![
            ScalarExpr::Add(
                Box::new(ScalarExpr::Var(0)),
                Box::new(ScalarExpr::Const(BigNum::of(1))),
                ArithSem::Wrap,
            ),
            ScalarExpr::Add(
                Box::new(ScalarExpr::Var(0)),
                Box::new(ScalarExpr::Const(BigNum::of(1))),
                ArithSem::Wrap,
            ),
        ],
        "j must read the incremented i (SSA read-after-write)"
    );
}

#[test]
fn test_loop_instrs_to_loop_problem_init_fail_closed() {
    let vars = vec![sym("i")];
    let init = vec![LoopInstr::AddVar(0, 1)];
    let body = vec![LoopInstr::TestLe(0, 5), LoopInstr::AddVar(0, 1)];
    assert!(
        loop_instrs_to_loop_problem(&vars, &init, &body, &vec![8], &vec![false], &vec![], true).is_none()
    );
}

#[test]
fn test_loop_instrs_to_loop_problem_testge() {
    let vars = vec![sym("i")];
    let init = vec![LoopInstr::ConstVar(0, 5)];
    let body = vec![LoopInstr::TestGe(0, 1), LoopInstr::AddVar(0, -1)];
    let problem = loop_instrs_to_loop_problem(&vars, &init, &body, &vec![8], &vec![false], &vec![], true)
        .expect("descending loop must lower");
    assert_eq!(
        problem.loop_guard,
        Cond::Cmp {
            op: CmpOp::Ge,
            lhs: Box::new(ScalarExpr::Var(0)),
            rhs: Box::new(ScalarExpr::Const(BigNum::of(1))),
            signed: false,
        }
    );
    assert_eq!(
        problem.back_edges[0].next_values,
        vec![ScalarExpr::Add(
            Box::new(ScalarExpr::Var(0)),
            Box::new(ScalarExpr::Const(BigNum::of(-1))),
            ArithSem::Wrap,
        )]
    );
}

#[test]
fn test_loop_instrs_to_loop_problem_params() {
    let vars = vec![sym("i")];
    let init = vec![LoopInstr::ConstVar(0, 0)];
    let body = vec![LoopInstr::TestLe(0, 5), LoopInstr::AddVar(0, 1)];
    let params = vec![BiiVar {
        symbol: sym("n"),
        bw: 8,
        signed: false,
    }];
    let problem =
        loop_instrs_to_loop_problem(&vars, &init, &body, &vec![8], &vec![false], &params, true)
            .expect("must lower with params");
    assert_eq!(problem.params.len(), 1);
    assert_eq!(problem.params[0].symbol, sym("n"));
    assert_eq!(problem.params[0].bw, 8);
    assert_eq!(problem.vars.len(), 1);
}

#[test]
fn test_definedness_trap_vs_wrap() {
    let vars = vec![sym("i")];
    let init = vec![LoopInstr::ConstVar(0, 0)];
    let inc_body = vec![LoopInstr::TestLe(0, 5), LoopInstr::AddVar(0, 1)];
    let trap = loop_instrs_to_loop_problem(&vars, &init, &inc_body, &vec![8], &vec![false], &vec![], true)
        .expect("must lower");
    assert_eq!(
        trap.back_edges[0].definedness,
        Some(Cond::Cmp {
            op: CmpOp::Le,
            lhs: Box::new(ScalarExpr::Var(0)),
            rhs: Box::new(ScalarExpr::Const(BigNum::of(254))),
            signed: false,
        })
    );
    let wrap = loop_instrs_to_loop_problem(&vars, &init, &inc_body, &vec![8], &vec![false], &vec![], false)
        .expect("must lower");
    assert_eq!(wrap.back_edges[0].definedness, None);
    let dec_body = vec![LoopInstr::TestGe(0, 1), LoopInstr::AddVar(0, -1)];
    let dec = loop_instrs_to_loop_problem(&vars, &init, &dec_body, &vec![8], &vec![false], &vec![], true)
        .expect("must lower");
    assert_eq!(
        dec.back_edges[0].definedness,
        Some(Cond::Cmp {
            op: CmpOp::Ge,
            lhs: Box::new(ScalarExpr::Var(0)),
            rhs: Box::new(ScalarExpr::Const(BigNum::of(1))),
            signed: false,
        })
    );
}

#[test]
fn test_definedness_signed_range() {
    let vars = vec![sym("i")];
    let init = vec![LoopInstr::ConstVar(0, 0)];
    let inc = vec![LoopInstr::TestLe(0, 5), LoopInstr::AddVar(0, 1)];
    let p = loop_instrs_to_loop_problem(&vars, &init, &inc, &vec![8], &vec![true], &vec![], true)
        .expect("must lower");
    assert_eq!(
        p.back_edges[0].definedness,
        Some(Cond::Cmp {
            op: CmpOp::Le,
            lhs: Box::new(ScalarExpr::Var(0)),
            rhs: Box::new(ScalarExpr::Const(BigNum::of(126))),
            signed: true,
        })
    );
    let dec = vec![LoopInstr::TestGe(0, 1), LoopInstr::AddVar(0, -1)];
    let p = loop_instrs_to_loop_problem(&vars, &init, &dec, &vec![8], &vec![true], &vec![], true)
        .expect("must lower");
    assert_eq!(
        p.back_edges[0].definedness,
        Some(Cond::Cmp {
            op: CmpOp::Ge,
            lhs: Box::new(ScalarExpr::Var(0)),
            rhs: Box::new(ScalarExpr::Const(BigNum::of(-127))),
            signed: true,
        })
    );
}

#[test]
fn test_loop_instrs_to_loop_problem_if_ite() {
    let vars = vec![sym("i")];
    let init = vec![LoopInstr::ConstVar(0, 0)];
    let body = vec![
        LoopInstr::TestLe(0, 5),
        LoopInstr::If(
            Box::new(Cond::Cmp {
                op: CmpOp::Lt,
                lhs: Box::new(ScalarExpr::Var(0)),
                rhs: Box::new(ScalarExpr::Const(BigNum::of(3))),
                signed: false,
            }),
            vec![LoopInstr::AddVar(0, 1)],
            vec![LoopInstr::AddVar(0, 2)],
        ),
    ];
    let problem = loop_instrs_to_loop_problem(&vars, &init, &body, &vec![8], &vec![false], &vec![], true)
        .expect("must lower with if");
    assert_eq!(
        problem.back_edges[0].next_values,
        vec![ScalarExpr::Ite(
            Box::new(Cond::Cmp {
                op: CmpOp::Lt,
                lhs: Box::new(ScalarExpr::Var(0)),
                rhs: Box::new(ScalarExpr::Const(BigNum::of(3))),
                signed: false,
            }),
            Box::new(ScalarExpr::Add(
                Box::new(ScalarExpr::Var(0)),
                Box::new(ScalarExpr::Const(BigNum::of(1))),
                ArithSem::Wrap,
            )),
            Box::new(ScalarExpr::Add(
                Box::new(ScalarExpr::Var(0)),
                Box::new(ScalarExpr::Const(BigNum::of(2))),
                ArithSem::Wrap,
            )),
        )]
    );
}

#[test]
fn test_loop_instrs_to_loop_problem_addsat() {
    let vars = vec![sym("i")];
    let init = vec![LoopInstr::ConstVar(0, 0)];
    let body = vec![LoopInstr::TestLe(0, 5), LoopInstr::AddSat(0, 1)];
    let problem = loop_instrs_to_loop_problem(&vars, &init, &body, &vec![8], &vec![false], &vec![], true)
        .expect("must lower");
    assert_eq!(problem.saturates, vec![(0, 1)]);
    assert_eq!(problem.back_edges[0].definedness, None);
    assert_eq!(
        problem.back_edges[0].next_values,
        vec![ScalarExpr::Add(
            Box::new(ScalarExpr::Var(0)),
            Box::new(ScalarExpr::Const(BigNum::of(1))),
            ArithSem::Saturate,
        )]
    );
}

#[test]
fn test_problem_post_none_and_exit_edge() {
    let vars = vec![sym("i")];
    let init = vec![LoopInstr::ConstVar(0, 0)];
    let body = vec![LoopInstr::TestLe(0, 5), LoopInstr::AddVar(0, 1)];
    let problem = loop_instrs_to_loop_problem(&vars, &init, &body, &vec![8], &vec![false], &vec![], true)
        .expect("must lower");
    assert!(problem.post.is_none(), "lowering must set post: None");
    assert_eq!(problem.exit_edges.len(), 1);
    assert_eq!(problem.exit_edges[0].kind, EdgeKind::Exit);
    assert_eq!(problem.exit_edges[0].next_values.len(), 1);
}

fn added(to: ScalarExpr, c: i128) -> ScalarExpr {
    ScalarExpr::Add(Box::new(to), Box::new(ScalarExpr::Const(BigNum::of(c))), ArithSem::Wrap)
}

fn number(c: i128) -> ScalarExpr {
    ScalarExpr::Const(BigNum::of(c))
}

fn compared(op: CmpOp, lhs: ScalarExpr, rhs: ScalarExpr) -> Cond {
    Cond::Cmp { op, lhs: Box::new(lhs), rhs: Box::new(rhs), signed: false }
}

fn below(c: i128) -> Cond {
    compared(CmpOp::Lt, ScalarExpr::Var(0), number(c))
}

#[test]
fn big_numbers_count() {
    assert!(BigNum::of(256).same(&BigNum::power_of_two(8)));
    assert!(BigNum::power_of_two(127).minus(&BigNum::of(1)).same(&BigNum::of(i128::MAX)));
    assert!(!BigNum::power_of_two(127).same(&BigNum::of(i128::MAX)));
    assert!(BigNum::of(3).minus(&BigNum::of(5)).same(&BigNum::of(-2)));
    assert!(BigNum::of(0).same(&BigNum::power_of_two(3).minus(&BigNum::of(8))));
    assert!(BigNum::of(-7).clone().same(&BigNum::of(-7)));
}

#[test]
fn wide_variables_trap_at_their_bounds() {
    let body = vec![LoopInstr::AddVar(0, 1)];
    let p = loop_instrs_to_loop_problem(
        &vec![sym("i")],
        &vec![],
        &body,
        &vec![128],
        &vec![false],
        &vec![],
        true,
    )
    .unwrap();
    assert_eq!(
        p.back_edges[0].definedness,
        Some(Cond::Cmp {
            op: CmpOp::Le,
            lhs: Box::new(ScalarExpr::Var(0)),
            rhs: Box::new(ScalarExpr::Const(BigNum::power_of_two(128).minus(&BigNum::of(2)))),
            signed: false,
        })
    );
}

#[test]
fn guards_are_taken_together() {
    let body = vec![LoopInstr::TestLe(0, 5), LoopInstr::TestGe(0, 1)];
    let p = loop_instrs_to_loop_problem(
        &vec![sym("i")],
        &vec![],
        &body,
        &vec![8],
        &vec![false],
        &vec![],
        false,
    )
    .unwrap();
    match p.loop_guard {
        Cond::And(a, b) => {
            assert!(matches!(*a, Cond::Cmp { op: CmpOp::Le, .. }));
            assert!(matches!(*b, Cond::Cmp { op: CmpOp::Ge, .. }));
        }
        other => panic!("two guards, got {:?}", other),
    }
}

#[test]
fn a_loop_without_guards_runs_on() {
    let p = loop_instrs_to_loop_problem(
        &vec![sym("i")],
        &vec![],
        &vec![LoopInstr::ConstVar(0, 3)],
        &vec![8],
        &vec![false],
        &vec![],
        true,
    )
    .unwrap();
    assert_eq!(p.loop_guard, Cond::True);
    assert_eq!(p.back_edges[0].next_values, vec![ScalarExpr::Const(BigNum::of(3))]);
    assert_eq!(p.back_edges[0].definedness, None);
    assert_eq!(p.saturates, vec![]);
}

#[test]
fn arms_that_agree_need_no_choice() {
    let body = vec![LoopInstr::If(
        Box::new(below(3)),
        vec![LoopInstr::AddVar(0, 1)],
        vec![LoopInstr::AddVar(0, 1)],
    )];
    let p = loop_instrs_to_loop_problem(
        &vec![sym("i")],
        &vec![],
        &body,
        &vec![8],
        &vec![false],
        &vec![],
        false,
    )
    .unwrap();
    assert_eq!(p.back_edges[0].next_values, vec![added(ScalarExpr::Var(0), 1)]);
}

#[test]
fn a_missing_arm_leaves_the_value() {
    let body = vec![LoopInstr::If(Box::new(below(3)), vec![LoopInstr::AddVar(0, 1)], vec![])];
    let p = loop_instrs_to_loop_problem(
        &vec![sym("i")],
        &vec![],
        &body,
        &vec![8],
        &vec![false],
        &vec![],
        false,
    )
    .unwrap();
    assert_eq!(
        p.back_edges[0].next_values,
        vec![ScalarExpr::Ite(
            Box::new(below(3)),
            Box::new(added(ScalarExpr::Var(0), 1)),
            Box::new(ScalarExpr::Var(0)),
        )]
    );
}

#[test]
fn what_a_branch_changes_is_no_parameter() {
    let body = vec![LoopInstr::If(Box::new(below(3)), vec![], vec![LoopInstr::CopyVar(1, 0)])];
    let s = separate_loop_params(
        &vec![sym("i"), sym("j"), sym("n")],
        &vec![],
        &body,
        &vec![8, 16, 32],
        &vec![false, true, false],
    )
    .unwrap();
    assert_eq!(s.vars, vec![sym("j")]);
    assert_eq!(s.params.len(), 2);
    assert_eq!(s.params[0].symbol, sym("i"));
    assert_eq!(s.params[1].bw, 32);
    assert_eq!(s.bit_widths, vec![16, 8, 32]);
    assert_eq!(s.signed, vec![true, false, false]);
    assert_eq!(
        s.body,
        vec![LoopInstr::If(
            Box::new(compared(CmpOp::Lt, ScalarExpr::Var(1), number(3))),
            vec![],
            vec![LoopInstr::CopyVar(0, 1)]
        )]
    );
}

#[test]
fn the_condition_of_a_branch_is_moved_too() {
    let body = vec![LoopInstr::If(
        Box::new(compared(CmpOp::Lt, ScalarExpr::Var(1), ScalarExpr::Var(0))),
        vec![LoopInstr::AddVar(1, 1)],
        vec![],
    )];
    let s = separate_loop_params(
        &vec![sym("n"), sym("i")],
        &vec![],
        &body,
        &vec![8, 8],
        &vec![false, false],
    )
    .unwrap();
    assert_eq!(s.vars, vec![sym("i")]);
    assert_eq!(s.params[0].symbol, sym("n"));
    assert_eq!(
        s.body,
        vec![LoopInstr::If(
            Box::new(compared(CmpOp::Lt, ScalarExpr::Var(0), ScalarExpr::Var(1))),
            vec![LoopInstr::AddVar(0, 1)],
            vec![],
        )]
    );
}

#[test]
fn a_second_addition_starts_from_the_first() {
    let p = loop_instrs_to_loop_problem(
        &vec![sym("i")],
        &vec![LoopInstr::ConstVar(0, 0)],
        &vec![LoopInstr::AddVar(0, 1), LoopInstr::AddVar(0, 1)],
        &vec![8],
        &vec![false],
        &vec![],
        true,
    )
    .unwrap();
    assert_eq!(
        p.back_edges[0].definedness,
        Some(Cond::And(
            Box::new(compared(CmpOp::Le, ScalarExpr::Var(0), number(254))),
            Box::new(compared(CmpOp::Le, added(ScalarExpr::Var(0), 1), number(254))),
        ))
    );
}

#[test]
fn a_branch_reads_what_was_assigned_before_it() {
    let body = vec![
        LoopInstr::AddVar(0, 1),
        LoopInstr::If(Box::new(below(3)), vec![LoopInstr::ConstVar(0, 7)], vec![]),
    ];
    let p = loop_instrs_to_loop_problem(
        &vec![sym("i")],
        &vec![],
        &body,
        &vec![8],
        &vec![false],
        &vec![],
        false,
    )
    .unwrap();
    let first = added(ScalarExpr::Var(0), 1);
    assert_eq!(
        p.back_edges[0].next_values,
        vec![ScalarExpr::Ite(
            Box::new(compared(CmpOp::Lt, first.clone(), number(3))),
            Box::new(number(7)),
            Box::new(first),
        )]
    );
}
