//! The typed tree of a function body, as far as the borrow analysis reads it.
use crate::place::FrozenPlace;
use crate::symbol::{Span, Symbol};
use vstd::prelude::*;

verus! {

/// A prefix operator.
#[derive(Clone, Copy, Debug, PartialEq, Eq, Structural)]
pub enum UnaryOp {
    Deref,
    Ref,
    RefMut,
    Ro,
    Neg,
    Not,
}

/// An expression.
#[derive(Debug)]
pub enum HirExpr {
    Ident(Symbol),
    Int(u64),
    FieldAccess { base: Box<HirExpr>, field: Symbol },
    Index { base: Box<HirExpr>, index: Box<HirExpr> },
    UnaryOp { op: UnaryOp, expr: Box<HirExpr> },
    BinaryOp { left: Box<HirExpr>, right: Box<HirExpr> },
    Call { callee: Box<HirExpr>, args: Vec<HirExpr> },
    Tuple(Vec<HirExpr>),
    Array(Vec<HirExpr>),
    StructLit { fields: Vec<(Symbol, HirExpr)> },
    Move(Box<HirExpr>),
    If { then_branch: Vec<HirStmt>, else_branch: Option<Vec<HirStmt>> },
    IfLet { then_branch: Vec<HirStmt>, else_branch: Option<Vec<HirStmt>> },
    /// The bodies of the arms.
    Match { arms: Vec<HirExpr> },
    Block(Vec<HirStmt>),
    /// Anything that names no place and holds no call.
    Other,
}

/// A statement.
#[derive(Debug)]
pub enum HirStmt {
    VariableDef { name: Option<Symbol>, value: Option<HirExpr> },
    Assign { target: HirExpr, value: HirExpr },
    Return { value: Option<HirExpr>, span: Span },
    Expression(HirExpr),
    If { then_branch: Vec<HirStmt>, else_branch: Option<Vec<HirStmt>> },
    IfLet { then_branch: Vec<HirStmt>, else_branch: Option<Vec<HirStmt>> },
    While { body: Vec<HirStmt> },
    WhileLet { body: Vec<HirStmt> },
    For { body: Vec<HirStmt> },
    Loop { body: Vec<HirStmt> },
    /// A statement without a value.
    Other,
}

impl HirExpr {
    /// The place that the expression names.
    pub open spec fn place(self) -> Option<FrozenPlace>
        decreases self,
    {
        match self {
            HirExpr::Ident(v) => Some(FrozenPlace::Root(v)),
            HirExpr::FieldAccess { base, field } => match base.place() {
                Some(p) => Some(FrozenPlace::Field(Box::new(p), field)),
                None => None,
            },
            HirExpr::Index { base, index } => match base.place() {
                Some(p) => match *index {
                    HirExpr::Int(k) => Some(FrozenPlace::ConstIndex(Box::new(p), k)),
                    _ => Some(FrozenPlace::Index(Box::new(p))),
                },
                None => None,
            },
            HirExpr::UnaryOp { op: UnaryOp::Deref, expr } => match expr.place() {
                Some(p) => Some(FrozenPlace::Deref(Box::new(p))),
                None => None,
            },
            _ => None,
        }
    }
}

/// The place that the expression names.
pub fn hir_expr_place(e: &HirExpr) -> (r: Option<FrozenPlace>)
    ensures
        r == e.place(),
    decreases *e,
{
    match e {
        HirExpr::Ident(v) => Some(FrozenPlace::Root(*v)),
        HirExpr::FieldAccess { base, field } => match hir_expr_place(base) {
            Some(p) => Some(FrozenPlace::Field(Box::new(p), *field)),
            None => None,
        },
        HirExpr::Index { base, index } => match hir_expr_place(base) {
            Some(p) => match &**index {
                HirExpr::Int(k) => Some(FrozenPlace::ConstIndex(Box::new(p), *k)),
                _ => Some(FrozenPlace::Index(Box::new(p))),
            },
            None => None,
        },
        HirExpr::UnaryOp { op: UnaryOp::Deref, expr } => match hir_expr_place(expr) {
            Some(p) => Some(FrozenPlace::Deref(Box::new(p))),
            None => None,
        },
        _ => None,
    }
}

} // verus!
