//! Loop problems.
use super::big::BigNum;
use crate::symbol::Symbol;
use vstd::prelude::*;

verus! {

/// A scalar variable of a loop.
#[derive(Clone, Copy, Debug, PartialEq, Eq, Structural)]
pub struct BiiVar {
    pub symbol: Symbol,
    /// The number of bits.
    pub bw: u8,
    /// The variable is a signed integer.
    pub signed: bool,
}

/// What arithmetic does where the result does not fit.
#[derive(Clone, Copy, Debug, PartialEq, Eq, Structural)]
pub enum ArithSem {
    /// It wraps around.
    Wrap,
    /// It stops at the bound.
    Saturate,
    /// It is not defined.
    Trap,
}

/// A scalar expression.
#[derive(Debug, PartialEq, Eq)]
pub enum ScalarExpr {
    Var(usize),
    Const(BigNum),
    Add(Box<ScalarExpr>, Box<ScalarExpr>, ArithSem),
    Sub(Box<ScalarExpr>, Box<ScalarExpr>, ArithSem),
    /// One or the other, by a condition.
    Ite(Box<Cond>, Box<ScalarExpr>, Box<ScalarExpr>),
}

/// A comparison.
#[derive(Clone, Copy, Debug, PartialEq, Eq, Structural)]
pub enum CmpOp {
    Lt,
    Le,
    Gt,
    Ge,
    Eq,
    Neq,
}

/// A condition.
#[derive(Debug, PartialEq, Eq)]
pub enum Cond {
    True,
    False,
    Cmp {
        op: CmpOp,
        lhs: Box<ScalarExpr>,
        rhs: Box<ScalarExpr>,
        /// The comparison is one of signed integers.
        signed: bool,
    },
    And(Box<Cond>, Box<Cond>),
    Or(Box<Cond>, Box<Cond>),
    Not(Box<Cond>),
}

/// Where a transition leads.
#[derive(Clone, Copy, Debug, PartialEq, Eq, Structural)]
pub enum EdgeKind {
    /// Back to the head of the loop.
    Back,
    /// Out of the loop.
    Exit,
}

/// A transition.
#[derive(Debug, PartialEq, Eq)]
pub struct TransitionEdge {
    pub kind: EdgeKind,
    /// When it is taken; always, where nothing is said.
    pub guard: Option<Cond>,
    /// When its arithmetic is defined; always, where nothing is said.
    pub definedness: Option<Cond>,
    /// The next value of each variable.
    pub next_values: Vec<ScalarExpr>,
}

/// A loop problem.
#[derive(Debug, PartialEq, Eq)]
pub struct BiiLoopProblem {
    /// The variables that the loop changes.
    pub vars: Vec<BiiVar>,
    /// The variables that the loop only reads.
    pub params: Vec<BiiVar>,
    /// The values before the loop.
    pub init: Vec<ScalarExpr>,
    /// The condition at the head of the loop.
    pub loop_guard: Cond,
    pub back_edges: Vec<TransitionEdge>,
    pub exit_edges: Vec<TransitionEdge>,
    /// The additions that stop at the bound.
    pub saturates: Vec<(usize, i128)>,
    /// What holds after the loop.
    pub post: Option<Cond>,
}

/// One step of a loop.
#[derive(Debug, PartialEq, Eq)]
pub enum LoopInstr {
    /// `x <= c` has to hold at the head.
    TestLe(usize, i128),
    /// `x >= c` has to hold at the head.
    TestGe(usize, i128),
    /// `x - y <= c` has to hold at the head.
    TestDiffLe(usize, usize, i128),
    /// `x := x + c`.
    AddVar(usize, i128),
    /// `x := x + c`, stopping at the bound.
    AddSat(usize, i128),
    /// `x := c`.
    ConstVar(usize, i128),
    /// `x := y`.
    CopyVar(usize, usize),
    If(Box<Cond>, Vec<LoopInstr>, Vec<LoopInstr>),
}

// ---------------------------------------------------------------------------
// Models
// ---------------------------------------------------------------------------

/// A scalar expression, with its constants as integers.
pub enum Scalar {
    Var(usize),
    Const(int),
    Add(Box<Scalar>, Box<Scalar>, ArithSem),
    Sub(Box<Scalar>, Box<Scalar>, ArithSem),
    Ite(Box<Condition>, Box<Scalar>, Box<Scalar>),
}

/// A condition, with its constants as integers.
pub enum Condition {
    True,
    False,
    Compare { op: CmpOp, lhs: Box<Scalar>, rhs: Box<Scalar>, signed: bool },
    And(Box<Condition>, Box<Condition>),
    Or(Box<Condition>, Box<Condition>),
    Not(Box<Condition>),
}

impl View for ScalarExpr {
    type V = Scalar;

    open spec fn view(&self) -> Scalar {
        self.model()
    }
}

impl View for Cond {
    type V = Condition;

    open spec fn view(&self) -> Condition {
        self.model()
    }
}

impl ScalarExpr {
    pub open spec fn model(self) -> Scalar
        decreases self,
    {
        match self {
            ScalarExpr::Var(i) => Scalar::Var(i),
            ScalarExpr::Const(c) => Scalar::Const(c@),
            ScalarExpr::Add(l, r, sem) => Scalar::Add(
                Box::new(l.model()),
                Box::new(r.model()),
                sem,
            ),
            ScalarExpr::Sub(l, r, sem) => Scalar::Sub(
                Box::new(l.model()),
                Box::new(r.model()),
                sem,
            ),
            ScalarExpr::Ite(c, t, e) => Scalar::Ite(
                Box::new(c.model()),
                Box::new(t.model()),
                Box::new(e.model()),
            ),
        }
    }

    /// A copy.
    pub fn duplicate(&self) -> (r: ScalarExpr)
        ensures
            r@ == self@,
        decreases *self,
    {
        match self {
            ScalarExpr::Var(i) => ScalarExpr::Var(*i),
            ScalarExpr::Const(c) => ScalarExpr::Const(c.clone()),
            ScalarExpr::Add(l, r, sem) => ScalarExpr::Add(
                Box::new(l.duplicate()),
                Box::new(r.duplicate()),
                *sem,
            ),
            ScalarExpr::Sub(l, r, sem) => ScalarExpr::Sub(
                Box::new(l.duplicate()),
                Box::new(r.duplicate()),
                *sem,
            ),
            ScalarExpr::Ite(c, t, e) => ScalarExpr::Ite(
                Box::new(c.duplicate()),
                Box::new(t.duplicate()),
                Box::new(e.duplicate()),
            ),
        }
    }

    /// Two expressions are the same.
    pub fn same(&self, other: &ScalarExpr) -> (r: bool)
        ensures
            r == (self@ == other@),
        decreases *self,
    {
        match (self, other) {
            (ScalarExpr::Var(i), ScalarExpr::Var(j)) => *i == *j,
            (ScalarExpr::Const(c), ScalarExpr::Const(d)) => c.same(d),
            (ScalarExpr::Add(a, b, s), ScalarExpr::Add(c, d, t)) => *s == *t && a.same(c)
                && b.same(d),
            (ScalarExpr::Sub(a, b, s), ScalarExpr::Sub(c, d, t)) => *s == *t && a.same(c)
                && b.same(d),
            (ScalarExpr::Ite(a, b, c), ScalarExpr::Ite(d, e, f)) => a.same(d) && b.same(e)
                && c.same(f),
            _ => false,
        }
    }
}

impl Clone for ScalarExpr {
    fn clone(&self) -> (r: Self)
        ensures
            r@ == self@,
    {
        self.duplicate()
    }
}

impl Cond {
    pub open spec fn model(self) -> Condition
        decreases self,
    {
        match self {
            Cond::True => Condition::True,
            Cond::False => Condition::False,
            Cond::Cmp { op, lhs, rhs, signed } => Condition::Compare {
                op,
                lhs: Box::new(lhs.model()),
                rhs: Box::new(rhs.model()),
                signed,
            },
            Cond::And(a, b) => Condition::And(Box::new(a.model()), Box::new(b.model())),
            Cond::Or(a, b) => Condition::Or(Box::new(a.model()), Box::new(b.model())),
            Cond::Not(a) => Condition::Not(Box::new(a.model())),
        }
    }

    /// A copy.
    pub fn duplicate(&self) -> (r: Cond)
        ensures
            r@ == self@,
        decreases *self,
    {
        match self {
            Cond::True => Cond::True,
            Cond::False => Cond::False,
            Cond::Cmp { op, lhs, rhs, signed } => Cond::Cmp {
                op: *op,
                lhs: Box::new(lhs.duplicate()),
                rhs: Box::new(rhs.duplicate()),
                signed: *signed,
            },
            Cond::And(a, b) => Cond::And(Box::new(a.duplicate()), Box::new(b.duplicate())),
            Cond::Or(a, b) => Cond::Or(Box::new(a.duplicate()), Box::new(b.duplicate())),
            Cond::Not(a) => Cond::Not(Box::new(a.duplicate())),
        }
    }

    /// Two conditions are the same.
    pub fn same(&self, other: &Cond) -> (r: bool)
        ensures
            r == (self@ == other@),
        decreases *self,
    {
        match (self, other) {
            (Cond::True, Cond::True) => true,
            (Cond::False, Cond::False) => true,
            (
                Cond::Cmp { op: p, lhs: a, rhs: b, signed: s },
                Cond::Cmp { op: q, lhs: c, rhs: d, signed: t },
            ) => *p == *q && *s == *t && a.same(c) && b.same(d),
            (Cond::And(a, b), Cond::And(c, d)) => a.same(c) && b.same(d),
            (Cond::Or(a, b), Cond::Or(c, d)) => a.same(c) && b.same(d),
            (Cond::Not(a), Cond::Not(b)) => a.same(b),
            _ => false,
        }
    }
}

impl Clone for Cond {
    fn clone(&self) -> (r: Self)
        ensures
            r@ == self@,
    {
        self.duplicate()
    }
}

/// The models of expressions.
pub open spec fn models(list: Seq<ScalarExpr>) -> Seq<Scalar> {
    Seq::new(list.len(), |k: int| list[k].model())
}

/// The model of an optional condition.
pub open spec fn optional_model(c: Option<Cond>) -> Option<Condition> {
    match c {
        Some(x) => Some(x.model()),
        None => None,
    }
}

// ---------------------------------------------------------------------------
// Meaning
// ---------------------------------------------------------------------------

impl Scalar {
    /// The value of an expression in a state, over the integers.
    pub open spec fn value(self, s: Seq<int>) -> int
        decreases self,
    {
        match self {
            Scalar::Var(i) => s[i as int],
            Scalar::Const(c) => c,
            Scalar::Add(l, r, _) => l.value(s) + r.value(s),
            Scalar::Sub(l, r, _) => l.value(s) - r.value(s),
            Scalar::Ite(c, t, e) => if c.holds(s) {
                t.value(s)
            } else {
                e.value(s)
            },
        }
    }
}

impl Condition {
    /// A condition holds in a state, over the integers.
    pub open spec fn holds(self, s: Seq<int>) -> bool
        decreases self,
    {
        match self {
            Condition::True => true,
            Condition::False => false,
            Condition::Compare { op, lhs, rhs, signed } => match op {
                CmpOp::Lt => lhs.value(s) < rhs.value(s),
                CmpOp::Le => lhs.value(s) <= rhs.value(s),
                CmpOp::Gt => lhs.value(s) > rhs.value(s),
                CmpOp::Ge => lhs.value(s) >= rhs.value(s),
                CmpOp::Eq => lhs.value(s) == rhs.value(s),
                CmpOp::Neq => lhs.value(s) != rhs.value(s),
            },
            Condition::And(a, b) => a.holds(s) && b.holds(s),
            Condition::Or(a, b) => a.holds(s) || b.holds(s),
            Condition::Not(a) => !a.holds(s),
        }
    }
}

// ---------------------------------------------------------------------------
// Replacing variables
// ---------------------------------------------------------------------------

impl Scalar {
    /// The expression with the variables that have one replaced by an
    /// expression.
    pub open spec fn replaced(self, by: Seq<Scalar>) -> Scalar
        decreases self,
    {
        match self {
            Scalar::Var(i) => if i < by.len() {
                by[i as int]
            } else {
                self
            },
            Scalar::Const(c) => self,
            Scalar::Add(l, r, sem) => Scalar::Add(
                Box::new(l.replaced(by)),
                Box::new(r.replaced(by)),
                sem,
            ),
            Scalar::Sub(l, r, sem) => Scalar::Sub(
                Box::new(l.replaced(by)),
                Box::new(r.replaced(by)),
                sem,
            ),
            Scalar::Ite(c, t, e) => Scalar::Ite(
                Box::new(c.replaced(by)),
                Box::new(t.replaced(by)),
                Box::new(e.replaced(by)),
            ),
        }
    }

    /// Every variable of the expression is among the first `n`.
    pub open spec fn names_below(self, n: nat) -> bool
        decreases self,
    {
        match self {
            Scalar::Var(i) => i < n,
            Scalar::Const(c) => true,
            Scalar::Add(l, r, _) => l.names_below(n) && r.names_below(n),
            Scalar::Sub(l, r, _) => l.names_below(n) && r.names_below(n),
            Scalar::Ite(c, t, e) => c.names_below(n) && t.names_below(n) && e.names_below(n),
        }
    }
}

impl Condition {
    /// The condition with the variables that have one replaced by an
    /// expression.
    pub open spec fn replaced(self, by: Seq<Scalar>) -> Condition
        decreases self,
    {
        match self {
            Condition::True => self,
            Condition::False => self,
            Condition::Compare { op, lhs, rhs, signed } => Condition::Compare {
                op,
                lhs: Box::new(lhs.replaced(by)),
                rhs: Box::new(rhs.replaced(by)),
                signed,
            },
            Condition::And(a, b) => Condition::And(
                Box::new(a.replaced(by)),
                Box::new(b.replaced(by)),
            ),
            Condition::Or(a, b) => Condition::Or(
                Box::new(a.replaced(by)),
                Box::new(b.replaced(by)),
            ),
            Condition::Not(a) => Condition::Not(Box::new(a.replaced(by))),
        }
    }

    /// Every variable of the condition is among the first `n`.
    pub open spec fn names_below(self, n: nat) -> bool
        decreases self,
    {
        match self {
            Condition::True => true,
            Condition::False => true,
            Condition::Compare { op, lhs, rhs, signed } => lhs.names_below(n) && rhs.names_below(
                n,
            ),
            Condition::And(a, b) => a.names_below(n) && b.names_below(n),
            Condition::Or(a, b) => a.names_below(n) && b.names_below(n),
            Condition::Not(a) => a.names_below(n),
        }
    }
}

impl ScalarExpr {
    /// The expression with the variables that have one replaced by an
    /// expression.
    pub fn replace(&self, by: &Vec<ScalarExpr>) -> (r: ScalarExpr)
        ensures
            r@ == self@.replaced(models(by@)),
        decreases *self,
    {
        match self {
            ScalarExpr::Var(i) => if *i < by.len() {
                assert(models(by@)[*i as int] == by@[*i as int].model());
                by[*i].duplicate()
            } else {
                ScalarExpr::Var(*i)
            },
            ScalarExpr::Const(c) => ScalarExpr::Const(c.clone()),
            ScalarExpr::Add(l, r, sem) => ScalarExpr::Add(
                Box::new(l.replace(by)),
                Box::new(r.replace(by)),
                *sem,
            ),
            ScalarExpr::Sub(l, r, sem) => ScalarExpr::Sub(
                Box::new(l.replace(by)),
                Box::new(r.replace(by)),
                *sem,
            ),
            ScalarExpr::Ite(c, t, e) => ScalarExpr::Ite(
                Box::new(c.replace(by)),
                Box::new(t.replace(by)),
                Box::new(e.replace(by)),
            ),
        }
    }
}

impl Cond {
    /// The condition with the variables that have one replaced by an
    /// expression.
    pub fn replace(&self, by: &Vec<ScalarExpr>) -> (r: Cond)
        ensures
            r@ == self@.replaced(models(by@)),
        decreases *self,
    {
        match self {
            Cond::True => Cond::True,
            Cond::False => Cond::False,
            Cond::Cmp { op, lhs, rhs, signed } => Cond::Cmp {
                op: *op,
                lhs: Box::new(lhs.replace(by)),
                rhs: Box::new(rhs.replace(by)),
                signed: *signed,
            },
            Cond::And(a, b) => Cond::And(Box::new(a.replace(by)), Box::new(b.replace(by))),
            Cond::Or(a, b) => Cond::Or(Box::new(a.replace(by)), Box::new(b.replace(by))),
            Cond::Not(a) => Cond::Not(Box::new(a.replace(by))),
        }
    }
}

/// In the state `t`, the expressions have the values of the first `n`
/// variables in the state `s`.
pub open spec fn stand_for(by: Seq<Scalar>, t: Seq<int>, n: nat, s: Seq<int>) -> bool {
    forall|i: int|
        0 <= i < n ==> #[trigger] s[i] == if i < by.len() {
            by[i].value(t)
        } else {
            t[i]
        }
}

/// Replacing variables by expressions of the same values keeps the value.
pub proof fn law_replacing_keeps_value(
    e: Scalar,
    by: Seq<Scalar>,
    t: Seq<int>,
    n: nat,
    s: Seq<int>,
)
    requires
        e.names_below(n),
        stand_for(by, t, n, s),
    ensures
        e.replaced(by).value(t) == e.value(s),
    decreases e,
{
    match e {
        Scalar::Var(i) => {
            assert(s[i as int] == s[i as int]);
        },
        Scalar::Const(c) => {},
        Scalar::Add(l, r, _) => {
            law_replacing_keeps_value(*l, by, t, n, s);
            law_replacing_keeps_value(*r, by, t, n, s);
        },
        Scalar::Sub(l, r, _) => {
            law_replacing_keeps_value(*l, by, t, n, s);
            law_replacing_keeps_value(*r, by, t, n, s);
        },
        Scalar::Ite(c, a, b) => {
            law_replacing_keeps_truth(*c, by, t, n, s);
            law_replacing_keeps_value(*a, by, t, n, s);
            law_replacing_keeps_value(*b, by, t, n, s);
        },
    }
}

/// Replacing variables by expressions of the same values keeps whether a
/// condition holds.
pub proof fn law_replacing_keeps_truth(
    c: Condition,
    by: Seq<Scalar>,
    t: Seq<int>,
    n: nat,
    s: Seq<int>,
)
    requires
        c.names_below(n),
        stand_for(by, t, n, s),
    ensures
        c.replaced(by).holds(t) == c.holds(s),
    decreases c,
{
    match c {
        Condition::True => {},
        Condition::False => {},
        Condition::Compare { op, lhs, rhs, signed } => {
            law_replacing_keeps_value(*lhs, by, t, n, s);
            law_replacing_keeps_value(*rhs, by, t, n, s);
        },
        Condition::And(a, b) => {
            law_replacing_keeps_truth(*a, by, t, n, s);
            law_replacing_keeps_truth(*b, by, t, n, s);
        },
        Condition::Or(a, b) => {
            law_replacing_keeps_truth(*a, by, t, n, s);
            law_replacing_keeps_truth(*b, by, t, n, s);
        },
        Condition::Not(a) => law_replacing_keeps_truth(*a, by, t, n, s),
    }
}

} // verus!
