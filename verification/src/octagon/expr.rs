//! Linear expressions and their intervals.
use vstd::prelude::*;
use crate::octagon::arith;
use crate::octagon::arith::{
    clipped_difference, clipped_product, clipped_sum, sat_add, sat_mul, sat_neg, sat_sub, DBM_INF,
};
use crate::octagon::dbm;
use crate::octagon::dbm::{Dbm, Oct};

verus! {

/// A linear expression over program variables.
#[derive(Debug, PartialEq)]
pub enum OctExpr {
    /// A constant.
    Const(i128),
    /// A variable, by its index.
    Var(usize),
    /// A sum.
    Add(Box<OctExpr>, Box<OctExpr>),
    /// A difference.
    Sub(Box<OctExpr>, Box<OctExpr>),
    /// A negation.
    Neg(Box<OctExpr>),
    /// A constant multiple.
    Scale(i128, Box<OctExpr>),
}

impl Clone for OctExpr {
    fn clone(&self) -> (r: Self)
        ensures
            r == *self,
        decreases *self,
    {
        match self {
            OctExpr::Const(c) => OctExpr::Const(*c),
            OctExpr::Var(i) => OctExpr::Var(*i),
            OctExpr::Add(l, r) => OctExpr::Add(
                Box::new((&**l).clone()),
                Box::new((&**r).clone()),
            ),
            OctExpr::Sub(l, r) => OctExpr::Sub(
                Box::new((&**l).clone()),
                Box::new((&**r).clone()),
            ),
            OctExpr::Neg(e) => OctExpr::Neg(Box::new((&**e).clone())),
            OctExpr::Scale(k, e) => OctExpr::Scale(*k, Box::new((&**e).clone())),
        }
    }
}

/// The bound, or the marker for none.
pub open spec fn or_else(b: Option<int>, none: int) -> int {
    match b {
        Some(v) => v,
        None => none,
    }
}

fn low_end_sum(a: i128, b: i128) -> (r: i128)
    ensures
        r == arith::low_sum(a as int, b as int),
{
    if a == i128::MIN || b == i128::MIN {
        i128::MIN
    } else {
        clipped_sum(a, b)
    }
}

fn low_end_difference(a: i128, b: i128) -> (r: i128)
    ensures
        r == arith::low_difference(a as int, b as int),
{
    if a == i128::MIN || b == DBM_INF {
        i128::MIN
    } else {
        clipped_difference(a, b)
    }
}

fn high_end_difference(a: i128, b: i128) -> (r: i128)
    ensures
        r == arith::high_difference(a as int, b as int),
{
    if a == DBM_INF || b == i128::MIN {
        DBM_INF
    } else {
        clipped_difference(a, b)
    }
}

/// Whether `x` is in the vector.
fn holds(v: &Vec<usize>, x: usize) -> (r: bool)
    ensures
        r == v@.contains(x),
{
    let mut t: usize = 0;
    while t < v.len()
        invariant
            0 <= t <= v@.len(),
            forall|u: int| 0 <= u < t ==> #[trigger] v@[u] != x,
        decreases v.len() - t,
    {
        if v[t] == x {
            return true;
        }
        t += 1;
    }
    false
}

/// `s` with `x` at its end, unless it is in `s`.
pub open spec fn with_var(s: Seq<usize>, x: usize) -> Seq<usize> {
    if s.contains(x) {
        s
    } else {
        s.push(x)
    }
}

impl OctExpr {
    /// Every variable index can be doubled.
    pub open spec fn indexable(self) -> bool
        decreases self,
    {
        match self {
            OctExpr::Const(_) => true,
            OctExpr::Var(i) => 2 * i + 1 <= usize::MAX,
            OctExpr::Add(l, r) => l.indexable() && r.indexable(),
            OctExpr::Sub(l, r) => l.indexable() && r.indexable(),
            OctExpr::Neg(e) => e.indexable(),
            OctExpr::Scale(_, e) => e.indexable(),
        }
    }

    /// The interval of the expression, by interval arithmetic over the bounds
    /// of the variables. The lower end `i128::MIN` and the upper end `DBM_INF`
    /// stand for no bound.
    pub open spec fn interval(self, o: Oct) -> (int, int)
        decreases self,
    {
        match self {
            OctExpr::Const(c) => (c as int, c as int),
            OctExpr::Var(i) => (
                or_else(o.lower(i as int), i128::MIN as int),
                or_else(o.upper(i as int), DBM_INF as int),
            ),
            OctExpr::Add(l, r) => (
                arith::low_sum(l.interval(o).0, r.interval(o).0),
                arith::spec_sat_add(l.interval(o).1, r.interval(o).1),
            ),
            OctExpr::Sub(l, r) => (
                arith::low_difference(l.interval(o).0, r.interval(o).1),
                arith::high_difference(l.interval(o).1, r.interval(o).0),
            ),
            OctExpr::Neg(e) => (
                arith::low_difference(0, e.interval(o).1),
                arith::high_difference(0, e.interval(o).0),
            ),
            OctExpr::Scale(k, e) => {
                let (lo, hi) = e.interval(o);
                if k == 0 {
                    (0, 0)
                } else if k > 0 {
                    (
                        if lo == i128::MIN {
                            i128::MIN as int
                        } else {
                            arith::clip(k * lo)
                        },
                        if hi == DBM_INF {
                            DBM_INF as int
                        } else {
                            arith::clip(k * hi)
                        },
                    )
                } else {
                    (
                        if hi == DBM_INF {
                            i128::MIN as int
                        } else {
                            arith::clip(k * hi)
                        },
                        if lo == i128::MIN {
                            DBM_INF as int
                        } else {
                            arith::clip(k * lo)
                        },
                    )
                }
            },
        }
    }

    /// The variables of the expression, each once, in the order in which they
    /// are met, after those that are there already.
    pub open spec fn vars_after(self, seen: Seq<usize>) -> Seq<usize>
        decreases self,
    {
        match self {
            OctExpr::Const(_) => seen,
            OctExpr::Var(i) => with_var(seen, i),
            OctExpr::Add(l, r) => r.vars_after(l.vars_after(seen)),
            OctExpr::Sub(l, r) => r.vars_after(l.vars_after(seen)),
            OctExpr::Neg(e) => e.vars_after(seen),
            OctExpr::Scale(_, e) => e.vars_after(seen),
        }
    }

    /// A variable.
    pub fn var(i: usize) -> (r: Self)
        ensures
            r == OctExpr::Var(i),
    {
        OctExpr::Var(i)
    }

    /// A constant.
    pub fn konst(c: i128) -> (r: Self)
        ensures
            r == OctExpr::Const(c),
    {
        OctExpr::Const(c)
    }

    /// A sum; two constants are folded.
    pub fn add(self, rhs: OctExpr) -> (r: Self)
        ensures
            match (self, rhs) {
                (OctExpr::Const(a), OctExpr::Const(b)) => r matches OctExpr::Const(c) && c
                    == arith::spec_sat_add(a as int, b as int),
                _ => r == OctExpr::Add(Box::new(self), Box::new(rhs)),
            },
    {
        match (self, rhs) {
            (OctExpr::Const(a), OctExpr::Const(b)) => OctExpr::Const(sat_add(a, b)),
            (a, b) => OctExpr::Add(Box::new(a), Box::new(b)),
        }
    }

    /// A difference; two constants are folded.
    pub fn sub(self, rhs: OctExpr) -> (r: Self)
        ensures
            match (self, rhs) {
                (OctExpr::Const(a), OctExpr::Const(b)) => r matches OctExpr::Const(c) && c
                    == arith::spec_sat_sub(a as int, b as int),
                _ => r == OctExpr::Sub(Box::new(self), Box::new(rhs)),
            },
    {
        match (self, rhs) {
            (OctExpr::Const(a), OctExpr::Const(b)) => OctExpr::Const(sat_sub(a, b)),
            (a, b) => OctExpr::Sub(Box::new(a), Box::new(b)),
        }
    }

    /// A negation; a constant is folded.
    pub fn neg(self) -> (r: Self)
        ensures
            match self {
                OctExpr::Const(a) => r matches OctExpr::Const(c) && c == arith::spec_sat_neg(
                    a as int,
                ),
                _ => r == OctExpr::Neg(Box::new(self)),
            },
    {
        match self {
            OctExpr::Const(a) => OctExpr::Const(sat_neg(a)),
            a => OctExpr::Neg(Box::new(a)),
        }
    }

    /// A constant multiple; zero times anything is zero, and a constant is
    /// folded.
    pub fn scale(k: i128, inner: OctExpr) -> (r: Self)
        ensures
            k == 0 ==> r == OctExpr::Const(0),
            k != 0 ==> match inner {
                OctExpr::Const(a) => r matches OctExpr::Const(c) && c == arith::spec_sat_mul(
                    k as int,
                    a as int,
                ),
                _ => r == OctExpr::Scale(k, Box::new(inner)),
            },
    {
        if k == 0 {
            return OctExpr::Const(0);
        }
        match inner {
            OctExpr::Const(a) => OctExpr::Const(sat_mul(k, a)),
            inner => OctExpr::Scale(k, Box::new(inner)),
        }
    }

    /// Evaluates the expression over the bounds of the variables.
    pub fn eval_interval(&self, dbm: &Dbm) -> (r: (i128, i128))
        requires
            dbm.wf(),
            self.indexable(),
        ensures
            r.0 == self.interval(dbm@).0,
            r.1 == self.interval(dbm@).1,
        decreases *self,
    {
        match self {
            OctExpr::Const(c) => (*c, *c),
            OctExpr::Var(i) => {
                let lo: i128 = match dbm.var_lb(*i) {
                    Some(v) => v,
                    None => i128::MIN,
                };
                let hi: i128 = match dbm.var_ub(*i) {
                    Some(v) => v,
                    None => DBM_INF,
                };
                (lo, hi)
            },
            OctExpr::Add(l, r) => {
                let (a, b) = l.eval_interval(dbm);
                let (c, d) = r.eval_interval(dbm);
                (low_end_sum(a, c), sat_add(b, d))
            },
            OctExpr::Sub(l, r) => {
                let (a, b) = l.eval_interval(dbm);
                let (c, d) = r.eval_interval(dbm);
                (low_end_difference(a, d), high_end_difference(b, c))
            },
            OctExpr::Neg(e) => {
                let (a, b) = e.eval_interval(dbm);
                (low_end_difference(0, b), high_end_difference(0, a))
            },
            OctExpr::Scale(k, e) => {
                if *k == 0 {
                    return (0, 0);
                }
                let (a, b) = e.eval_interval(dbm);
                if *k > 0 {
                    let lo: i128 = if a == i128::MIN {
                        i128::MIN
                    } else {
                        clipped_product(*k, a)
                    };
                    let hi: i128 = if b == DBM_INF {
                        DBM_INF
                    } else {
                        clipped_product(*k, b)
                    };
                    (lo, hi)
                } else {
                    let lo: i128 = if b == DBM_INF {
                        i128::MIN
                    } else {
                        clipped_product(*k, b)
                    };
                    let hi: i128 = if a == i128::MIN {
                        DBM_INF
                    } else {
                        clipped_product(*k, a)
                    };
                    (lo, hi)
                }
            },
        }
    }

    /// Collects the variables of the expression.
    pub fn free_vars(&self, out: &mut Vec<usize>)
        ensures
            final(out)@ == self.vars_after(old(out)@),
        decreases *self,
    {
        match self {
            OctExpr::Const(_) => {},
            OctExpr::Var(i) => {
                if !holds(out, *i) {
                    out.push(*i);
                }
            },
            OctExpr::Add(l, r) => {
                l.free_vars(out);
                r.free_vars(out);
            },
            OctExpr::Sub(l, r) => {
                l.free_vars(out);
                r.free_vars(out);
            },
            OctExpr::Neg(e) => e.free_vars(out),
            OctExpr::Scale(_, e) => e.free_vars(out),
        }
    }
}

} // verus!
