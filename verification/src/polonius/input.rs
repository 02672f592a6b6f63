//! What is known of a function body before its facts are extracted.
use super::point::{BlockId, Point};
use crate::hir::HirStmt;
use crate::place::FrozenPlace;
use crate::symbol::{Span, Symbol};
use vstd::prelude::*;

verus! {

/// What a loan allows besides itself.
#[derive(Clone, Copy, Debug, PartialEq, Eq, Structural)]
pub enum LoanKind {
    /// Nothing else may touch the place.
    Exclusive,
    /// Others may read the place.
    ReadOnly,
}

/// A straight run of statements.
#[derive(Debug)]
pub struct Block {
    pub stmts: Vec<HirStmt>,
    pub succs: Vec<BlockId>,
}

/// The control flow of a function body. The point after the last statement
/// of a block is its terminator.
#[derive(Debug)]
pub struct CfgGraph {
    pub blocks: Vec<Block>,
}

/// The variables that each statement uses, by block and statement.
#[derive(Debug)]
pub struct PointLiveness {
    pub var_uses: Vec<Vec<Vec<Symbol>>>,
}

/// A borrow: what is borrowed, and the variable that holds the reference, if
/// one does.
#[derive(Debug)]
pub struct LoanSite {
    pub place: FrozenPlace,
    pub var: Option<Symbol>,
    pub kind: LoanKind,
    pub point: Point,
    pub span: Span,
}

/// An assignment that ends loans: those held by the variable, or, without
/// one, those of a related place.
#[derive(Debug)]
pub struct Kill {
    pub place: FrozenPlace,
    pub var: Option<Symbol>,
    pub point: Point,
}

/// The borrows, accesses and kills of a function body.
#[derive(Debug)]
pub struct BorrowData {
    pub loans: Vec<LoanSite>,
    /// The place, its point, whether it is read, and where.
    pub events: Vec<(FrozenPlace, Point, bool, Span)>,
    pub kills: Vec<Kill>,
    /// The number of expressions of each statement, by block and statement;
    /// one where there is no entry.
    pub counts: Vec<Vec<usize>>,
}

impl BorrowData {
    /// The number of expressions of a statement.
    pub open spec fn count(self, b: int, s: int) -> int {
        if 0 <= b < self.counts@.len() && 0 <= s < self.counts@[b]@.len() {
            self.counts@[b]@[s] as int
        } else {
            1
        }
    }

    /// Every statement has an expression, and the loans can be numbered.
    pub open spec fn wf(self) -> bool {
        &&& forall|b: int, s: int|
            0 <= b < self.counts@.len() && 0 <= s < self.counts@[b]@.len() ==> (
            #[trigger] self.counts@[b]@[s]) >= 1
        &&& self.loans@.len() + 1_000_000 <= u32::MAX
    }

    /// The number of expressions of a statement.
    pub fn expr_count(&self, b: usize, s: usize) -> (r: usize)
        requires
            self.wf(),
        ensures
            r == self.count(b as int, s as int),
            r >= 1,
    {
        if b < self.counts.len() && s < self.counts[b].len() {
            assert(self.counts@[b as int]@[s as int] >= 1);
            self.counts[b][s]
        } else {
            1
        }
    }
}

/// A loan and its numbers.
#[derive(Debug)]
pub struct LoanInfo {
    pub id: u32,
    pub origin: u32,
    /// The borrowed place; for a borrow through a reference, what the
    /// reference refers to.
    pub place: FrozenPlace,
    pub borrow_var: Option<Symbol>,
    pub kind: LoanKind,
    pub point: Point,
    pub span: Span,
    /// The loan of a method receiver: reserved, not active, until the
    /// arguments are evaluated.
    pub two_phase: bool,
}

impl Clone for LoanInfo {
    fn clone(&self) -> (r: Self)
        ensures
            r == *self,
    {
        LoanInfo {
            id: self.id,
            origin: self.origin,
            place: self.place.clone(),
            borrow_var: self.borrow_var,
            kind: self.kind,
            point: self.point,
            span: self.span,
            two_phase: self.two_phase,
        }
    }
}

/// The placeholder origins of a signature and the declared flows between
/// them.
#[derive(Debug)]
pub struct SignatureFacts {
    pub universal_region: Vec<u32>,
    pub known_placeholder_subset: Vec<(u32, u32)>,
    pub input_borrow_mutable: Vec<bool>,
}

/// What is known of a function that is called.
#[derive(Debug)]
pub struct CalleeEntry {
    pub name: Symbol,
    pub is_method: bool,
    /// The positions of the parameters that are references.
    pub positions: Vec<usize>,
    pub signature: SignatureFacts,
}

/// Whether the list holds the name.
pub fn holds_symbol(list: &Vec<Symbol>, v: Symbol) -> (r: bool)
    ensures
        r == list@.contains(v),
{
    let mut i: usize = 0;
    while i < list.len()
        invariant
            0 <= i <= list@.len(),
            forall|k: int| 0 <= k < i ==> list@[k] != v,
        decreases list.len() - i,
    {
        if list[i] == v {
            return true;
        }
        i += 1;
    }
    false
}

} // verus!
