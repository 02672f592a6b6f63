//! Program points and their numbers.
use crate::text;
use vstd::prelude::*;

verus! {

/// A block of the control flow graph.
#[derive(Clone, Copy, Debug, PartialEq, Eq, Structural)]
pub struct BlockId(pub usize);

/// An expression of a statement of a block.
#[derive(Clone, Copy, Debug, PartialEq, Eq, Structural)]
pub struct Point {
    pub block: BlockId,
    pub stmt: usize,
    pub expr: usize,
}

/// An index that the numbering of points has no room for.
#[derive(Clone, Copy, Debug, PartialEq, Eq, Structural)]
pub enum PointOverflow {
    Stmt(usize),
    Expr(usize),
    Block(usize),
}

impl PointOverflow {
    /// The text of the message.
    pub open spec fn text(self) -> Seq<char> {
        let head = "the function's CFG exceeds the point-encoding capacity: "@;
        match self {
            PointOverflow::Stmt(n) => head + "statement index "@ + text::decimal(n as nat)
                + " is beyond the 2^20 bound"@,
            PointOverflow::Expr(n) => head + "expression index "@ + text::decimal(n as nat)
                + " is beyond the 2^16 bound"@,
            PointOverflow::Block(n) => head + "block index "@ + text::decimal(n as nat)
                + " is beyond the 2^20 bound"@,
        }
    }

    /// The message for the user.
    pub fn message(&self) -> (r: String)
        ensures
            r@ == self.text(),
    {
        let mut s = String::new();
        s.push_str("the function's CFG exceeds the point-encoding capacity: ");
        match self {
            PointOverflow::Stmt(n) => {
                s.push_str("statement index ");
                text::push_decimal(&mut s, *n as u64);
                s.push_str(" is beyond the 2^20 bound");
            },
            PointOverflow::Expr(n) => {
                s.push_str("expression index ");
                text::push_decimal(&mut s, *n as u64);
                s.push_str(" is beyond the 2^16 bound");
            },
            PointOverflow::Block(n) => {
                s.push_str("block index ");
                text::push_decimal(&mut s, *n as u64);
                s.push_str(" is beyond the 2^20 bound");
            },
        }
        assert(s@ =~= self.text());
        s
    }
}

impl Point {
    /// The first index that is out of bounds, in the order statement,
    /// expression, block.
    pub open spec fn overflow(self) -> Option<PointOverflow> {
        if self.stmt >= 1_048_576 {
            Some(PointOverflow::Stmt(self.stmt))
        } else if self.expr >= 65_536 {
            Some(PointOverflow::Expr(self.expr))
        } else if self.block.0 >= 1_048_576 {
            Some(PointOverflow::Block(self.block.0))
        } else {
            None
        }
    }

    /// The number of the point: block, statement and expression in fields of
    /// 20, 20 and 16 bits.
    pub open spec fn code(self) -> u64 {
        (self.block.0 * 68_719_476_736 + self.stmt * 65_536 + self.expr) as u64
    }

    /// The number of the point, if there is room for it.
    pub open spec fn id(self) -> Result<u64, PointOverflow> {
        match self.overflow() {
            Some(e) => Err(e),
            None => Ok(self.code()),
        }
    }

    /// The point comes before the other one: by block, then statement, then
    /// expression.
    pub open spec fn precedes(self, other: Point) -> bool {
        ||| self.block.0 < other.block.0
        ||| self.block.0 == other.block.0 && self.stmt < other.stmt
        ||| self.block.0 == other.block.0 && self.stmt == other.stmt && self.expr < other.expr
    }

    /// The two points are in one statement.
    pub open spec fn same_stmt(self, other: Point) -> bool {
        self.block == other.block && self.stmt == other.stmt
    }
}

/// The number of the point, or why it has none.
pub fn point_id(p: Point) -> (r: Result<u64, PointOverflow>)
    ensures
        r == p.id(),
{
    if p.stmt >= 1_048_576 {
        return Err(PointOverflow::Stmt(p.stmt));
    }
    if p.expr >= 65_536 {
        return Err(PointOverflow::Expr(p.expr));
    }
    if p.block.0 >= 1_048_576 {
        return Err(PointOverflow::Block(p.block.0));
    }
    let b: u64 = p.block.0 as u64;
    let s: u64 = p.stmt as u64;
    let e: u64 = p.expr as u64;
    let r: u64 = (b << 36) | (s << 16) | e;
    assert(r == b * 68_719_476_736 + s * 65_536 + e) by (bit_vector)
        requires
            b < 1_048_576,
            s < 1_048_576,
            e < 65_536,
            r == (b << 36) | (s << 16) | e,
    ;
    Ok(r)
}

/// The numbers of points are ordered as the points are.
pub proof fn law_numbers_keep_order(p: Point, q: Point)
    requires
        p.overflow() is None,
        q.overflow() is None,
    ensures
        p.code() < q.code() <==> p.precedes(q),
        p.code() == q.code() <==> p == q,
{
}

/// Two points are in one statement iff their numbers agree above the low 16
/// bits.
pub proof fn law_numbers_show_statement(p: Point, q: Point)
    requires
        p.overflow() is None,
        q.overflow() is None,
    ensures
        p.same_stmt(q) <==> p.code() / 65_536 == q.code() / 65_536,
{
    assert(p.code() / 65_536 == p.block.0 * 1_048_576 + p.stmt);
    assert(q.code() / 65_536 == q.block.0 * 1_048_576 + q.stmt);
}

/// Whether the two numbers are of points in one statement.
pub fn same_stmt_number(a: u64, b: u64) -> (r: bool)
    ensures
        r == (a / 65_536 == b / 65_536),
{
    assert(a >> 16 == a / 65_536) by (bit_vector);
    assert(b >> 16 == b / 65_536) by (bit_vector);
    (a >> 16) == (b >> 16)
}

} // verus!
