//! What is extracted from a function body.
use super::extraction;
use super::extraction::Extraction;
use super::input::{Block, BorrowData, Kill, LoanInfo, LoanSite, PointLiveness};
use super::point::{Point, PointOverflow};
use crate::gather;
use crate::hir::{HirExpr, HirStmt};
use crate::place::FrozenPlace;
use crate::symbol::Symbol;
use vstd::prelude::*;

verus! {

/// The facts could be extracted.
pub open spec fn extracts(
    blocks: Seq<Block>,
    body: Seq<HirStmt>,
    live: PointLiveness,
    data: BorrowData,
    x: Extraction,
) -> bool {
    extraction::extraction(blocks, body, live, data) == Ok::<Extraction, PointOverflow>(x)
}

// ---------------------------------------------------------------------------
// Control flow
// ---------------------------------------------------------------------------

/// Control goes from expression `e` of statement `s` of block `b` to expression `f` of
/// statement `t` of block `c`: within a statement, to the next statement, where the one
/// after the last is the terminator, or from the end of the terminator to the start of a
/// block that comes after.
pub open spec fn goes(
    blocks: Seq<Block>,
    data: BorrowData,
    b: int,
    s: int,
    e: int,
    c: int,
    t: int,
    f: int,
) -> bool {
    let n = blocks[b].stmts@.len();
    &&& 0 <= b < blocks.len() && 0 <= s <= n && 0 <= e < data.count(b, s)
    &&& if e + 1 < data.count(b, s) {
        c == b && t == s && f == e + 1
    } else if s < n {
        c == b && t == s + 1 && f == 0
    } else {
        &&& exists|k: int| 0 <= k < blocks[b].succs@.len() && (#[trigger] blocks[b].succs@[k]).0 == c
        &&& t == 0 && f == 0
    }
}

proof fn lemma_chain(data: BorrowData, b: int, s: int, x: (u64, u64))
    requires
        gather::gather(data.chain(b, s), data.count(b, s) - 1) is Ok,
    ensures
        gather::gather(data.chain(b, s), data.count(b, s) - 1)->Ok_0.contains(x) <==> exists|e: int|
            0 <= e < data.count(b, s) - 1 && x == (
                (#[trigger] extraction::at(b, s, e)).code(),
                extraction::at(b, s, e + 1).code(),
            ),
{
    let f = data.chain(b, s);
    let n = data.count(b, s) - 1;
    gather::lemma_in_gathered(f, n, x);
    if exists|e: int| 0 <= e < n && (#[trigger] f(e))->Ok_0.contains(x) {
        let e = choose|e: int| 0 <= e < n && (#[trigger] f(e))->Ok_0.contains(x);
        assert(f(e) is Ok);
        assert(extraction::at(b, s, e).id() is Ok);
    }
    if exists|e: int|
        0 <= e < n && x == (
            (#[trigger] extraction::at(b, s, e)).code(),
            extraction::at(b, s, e + 1).code(),
        ) {
        let e = choose|e: int|
            0 <= e < n && x == (
                (#[trigger] extraction::at(b, s, e)).code(),
                extraction::at(b, s, e + 1).code(),
            );
        assert(f(e) is Ok);
        assert(f(e)->Ok_0[0] == x);
        assert(f(e)->Ok_0.contains(x));
    }
}

proof fn lemma_stmt_edges(data: BorrowData, b: int, s: int, x: (u64, u64))
    requires
        data.stmt_edges(b, s) is Ok,
        data.count(b, s) >= 1,
    ensures
        data.stmt_edges(b, s)->Ok_0.contains(x) <==> exists|e: int|
            0 <= e < data.count(b, s) && x == (
                (#[trigger] extraction::at(b, s, e)).code(),
                if e + 1 < data.count(b, s) {
                    extraction::at(b, s, e + 1).code()
                } else {
                    extraction::at(b, s + 1, 0).code()
                },
            ),
{
    let n = data.count(b, s);
    let one = gather::gather(data.chain(b, s), n - 1)->Ok_0;
    let last = (extraction::at(b, s, n - 1).code(), extraction::at(b, s + 1, 0).code());
    lemma_chain(data, b, s, x);
    gather::lemma_in_both(one, seq![last], x);
    assert(data.stmt_edges(b, s)->Ok_0 == one + seq![last]);
    assert(seq![last].contains(x) == (x == last)) by {
        assert(seq![last][0] == last);
    }
    if exists|e: int|
        0 <= e < n && x == (
            (#[trigger] extraction::at(b, s, e)).code(),
            if e + 1 < n {
                extraction::at(b, s, e + 1).code()
            } else {
                extraction::at(b, s + 1, 0).code()
            },
        ) {
        let e = choose|e: int|
            0 <= e < n && x == (
                (#[trigger] extraction::at(b, s, e)).code(),
                if e + 1 < n {
                    extraction::at(b, s, e + 1).code()
                } else {
                    extraction::at(b, s + 1, 0).code()
                },
            );
        if e == n - 1 {
            assert(x == last);
        }
    }
    if x == last {
        let e = n - 1;
        assert(x.0 == extraction::at(b, s, e).code());
    }
}

proof fn lemma_exit_edges(data: BorrowData, blk: Block, b: int, x: (u64, u64))
    requires
        data.exit_edges(blk, b) is Ok,
    ensures
        data.exit_edges(blk, b)->Ok_0.contains(x) <==> exists|k: int|
            0 <= k < blk.succs@.len() && x == (
                extraction::at(
                    b,
                    blk.stmts@.len() as int,
                    data.count(b, blk.stmts@.len() as int) - 1,
                ).code(),
                extraction::at((#[trigger] blk.succs@[k]).0 as int, 0, 0).code(),
            ),
{
    let n = blk.stmts@.len() as int;
    let term = extraction::at(b, n, data.count(b, n) - 1).code();
    let f = data.jumps(term, blk.succs@);
    gather::lemma_in_gathered(f, blk.succs@.len() as int, x);
    if exists|k: int| 0 <= k < blk.succs@.len() && (#[trigger] f(k))->Ok_0.contains(x) {
        let k = choose|k: int| 0 <= k < blk.succs@.len() && (#[trigger] f(k))->Ok_0.contains(x);
        assert(f(k) is Ok);
        assert(x == (term, extraction::at(blk.succs@[k].0 as int, 0, 0).code()));
    }
    if exists|k: int|
        0 <= k < blk.succs@.len() && x == (
            term,
            extraction::at((#[trigger] blk.succs@[k]).0 as int, 0, 0).code(),
        ) {
        let k = choose|k: int|
            0 <= k < blk.succs@.len() && x == (
                term,
                extraction::at((#[trigger] blk.succs@[k]).0 as int, 0, 0).code(),
            );
        assert(f(k) is Ok);
        assert(f(k)->Ok_0[0] == x);
        assert(f(k)->Ok_0.contains(x));
    }
}

/// Where control goes from one point to another, there is an edge between their numbers.
pub proof fn law_control_flow_is_extracted(
    blocks: Seq<Block>,
    body: Seq<HirStmt>,
    live: PointLiveness,
    data: BorrowData,
    x: Extraction,
    b: int,
    s: int,
    e: int,
    c: int,
    t: int,
    f: int,
)
    requires
        extracts(blocks, body, live, data, x),
        goes(blocks, data, b, s, e, c, t, f),
    ensures
        x.cfg_edge.contains((extraction::at(b, s, e).code(), extraction::at(c, t, f).code())),
{
    let y = (extraction::at(b, s, e).code(), extraction::at(c, t, f).code());
    let all = data.all_block_edges(blocks);
    gather::lemma_in_gathered(all, blocks.len() as int, y);
    assert(all(b) is Ok);
    let blk = blocks[b];
    let n = blk.stmts@.len() as int;
    let inner = gather::gather(data.all_stmt_edges(b), n)->Ok_0;
    let term = gather::gather(data.chain(b, n), data.count(b, n) - 1)->Ok_0;
    let exits = data.exit_edges(blk, b)->Ok_0;
    assert(all(b)->Ok_0 == inner + term + exits);
    gather::lemma_in_both(inner, term, y);
    gather::lemma_in_both(inner + term, exits, y);
    if s < n {
        let g = data.all_stmt_edges(b);
        gather::lemma_in_gathered(g, n, y);
        assert(g(s) == data.stmt_edges(b, s));
        assert(g(s) is Ok);
        lemma_stmt_edges(data, b, s, y);
        assert(y.0 == extraction::at(b, s, e).code());
        assert(g(s)->Ok_0.contains(y));
    } else if e + 1 < data.count(b, s) {
        lemma_chain(data, b, n, y);
        assert(y.0 == extraction::at(b, n, e).code());
    } else {
        lemma_exit_edges(data, blk, b, y);
        let k = choose|k: int| 0 <= k < blk.succs@.len() && (#[trigger] blk.succs@[k]).0 == c;
        assert(blk.succs@[k].0 as int == c);
    }
    assert(all(b)->Ok_0.contains(y));
}

/// There are no other edges.
pub proof fn law_edges_are_control_flow(
    blocks: Seq<Block>,
    body: Seq<HirStmt>,
    live: PointLiveness,
    data: BorrowData,
    x: Extraction,
    y: (u64, u64),
)
    requires
        extracts(blocks, body, live, data, x),
        data.wf(),
        x.cfg_edge.contains(y),
    ensures
        exists|b: int, s: int, e: int, c: int, t: int, f: int| #[trigger]
            goes(blocks, data, b, s, e, c, t, f) && y == (
                extraction::at(b, s, e).code(),
                extraction::at(c, t, f).code(),
            ),
{
    let all = data.all_block_edges(blocks);
    gather::lemma_in_gathered(all, blocks.len() as int, y);
    let b = choose|b: int| 0 <= b < blocks.len() && (#[trigger] all(b))->Ok_0.contains(y);
    assert(all(b) is Ok);
    let blk = blocks[b];
    let n = blk.stmts@.len() as int;
    assert(data.count(b, n) >= 1);
    let inner = gather::gather(data.all_stmt_edges(b), n)->Ok_0;
    let term = gather::gather(data.chain(b, n), data.count(b, n) - 1)->Ok_0;
    let exits = data.exit_edges(blk, b)->Ok_0;
    assert(all(b)->Ok_0 == inner + term + exits);
    gather::lemma_in_both(inner, term, y);
    gather::lemma_in_both(inner + term, exits, y);
    if inner.contains(y) {
        let g = data.all_stmt_edges(b);
        gather::lemma_in_gathered(g, n, y);
        let s = choose|s: int| 0 <= s < n && (#[trigger] g(s))->Ok_0.contains(y);
        assert(g(s) is Ok);
        assert(data.count(b, s) >= 1);
        lemma_stmt_edges(data, b, s, y);
        let e = choose|e: int|
            0 <= e < data.count(b, s) && y == (
                (#[trigger] extraction::at(b, s, e)).code(),
                if e + 1 < data.count(b, s) {
                    extraction::at(b, s, e + 1).code()
                } else {
                    extraction::at(b, s + 1, 0).code()
                },
            );
        if e + 1 < data.count(b, s) {
            assert(goes(blocks, data, b, s, e, b, s, e + 1));
        } else {
            assert(goes(blocks, data, b, s, e, b, s + 1, 0));
        }
    } else if term.contains(y) {
        lemma_chain(data, b, n, y);
        let e = choose|e: int|
            0 <= e < data.count(b, n) - 1 && y == (
                (#[trigger] extraction::at(b, n, e)).code(),
                extraction::at(b, n, e + 1).code(),
            );
        assert(goes(blocks, data, b, n, e, b, n, e + 1));
    } else {
        lemma_exit_edges(data, blk, b, y);
        let k = choose|k: int|
            0 <= k < blk.succs@.len() && y == (
                extraction::at(b, n, data.count(b, n) - 1).code(),
                extraction::at((#[trigger] blk.succs@[k]).0 as int, 0, 0).code(),
            );
        let c = blk.succs@[k].0 as int;
        assert(goes(blocks, data, b, n, data.count(b, n) - 1, c, 0, 0));
    }
}

// ---------------------------------------------------------------------------
// Loans
// ---------------------------------------------------------------------------

proof fn lemma_pass(data: BorrowData, live: PointLiveness, n: int, i: int)
    requires
        data.loan_pass(live, n) is Ok,
        0 <= i < n <= data.loans@.len(),
    ensures
        data.loan_pass(live, n)->Ok_0.issued.len() == n,
        data.loan_pass(live, n)->Ok_0.derefs.len() == n,
        data.loan_pass(live, n)->Ok_0.issued[i] == (
            i as u32,
            i as u32,
            data.loans@[i].point.code(),
        ),
        data.loan_pass(live, n)->Ok_0.derefs[i] == (extraction::loan_var(data.loans@, i), i as u32),
        data.loan_uses(live, i) is Ok,
        forall|y: (u32, u64)|
            data.loan_uses(live, i)->Ok_0.contains(y) ==> #[trigger] data.loan_pass(
                live,
                n,
            )->Ok_0.used.contains(y),
    decreases n,
{
    let p = data.loan_pass(live, n - 1)->Ok_0;
    let u = data.loan_uses(live, n - 1)->Ok_0;
    let q = data.loan_pass(live, n)->Ok_0;
    if i < n - 1 {
        lemma_pass(data, live, n - 1, i);
    } else if n > 1 {
        lemma_pass(data, live, n - 1, n - 2);
    } else {
        assert(p.issued.len() == 0);
        assert(p.derefs.len() == 0);
    }
    assert forall|y: (u32, u64)| data.loan_uses(live, i)->Ok_0.contains(y) implies #[trigger] q.used.contains(
        y,
    ) by {
        gather::lemma_in_both(p.used, u, y);
        if i < n - 1 {
            assert(p.used.contains(y));
        }
    }
}

/// Each loan is issued where it is made, with its own number as its origin, and keeps the
/// variable, the kind, the point and the position that it was made with.
pub proof fn law_loans_are_issued(
    blocks: Seq<Block>,
    body: Seq<HirStmt>,
    live: PointLiveness,
    data: BorrowData,
    x: Extraction,
    i: int,
)
    requires
        extracts(blocks, body, live, data, x),
        0 <= i < data.loans@.len(),
    ensures
        x.loans.issued.len() == data.loans@.len(),
        x.loans.issued[i] == (i as u32, i as u32, data.loans@[i].point.code()),
        x.infos.len() == data.loans@.len(),
        x.infos[i].id == i as u32,
        x.infos[i].origin == i as u32,
        x.infos[i].borrow_var == data.loans@[i].var,
        x.infos[i].kind == data.loans@[i].kind,
        x.infos[i].point == data.loans@[i].point,
        x.infos[i].span == data.loans@[i].span,
{
    lemma_pass(data, live, data.loans@.len() as int, i);
}

/// A variable that holds a loan keeps it alive: each statement that uses the variable is a
/// use of it, at the last expression, and a use of it reaches the origin of the loan.
pub proof fn law_uses_are_extracted(
    blocks: Seq<Block>,
    body: Seq<HirStmt>,
    live: PointLiveness,
    data: BorrowData,
    x: Extraction,
    i: int,
    v: Symbol,
    b: int,
    s: int,
)
    requires
        extracts(blocks, body, live, data, x),
        0 <= i < data.loans@.len(),
        data.loans@[i].var == Some(v),
        0 <= b < live.var_uses@.len(),
        0 <= s < live.var_uses@[b]@.len(),
        live.var_uses@[b]@[s]@.contains(v),
    ensures
        x.loans.used.contains((v.0, extraction::at(b, s, data.count(b, s) - 1).code())),
        x.loans.derefs.contains((v.0, i as u32)),
{
    let n = data.loans@.len() as int;
    lemma_pass(data, live, n, i);
    assert(x.loans.derefs[i] == (v.0, i as u32));
    let y = (v.0, extraction::at(b, s, data.count(b, s) - 1).code());
    let f = data.block_uses(live, v);
    gather::lemma_in_gathered(f, live.var_uses@.len() as int, y);
    assert(f(b) is Ok);
    let g = data.stmt_uses(live.var_uses@[b]@, v, b);
    gather::lemma_in_gathered(g, live.var_uses@[b]@.len() as int, y);
    assert(g(s) is Ok);
    assert(g(s)->Ok_0[0] == y);
    assert(g(s)->Ok_0.contains(y));
    assert(f(b)->Ok_0.contains(y));
    assert(data.loan_uses(live, i)->Ok_0.contains(y));
}

/// A loan that no variable holds has a variable of its own, with a number that is not
/// below a million, which is used at the end of the statement that makes the loan.
pub proof fn law_temporaries_last_for_their_statement(
    blocks: Seq<Block>,
    body: Seq<HirStmt>,
    live: PointLiveness,
    data: BorrowData,
    x: Extraction,
    i: int,
) -> (t: u32)
    requires
        extracts(blocks, body, live, data, x),
        data.wf(),
        0 <= i < data.loans@.len(),
        data.loans@[i].var is None,
    ensures
        t >= 1_000_000,
        x.loans.derefs.contains((t, i as u32)),
        ({
            let b = data.loans@[i].point.block.0 as int;
            let s = data.loans@[i].point.stmt as int;
            x.loans.used.contains((t, extraction::at(b, s, data.count(b, s) - 1).code()))
        }),
{
    let n = data.loans@.len() as int;
    lemma_pass(data, live, n, i);
    let t = extraction::loan_var(data.loans@, i);
    lemma_temporaries(data.loans@, i);
    assert(x.loans.derefs[i] == (t, i as u32));
    let b = data.loans@[i].point.block.0 as int;
    let s = data.loans@[i].point.stmt as int;
    let y = (t, extraction::at(b, s, data.count(b, s) - 1).code());
    assert(data.loan_uses(live, i)->Ok_0[0] == y);
    assert(data.loan_uses(live, i)->Ok_0.contains(y));
    t
}

proof fn lemma_temporaries(loans: Seq<LoanSite>, n: int)
    ensures
        0 <= extraction::temporaries(loans, n),
        n >= 0 ==> extraction::temporaries(loans, n) <= n,
    decreases n,
{
    if n > 0 {
        lemma_temporaries(loans, n - 1);
    }
}

/// Two loans that no variable holds have different variables.
pub proof fn law_temporaries_differ(loans: Seq<LoanSite>, i: int, j: int)
    requires
        0 <= i < j < loans.len(),
        loans.len() + 1_000_000 <= u32::MAX,
        loans[i].var is None,
        loans[j].var is None,
    ensures
        extraction::loan_var(loans, i) != extraction::loan_var(loans, j),
{
    lemma_temporaries(loans, i);
    lemma_temporaries(loans, j);
    lemma_temporaries_grow(loans, i + 1, j);
}

proof fn lemma_temporaries_grow(loans: Seq<LoanSite>, i: int, j: int)
    requires
        0 <= i <= j,
    ensures
        extraction::temporaries(loans, i) <= extraction::temporaries(loans, j),
    decreases j - i,
{
    if i < j {
        lemma_temporaries_grow(loans, i, j - 1);
    }
}

// ---------------------------------------------------------------------------
// Loans through references
// ---------------------------------------------------------------------------

/// Loan `j`, which the variable holds from an earlier point, is the latest of those that
/// are listed before loan `i`.
pub open spec fn is_held(loans: Seq<LoanSite>, i: int, v: Symbol, j: int) -> bool {
    &&& 0 <= j < i
    &&& loans[j].var == Some(v)
    &&& loans[j].point.code() < loans[i].point.code()
    &&& forall|k: int|
        j < k < i && (#[trigger] loans[k]).var == Some(v) ==> loans[k].point.code()
            >= loans[i].point.code()
}

pub proof fn lemma_held(loans: Seq<LoanSite>, n: int, v: Symbol, ip: u64)
    requires
        0 <= n <= loans.len(),
    ensures
        match extraction::held_loan(loans, n, v, ip) {
            Some(j) => 0 <= j < n && loans[j].var == Some(v) && loans[j].point.code() < ip
                && forall|k: int|
                j < k < n && (#[trigger] loans[k]).var == Some(v) ==> loans[k].point.code() >= ip,
            None => forall|k: int|
                0 <= k < n && (#[trigger] loans[k]).var == Some(v) ==> loans[k].point.code() >= ip,
        },
    decreases n,
{
    if n > 0 {
        lemma_held(loans, n - 1, v, ip);
    }
}

proof fn lemma_resolved(loans: Seq<LoanSite>, n: int, i: int)
    requires
        0 <= i < n <= loans.len(),
        extraction::resolved(loans, n) is Ok,
    ensures
        extraction::resolved(loans, n)->Ok_0.places.len() == n,
        extraction::source_loan(loans, i) is Ok,
        match extraction::source_loan(loans, i)->Ok_0 {
            None => extraction::resolved(loans, n)->Ok_0.places[i] == loans[i].place,
            Some(j) => 0 <= j < i && extraction::resolved(loans, n)->Ok_0.places[i]
                == extraction::resolved(loans, n)->Ok_0.places[j]
                && extraction::resolved(loans, n)->Ok_0.sources.contains((j as u32, i as u32)),
        },
    decreases n,
{
    let r = extraction::resolved(loans, n - 1)->Ok_0;
    let q = extraction::resolved(loans, n)->Ok_0;
    if n > 1 {
        lemma_resolved(loans, n - 1, if i < n - 1 {
            i
        } else {
            n - 2
        });
    } else {
        assert(r.places.len() == 0);
    }
    if i < n - 1 {
        if let Some(j) = extraction::source_loan(loans, i)->Ok_0 {
            let k = choose|k: int|
                0 <= k < r.sources.len() && r.sources[k] == (j as u32, i as u32);
            assert(q.sources[k] == (j as u32, i as u32));
        }
    } else {
        if let Some(v) = extraction::through(loans[i].place) {
            lemma_held(loans, i, v, loans[i].point.code());
        }
        if let Some(j) = extraction::source_loan(loans, i)->Ok_0 {
            assert(q.sources[r.sources.len() as int] == (j as u32, i as u32));
        }
    }
}

/// A loan is of the place that is borrowed; a loan of `*v` is one of what `v` refers to,
/// where `v` holds a loan, and is then made through that loan.
pub proof fn law_loans_through_references(
    blocks: Seq<Block>,
    body: Seq<HirStmt>,
    live: PointLiveness,
    data: BorrowData,
    x: Extraction,
    i: int,
)
    requires
        extracts(blocks, body, live, data, x),
        0 <= i < data.loans@.len(),
    ensures
        forall|v: Symbol, j: int|
            data.loans@[i].place == FrozenPlace::Deref(Box::new(FrozenPlace::Root(v)))
                && #[trigger] is_held(data.loans@, i, v, j) ==> x.infos[i].place
                == x.infos[j].place && x.sources.contains((j as u32, i as u32)),
        (forall|v: Symbol, j: int|
            data.loans@[i].place == FrozenPlace::Deref(Box::new(FrozenPlace::Root(v)))
                ==> !#[trigger] is_held(data.loans@, i, v, j)) ==> x.infos[i].place
            == data.loans@[i].place,
{
    let loans = data.loans@;
    let n = loans.len() as int;
    lemma_resolved(loans, n, i);
    let r = extraction::resolved(loans, n)->Ok_0;
    let ip = loans[i].point.code();
    if let Some(v) = extraction::through(loans[i].place) {
        lemma_held(loans, i, v, ip);
        let h = extraction::held_loan(loans, i, v, ip);
        assert(loans[i].place == FrozenPlace::Deref(Box::new(FrozenPlace::Root(v))));
        if let Some(j) = h {
            assert(is_held(loans, i, v, j));
            assert forall|w: Symbol, k: int|
                loans[i].place == FrozenPlace::Deref(Box::new(FrozenPlace::Root(w)))
                    && #[trigger] is_held(loans, i, w, k) implies x.infos[i].place
                == x.infos[k].place && x.sources.contains((k as u32, i as u32)) by {
                assert(w == v);
                if k < j {
                    assert(loans[j].var == Some(v));
                } else if j < k {
                    assert(loans[k].var == Some(v));
                }
                assert(k == j);
            }
        } else {
            assert forall|w: Symbol, k: int|
                loans[i].place == FrozenPlace::Deref(Box::new(FrozenPlace::Root(w)))
                    implies !#[trigger] is_held(loans, i, w, k) by {
                assert(w == v);
                if is_held(loans, i, w, k) {
                    assert(loans[k].var == Some(v));
                }
            }
        }
    } else {
        assert forall|w: Symbol, k: int|
            loans[i].place == FrozenPlace::Deref(Box::new(FrozenPlace::Root(w)))
                implies !#[trigger] is_held(loans, i, w, k) by {
            assert(extraction::through(loans[i].place) == Some(w));
        }
    }
}

// ---------------------------------------------------------------------------
// Assignments
// ---------------------------------------------------------------------------

/// The statement gives the variable a value: it defines it, or assigns to it by name.
pub open spec fn gives_value(stmt: HirStmt, v: Symbol) -> bool {
    match stmt {
        HirStmt::VariableDef { name, value } => name == Some(v),
        HirStmt::Assign { target, value } => target == HirExpr::Ident(v),
        _ => false,
    }
}

proof fn lemma_marked(
    blocks: Seq<Block>,
    f: spec_fn(int) -> Result<Seq<(u32, u64)>, PointOverflow>,
    g: spec_fn(int, int) -> Option<Symbol>,
    y: (u32, u64),
)
    requires
        gather::gather(f, blocks.len() as int) is Ok,
        forall|b: int|
            0 <= b < blocks.len() ==> #[trigger] f(b) == gather::gather(
                |s: int| extraction::marked(g(b, s), b, s),
                blocks[b].stmts@.len() as int,
            ),
    ensures
        gather::gather(f, blocks.len() as int)->Ok_0.contains(y) <==> exists|b: int, s: int|
            0 <= b < blocks.len() && 0 <= s < blocks[b].stmts@.len() && #[trigger] g(b, s) == Some(
                Symbol(y.0),
            ) && y.1 == extraction::at(b, s, 0).code(),
{
    gather::lemma_in_gathered(f, blocks.len() as int, y);
    if exists|b: int| 0 <= b < blocks.len() && (#[trigger] f(b))->Ok_0.contains(y) {
        let b = choose|b: int| 0 <= b < blocks.len() && (#[trigger] f(b))->Ok_0.contains(y);
        let h = |s: int| extraction::marked(g(b, s), b, s);
        assert(f(b) is Ok);
        gather::lemma_in_gathered(h, blocks[b].stmts@.len() as int, y);
        let s = choose|s: int|
            0 <= s < blocks[b].stmts@.len() && (#[trigger] h(s))->Ok_0.contains(y);
        assert(h(s) is Ok);
        assert(g(b, s) == Some(Symbol(y.0)));
    }
    if exists|b: int, s: int|
        0 <= b < blocks.len() && 0 <= s < blocks[b].stmts@.len() && #[trigger] g(b, s) == Some(
            Symbol(y.0),
        ) && y.1 == extraction::at(b, s, 0).code() {
        let (b, s) = choose|b: int, s: int|
            0 <= b < blocks.len() && 0 <= s < blocks[b].stmts@.len() && #[trigger] g(b, s) == Some(
                Symbol(y.0),
            ) && y.1 == extraction::at(b, s, 0).code();
        let h = |s: int| extraction::marked(g(b, s), b, s);
        assert(f(b) is Ok);
        gather::lemma_in_gathered(h, blocks[b].stmts@.len() as int, y);
        assert(h(s) is Ok);
        assert(h(s)->Ok_0[0] == y);
        assert(h(s)->Ok_0.contains(y));
        assert(f(b)->Ok_0.contains(y));
    }
}

/// A variable is defined at the start of each statement that gives it a value, and dropped
/// at the start of each that assigns to it by name; nowhere else.
pub proof fn law_definitions_are_extracted(
    blocks: Seq<Block>,
    body: Seq<HirStmt>,
    live: PointLiveness,
    data: BorrowData,
    x: Extraction,
    v: Symbol,
    p: u64,
)
    requires
        extracts(blocks, body, live, data, x),
    ensures
        x.defined.contains((v.0, p)) <==> exists|b: int, s: int|
            0 <= b < blocks.len() && 0 <= s < blocks[b].stmts@.len() && gives_value(
                #[trigger] blocks[b].stmts@[s],
                v,
            ) && p == extraction::at(b, s, 0).code(),
        x.dropped.contains((v.0, p)) <==> exists|b: int, s: int|
            0 <= b < blocks.len() && 0 <= s < blocks[b].stmts@.len() && gives_value(
                #[trigger] blocks[b].stmts@[s],
                v,
            ) && blocks[b].stmts@[s] is Assign && p == extraction::at(b, s, 0).code(),
{
    let f = extraction::block_defined(blocks);
    let g = |b: int, s: int| extraction::given_value(blocks[b].stmts@[s]);
    assert forall|b: int| 0 <= b < blocks.len() implies #[trigger] f(b) == gather::gather(
        |s: int| extraction::marked(g(b, s), b, s),
        blocks[b].stmts@.len() as int,
    ) by {
        assert(extraction::stmt_defined(blocks[b].stmts@, b) =~= (|s: int|
            extraction::marked(g(b, s), b, s)));
    }
    lemma_marked(blocks, f, g, (v.0, p));
    if x.defined.contains((v.0, p)) {
        let (b, s) = choose|b: int, s: int|
            0 <= b < blocks.len() && 0 <= s < blocks[b].stmts@.len() && #[trigger] g(b, s) == Some(
                v,
            ) && p == extraction::at(b, s, 0).code();
        assert(gives_value(blocks[b].stmts@[s], v));
    }
    if exists|b: int, s: int|
        0 <= b < blocks.len() && 0 <= s < blocks[b].stmts@.len() && gives_value(
            #[trigger] blocks[b].stmts@[s],
            v,
        ) && p == extraction::at(b, s, 0).code() {
        let (b, s) = choose|b: int, s: int|
            0 <= b < blocks.len() && 0 <= s < blocks[b].stmts@.len() && gives_value(
                #[trigger] blocks[b].stmts@[s],
                v,
            ) && p == extraction::at(b, s, 0).code();
        assert(g(b, s) == Some(v));
    }
    let f2 = extraction::block_dropped(blocks);
    let g2 = |b: int, s: int| extraction::overwritten(blocks[b].stmts@[s]);
    assert forall|b: int| 0 <= b < blocks.len() implies #[trigger] f2(b) == gather::gather(
        |s: int| extraction::marked(g2(b, s), b, s),
        blocks[b].stmts@.len() as int,
    ) by {
        assert(extraction::stmt_dropped(blocks[b].stmts@, b) =~= (|s: int|
            extraction::marked(g2(b, s), b, s)));
    }
    lemma_marked(blocks, f2, g2, (v.0, p));
    if x.dropped.contains((v.0, p)) {
        let (b, s) = choose|b: int, s: int|
            0 <= b < blocks.len() && 0 <= s < blocks[b].stmts@.len() && #[trigger] g2(b, s) == Some(
                v,
            ) && p == extraction::at(b, s, 0).code();
        assert(gives_value(blocks[b].stmts@[s], v));
    }
    if exists|b: int, s: int|
        0 <= b < blocks.len() && 0 <= s < blocks[b].stmts@.len() && gives_value(
            #[trigger] blocks[b].stmts@[s],
            v,
        ) && blocks[b].stmts@[s] is Assign && p == extraction::at(b, s, 0).code() {
        let (b, s) = choose|b: int, s: int|
            0 <= b < blocks.len() && 0 <= s < blocks[b].stmts@.len() && gives_value(
                #[trigger] blocks[b].stmts@[s],
                v,
            ) && blocks[b].stmts@[s] is Assign && p == extraction::at(b, s, 0).code();
        assert(g2(b, s) == Some(v));
    }
}

/// Dropping a variable that is assigned to somewhere reaches the loans of its parts.
pub proof fn law_drops_reach_loans(
    blocks: Seq<Block>,
    body: Seq<HirStmt>,
    live: PointLiveness,
    data: BorrowData,
    x: Extraction,
    v: Symbol,
    o: u32,
)
    requires
        extracts(blocks, body, live, data, x),
        data.wf(),
    ensures
        x.drop_derefs.contains((v.0, o)) <==> o < data.loans@.len() && data.loans@[o as int].place.root()
            == v && exists|p: u64| #[trigger] x.dropped.contains((v.0, p)),
{
    let loans = data.loans@;
    let f = extraction::drop_derefs(loans, x.dropped);
    gather::lemma_in_piece(f, loans.len() as int, (v.0, o));
    if x.drop_derefs.contains((v.0, o)) {
        let i = choose|i: int| 0 <= i < loans.len() && (#[trigger] f(i)).contains((v.0, o));
        let k = choose|k: int|
            0 <= k < x.dropped.len() && (#[trigger] x.dropped[k]).0 == loans[i].place.root().0;
        let p = x.dropped[k].1;
        assert(x.dropped.contains((v.0, p)));
        assert(loans[i].place.root() == Symbol(v.0));
    }
    if o < loans.len() && loans[o as int].place.root() == v && exists|p: u64| #[trigger]
        x.dropped.contains((v.0, p)) {
        let p = choose|p: u64| #[trigger] x.dropped.contains((v.0, p));
        let k = choose|k: int| 0 <= k < x.dropped.len() && x.dropped[k] == (v.0, p);
        assert(x.dropped[k].0 == v.0);
        assert(f(o as int)[0] == (v.0, o));
        assert(f(o as int).contains((v.0, o)));
    }
}

// ---------------------------------------------------------------------------
// Writes
// ---------------------------------------------------------------------------

/// The write, which touches `hit.0`, goes through the variable that holds the loan.
pub open spec fn is_own(place: FrozenPlace, hit: (FrozenPlace, bool), info: LoanInfo) -> bool {
    hit.1 && info.borrow_var == Some(place.root())
}

/// The write, which touches `hit.0`, is to something that holds the borrowed place, where
/// that is no field or element of it: what was borrowed is not reached that way any more.
pub open spec fn is_detached(hit: (FrozenPlace, bool), info: LoanInfo) -> bool {
    &&& hit.0.prefixes(info.place) && hit.0 != info.place
    &&& !(info.place is Field || info.place is Index || info.place is ConstIndex)
}

/// The loans that are invalidated, and where: by the writes that touch what is borrowed,
/// but not through the loan itself, unless they detach it.
pub proof fn law_writes_invalidate_loans(
    blocks: Seq<Block>,
    body: Seq<HirStmt>,
    live: PointLiveness,
    data: BorrowData,
    x: Extraction,
    i: int,
    p: u64,
)
    requires
        extracts(blocks, body, live, data, x),
        data.wf(),
        0 <= i < data.loans@.len(),
    ensures
        x.invalidated.contains((i as u32, p)) <==> exists|k: int|
            0 <= k < data.events@.len() && !(#[trigger] data.events@[k]).2 && p
                == data.events@[k].1.code() && {
                let hit = extraction::accessed(
                    data.events@[k].0,
                    data.events@[k].1,
                    x.infos,
                )->Ok_0;
                &&& !is_own(data.events@[k].0, hit, x.infos[i])
                &&& hit.0.prefixes(x.infos[i].place) || x.infos[i].place.prefixes(hit.0)
                &&& !is_detached(hit, x.infos[i])
            },
{
    let events = data.events@;
    let infos = x.infos;
    let y = (i as u32, p);
    let f = extraction::invalidated_by(events, infos);
    gather::lemma_in_gathered(f, events.len() as int, y);
    if x.invalidated.contains(y) {
        let k = choose|k: int| 0 <= k < events.len() && (#[trigger] f(k))->Ok_0.contains(y);
        assert(f(k) is Ok);
        assert(!events[k].2);
        let hit = extraction::accessed(events[k].0, events[k].1, infos)->Ok_0;
        let g = extraction::write_invalidations(events[k].0, events[k].1, hit, infos);
        gather::lemma_in_piece(g, infos.len() as int, y);
        let j = choose|j: int| 0 <= j < infos.len() && (#[trigger] g(j)).contains(y);
        assert(infos[j].id == j as u32);
        assert(j == i);
        assert(p == events[k].1.code());
    }
    if exists|k: int|
        0 <= k < events.len() && !(#[trigger] events[k]).2 && p == events[k].1.code() && {
            let hit = extraction::accessed(events[k].0, events[k].1, infos)->Ok_0;
            &&& !is_own(events[k].0, hit, infos[i])
            &&& hit.0.prefixes(infos[i].place) || infos[i].place.prefixes(hit.0)
            &&& !is_detached(hit, infos[i])
        } {
        let k = choose|k: int|
            0 <= k < events.len() && !(#[trigger] events[k]).2 && p == events[k].1.code() && {
                let hit = extraction::accessed(events[k].0, events[k].1, infos)->Ok_0;
                &&& !is_own(events[k].0, hit, infos[i])
                &&& hit.0.prefixes(infos[i].place) || infos[i].place.prefixes(hit.0)
                &&& !is_detached(hit, infos[i])
            };
        assert(f(k) is Ok);
        let hit = extraction::accessed(events[k].0, events[k].1, infos)->Ok_0;
        let g = extraction::write_invalidations(events[k].0, events[k].1, hit, infos);
        gather::lemma_in_piece(g, infos.len() as int, y);
        assert(infos[i].id == i as u32);
        assert(g(i)[0] == y);
        assert(g(i).contains(y));
        assert(f(k)->Ok_0.contains(y));
    }
}

/// An access to a place is to that place, except that one to `*v` is to what the loan is of
/// that `v` holds: of those from earlier points the latest, the last of them where several
/// were made at that point.
pub proof fn law_accesses_go_through_references(
    place: FrozenPlace,
    pt: Point,
    infos: Seq<LoanInfo>,
)
    requires
        extraction::accessed(place, pt, infos) is Ok,
    ensures
        (forall|v: Symbol, i: int|
            place == FrozenPlace::Deref(Box::new(FrozenPlace::Root(v))) ==> !#[trigger] is_earlier(
                infos,
                v,
                pt,
                i,
            )) ==> extraction::accessed(place, pt, infos)->Ok_0 == (place, false),
        forall|v: Symbol, i: int|
            place == FrozenPlace::Deref(Box::new(FrozenPlace::Root(v))) && #[trigger] is_earlier(
                infos,
                v,
                pt,
                i,
            ) && (forall|j: int| #[trigger]
                is_earlier(infos, v, pt, j) ==> infos[j].point.code() < infos[i].point.code()
                    || infos[j].point.code() == infos[i].point.code() && j <= i)
                ==> extraction::accessed(place, pt, infos)->Ok_0 == (infos[i].place, true),
{
    if let Some(v) = extraction::through(place) {
        assert(place == FrozenPlace::Deref(Box::new(FrozenPlace::Root(v))));
        let n = infos.len() as int;
        lemma_current(infos, n, v, pt);
        let c = extraction::current_loan(infos, n, v, pt.code());
        if let Some(j) = c {
            assert(is_earlier(infos, v, pt, j));
        }
        assert forall|w: Symbol, i: int|
            place == FrozenPlace::Deref(Box::new(FrozenPlace::Root(w))) && #[trigger] is_earlier(
                infos,
                w,
                pt,
                i,
            ) && (forall|j: int| #[trigger]
                is_earlier(infos, w, pt, j) ==> infos[j].point.code() < infos[i].point.code()
                    || infos[j].point.code() == infos[i].point.code() && j <= i)
            implies extraction::accessed(place, pt, infos)->Ok_0 == (infos[i].place, true) by {
            assert(w == v);
            assert(is_earlier(infos, v, pt, i));
            let j = c->0;
            assert(is_earlier(infos, v, pt, j));
            assert(i == j);
        }
    } else {
        assert forall|v: Symbol, i: int|
            place == FrozenPlace::Deref(Box::new(FrozenPlace::Root(v)))
                implies !#[trigger] is_earlier(infos, v, pt, i) by {
            assert(extraction::through(place) == Some(v));
        }
    }
}

/// The variable holds the loan from before the point.
pub open spec fn is_earlier(infos: Seq<LoanInfo>, v: Symbol, pt: Point, i: int) -> bool {
    &&& 0 <= i < infos.len()
    &&& infos[i].borrow_var == Some(v)
    &&& infos[i].point.code() < pt.code()
}

proof fn lemma_current(infos: Seq<LoanInfo>, n: int, v: Symbol, pt: Point)
    requires
        0 <= n <= infos.len(),
    ensures
        match extraction::current_loan(infos, n, v, pt.code()) {
            None => forall|j: int| j < n ==> !#[trigger] is_earlier(infos, v, pt, j),
            Some(i) => i < n && is_earlier(infos, v, pt, i) && forall|j: int|
                j < n && #[trigger] is_earlier(infos, v, pt, j) ==> infos[j].point.code()
                    < infos[i].point.code() || infos[j].point.code() == infos[i].point.code() && j
                    <= i,
        },
    decreases n,
{
    if n > 0 {
        lemma_current(infos, n - 1, v, pt);
    }
}

// ---------------------------------------------------------------------------
// Where loans end
// ---------------------------------------------------------------------------

/// The variable is used in a statement whose last expression is numbered `p`.
pub open spec fn is_use(data: BorrowData, live: PointLiveness, v: Symbol, p: u64) -> bool {
    exists|b: int, s: int|
        0 <= b < live.var_uses@.len() && 0 <= s < live.var_uses@[b]@.len() && (
        #[trigger] live.var_uses@[b]@[s])@.contains(v) && p == extraction::at(
            b,
            s,
            data.count(b, s) - 1,
        ).code()
}

proof fn lemma_uses_of(data: BorrowData, live: PointLiveness, v: Symbol, p: u64)
    requires
        gather::gather(data.block_uses(live, v), live.var_uses@.len() as int) is Ok,
    ensures
        gather::gather(
            data.block_uses(live, v),
            live.var_uses@.len() as int,
        )->Ok_0.contains((v.0, p)) <==> is_use(data, live, v, p),
        forall|y: (u32, u64)| #[trigger]
            gather::gather(
                data.block_uses(live, v),
                live.var_uses@.len() as int,
            )->Ok_0.contains(y) ==> y.0 == v.0,
{
    let f = data.block_uses(live, v);
    let n = live.var_uses@.len() as int;
    assert forall|y: (u32, u64)| #[trigger] gather::gather(f, n)->Ok_0.contains(y) implies y.0
        == v.0 && is_use(data, live, v, y.1) by {
        gather::lemma_in_gathered(f, n, y);
        let b = choose|b: int| 0 <= b < n && (#[trigger] f(b))->Ok_0.contains(y);
        assert(f(b) is Ok);
        let g = data.stmt_uses(live.var_uses@[b]@, v, b);
        let m = live.var_uses@[b]@.len() as int;
        gather::lemma_in_gathered(g, m, y);
        let s = choose|s: int| 0 <= s < m && (#[trigger] g(s))->Ok_0.contains(y);
        assert(g(s) is Ok);
        assert(live.var_uses@[b]@[s]@.contains(v));
    }
    if is_use(data, live, v, p) {
        let y = (v.0, p);
        let (b, s) = choose|b: int, s: int|
            0 <= b < live.var_uses@.len() && 0 <= s < live.var_uses@[b]@.len() && (
            #[trigger] live.var_uses@[b]@[s])@.contains(v) && p == extraction::at(
                b,
                s,
                data.count(b, s) - 1,
            ).code();
        gather::lemma_in_gathered(f, n, y);
        assert(f(b) is Ok);
        let g = data.stmt_uses(live.var_uses@[b]@, v, b);
        gather::lemma_in_gathered(g, live.var_uses@[b]@.len() as int, y);
        assert(g(s) is Ok);
        assert(g(s)->Ok_0[0] == y);
        assert(g(s)->Ok_0.contains(y));
        assert(f(b)->Ok_0.contains(y));
    }
}

/// The listed uses of a variable that holds one of the first `n` loans are its uses.
pub proof fn lemma_used(data: BorrowData, live: PointLiveness, n: int, v: Symbol, p: u64)
    requires
        data.loan_pass(live, n) is Ok,
        data.wf(),
        0 <= n <= data.loans@.len(),
        v.0 < 1_000_000,
    ensures
        data.loan_pass(live, n)->Ok_0.used.contains((v.0, p)) <==> is_use(data, live, v, p)
            && exists|i: int| 0 <= i < n && (#[trigger] data.loans@[i]).var == Some(v),
    decreases n,
{
    let y = (v.0, p);
    let loans = data.loans@;
    if n > 0 {
        lemma_used(data, live, n - 1, v, p);
        let before = data.loan_pass(live, n - 1)->Ok_0.used;
        let u = data.loan_uses(live, n - 1)->Ok_0;
        gather::lemma_in_both(before, u, y);
        match loans[n - 1].var {
            Some(w) => {
                lemma_uses_of(data, live, w, p);
                if u.contains(y) {
                    assert(w == v);
                    assert(loans[n - 1].var == Some(v));
                }
            },
            None => {
                lemma_temporaries(loans, n - 1);
                assert(u.len() == 1 && u[0].0 == extraction::loan_var(loans, n - 1));
                assert(!u.contains(y));
            },
        }
        if exists|i: int| 0 <= i < n && (#[trigger] loans[i]).var == Some(v) {
            let i = choose|i: int| 0 <= i < n && (#[trigger] loans[i]).var == Some(v);
            if i < n - 1 {
                assert(loans[i].var == Some(v));
            }
        }
    } else {
        assert(data.loan_pass(live, n)->Ok_0.used.len() == 0);
    }
}

proof fn lemma_last_use(used: Seq<(u32, u64)>, v: u32, n: int)
    requires
        0 <= n <= used.len(),
    ensures
        match extraction::last_use(used, v, n) {
            None => forall|k: int| 0 <= k < n ==> (#[trigger] used[k]).0 != v,
            Some(p) => used.contains((v, p)) && forall|k: int|
                0 <= k < n && (#[trigger] used[k]).0 == v ==> used[k].1 <= p,
        },
    decreases n,
{
    if n > 0 {
        lemma_last_use(used, v, n - 1);
        if used[n - 1].0 == v {
            assert(used[n - 1] == (v, used[n - 1].1));
        }
    }
}

/// No use of the variable comes after the one that is numbered `p`.
pub open spec fn is_last_use(data: BorrowData, live: PointLiveness, v: Symbol, p: u64) -> bool {
    is_use(data, live, v, p) && forall|q: u64| #[trigger] is_use(data, live, v, q) ==> q <= p
}

proof fn lemma_ends(data: BorrowData, live: PointLiveness, n: int, i: int, p: u64)
    requires
        data.loan_pass(live, n) is Ok,
        data.wf(),
        0 <= n <= data.loans@.len(),
        0 <= i < data.loans@.len(),
        data.loans@[i].var matches Some(v) ==> v.0 < 1_000_000,
    ensures
        data.loan_pass(live, n)->Ok_0.killed.contains((i as u32, p)) <==> i < n
            && !data.loans@[i].place.is_part() && match data.loans@[i].var {
            Some(v) => is_last_use(data, live, v, p),
            None => {
                let b = data.loans@[i].point.block.0 as int;
                let s = data.loans@[i].point.stmt as int;
                p == extraction::at(b, s, data.count(b, s) - 1).code()
            },
        },
    decreases n,
{
    let loans = data.loans@;
    let y = (i as u32, p);
    if n > 0 {
        lemma_ends(data, live, n - 1, i, p);
        let q = data.loan_pass(live, n - 1)->Ok_0;
        let used = data.loan_pass(live, n)->Ok_0.used;
        let more = data.end_of_loan(used, n - 1);
        assert(data.loan_pass(live, n)->Ok_0.killed == q.killed + more);
        gather::lemma_in_both(q.killed, more, y);
        assert(more.len() <= 1);
        assert(more.contains(y) <==> more.len() == 1 && more[0] == y);
        if i < n - 1 {
            assert(more.len() == 1 ==> more[0].0 == (n - 1) as u32);
        } else if i == n - 1 && !loans[i].place.is_part() {
            match loans[i].var {
                Some(v) => {
                    let m = used.len() as int;
                    lemma_last_use(used, v.0, m);
                    assert(loans[i].var == Some(v));
                    assert forall|k: u64| #[trigger] is_use(data, live, v, k) implies used.contains(
                        (v.0, k),
                    ) by {
                        lemma_used(data, live, n, v, k);
                    }
                    if let Some(l) = extraction::last_use(used, v.0, m) {
                        lemma_used(data, live, n, v, l);
                        assert forall|k: u64| #[trigger] is_use(data, live, v, k) implies k <= l by {
                            let z = choose|z: int| 0 <= z < m && used[z] == (v.0, k);
                            assert(used[z].0 == v.0);
                        }
                        assert(is_last_use(data, live, v, l));
                        if is_last_use(data, live, v, p) {
                            assert(p == l);
                        }
                    } else if is_last_use(data, live, v, p) {
                        let z = choose|z: int| 0 <= z < m && used[z] == (v.0, p);
                        assert(used[z].0 == v.0);
                    }
                },
                None => {},
            }
        }
    } else {
        assert(data.loan_pass(live, n)->Ok_0.killed.len() == 0);
    }
}

/// The assignment ends the loan: it is to the variable that holds it, in another
/// statement; or, without a variable, to another place that touches the borrowed one, but
/// not to what that is a field or an element of.
pub open spec fn is_ended_by(k: Kill, info: LoanInfo) -> bool {
    match k.var {
        Some(v) => info.borrow_var == Some(v) && !(info.point.block == k.point.block
            && info.point.stmt == k.point.stmt),
        None => {
            &&& k.place != info.place
            &&& k.place.prefixes(info.place) || info.place.prefixes(k.place)
            &&& k.place.prefixes(info.place) ==> !(info.place is Field || info.place is Index
                || info.place is ConstIndex)
        },
    }
}

/// The write gives a new value to the variable that holds the loan from an earlier
/// statement.
pub open spec fn is_rebound(place: FrozenPlace, pt: Point, info: LoanInfo) -> bool {
    &&& place is Root && info.borrow_var == Some(place.root())
    &&& info.point.code() < pt.code()
    &&& !(info.point.block == pt.block && info.point.stmt == pt.stmt)
}

/// Where a loan ends: at the last use of the variable that holds it, or where its statement
/// ends if none does, unless it is of a field or an element; where an assignment ends it;
/// where its variable gets a new value; and where a write detaches it.
#[verifier::rlimit(40)]
pub proof fn law_loans_end(
    blocks: Seq<Block>,
    body: Seq<HirStmt>,
    live: PointLiveness,
    data: BorrowData,
    x: Extraction,
    i: int,
    p: u64,
)
    requires
        extracts(blocks, body, live, data, x),
        data.wf(),
        0 <= i < data.loans@.len(),
        data.loans@[i].var matches Some(v) ==> v.0 < 1_000_000,
    ensures
        x.killed.contains((i as u32, p)) <==> {
            ||| !data.loans@[i].place.is_part() && match data.loans@[i].var {
                Some(v) => is_last_use(data, live, v, p),
                None => {
                    let b = data.loans@[i].point.block.0 as int;
                    let s = data.loans@[i].point.stmt as int;
                    p == extraction::at(b, s, data.count(b, s) - 1).code()
                },
            }
            ||| exists|k: int|
                0 <= k < data.kills@.len() && is_ended_by(#[trigger] data.kills@[k], x.infos[i])
                    && p == data.kills@[k].point.code()
            ||| exists|k: int|
                0 <= k < data.events@.len() && !(#[trigger] data.events@[k]).2 && p
                    == data.events@[k].1.code() && {
                    let hit = extraction::accessed(
                        data.events@[k].0,
                        data.events@[k].1,
                        x.infos,
                    )->Ok_0;
                    ||| is_rebound(data.events@[k].0, data.events@[k].1, x.infos[i])
                    ||| !is_own(data.events@[k].0, hit, x.infos[i]) && is_detached(
                        hit,
                        x.infos[i],
                    )
                }
        },
{
    let infos = x.infos;
    let y = (i as u32, p);
    lemma_ends(data, live, data.loans@.len() as int, i, p);
    let kills = gather::gather(
        extraction::all_kill_effects(data.kills@, infos),
        data.kills@.len() as int,
    )->Ok_0;
    let ended = gather::gather(
        extraction::ended_by(data.events@, infos),
        data.events@.len() as int,
    )->Ok_0;
    gather::lemma_in_both(x.loans.killed, kills, y);
    gather::lemma_in_both(x.loans.killed + kills, ended, y);
    assert(x.killed == x.loans.killed + kills + ended);
    lemma_kills(data, infos, i, p);
    lemma_ended(data, infos, i, p);
}

proof fn lemma_kills(data: BorrowData, infos: Seq<LoanInfo>, i: int, p: u64)
    requires
        gather::gather(
            extraction::all_kill_effects(data.kills@, infos),
            data.kills@.len() as int,
        ) is Ok,
        infos.len() <= u32::MAX,
        forall|j: int| 0 <= j < infos.len() ==> (#[trigger] infos[j]).id == j as u32,
        0 <= i < infos.len(),
    ensures
        gather::gather(
            extraction::all_kill_effects(data.kills@, infos),
            data.kills@.len() as int,
        )->Ok_0.contains((i as u32, p)) <==> exists|k: int|
            0 <= k < data.kills@.len() && is_ended_by(#[trigger] data.kills@[k], infos[i]) && p
                == data.kills@[k].point.code(),
{
    let kills = data.kills@;
    let y = (i as u32, p);
    let f = extraction::all_kill_effects(kills, infos);
    gather::lemma_in_gathered(f, kills.len() as int, y);
    if exists|k: int| 0 <= k < kills.len() && (#[trigger] f(k))->Ok_0.contains(y) {
        let k = choose|k: int| 0 <= k < kills.len() && (#[trigger] f(k))->Ok_0.contains(y);
        let g = extraction::kill_effects(kills[k], infos);
        assert(f(k) is Ok);
        gather::lemma_in_gathered(g, infos.len() as int, y);
        let j = choose|j: int| 0 <= j < infos.len() && (#[trigger] g(j))->Ok_0.contains(y);
        assert(g(j) is Ok);
        assert(infos[j].id == j as u32);
        assert(j == i);
        assert(is_ended_by(kills[k], infos[i]));
    }
    if exists|k: int|
        0 <= k < kills.len() && is_ended_by(#[trigger] kills[k], infos[i]) && p
            == kills[k].point.code() {
        let k = choose|k: int|
            0 <= k < kills.len() && is_ended_by(#[trigger] kills[k], infos[i]) && p
                == kills[k].point.code();
        let g = extraction::kill_effects(kills[k], infos);
        assert(f(k) is Ok);
        gather::lemma_in_gathered(g, infos.len() as int, y);
        assert(extraction::kill_ends(kills[k], infos[i]));
        assert(g(i) is Ok);
        assert(g(i)->Ok_0[0] == y);
        assert(g(i)->Ok_0.contains(y));
        assert(f(k)->Ok_0.contains(y));
    }
}

/// A write to the place, which touches `hit.0`, ends the loan.
spec fn is_cut(place: FrozenPlace, pt: Point, hit: (FrozenPlace, bool), info: LoanInfo) -> bool {
    ||| is_rebound(place, pt, info)
    ||| !is_own(place, hit, info) && is_detached(hit, info)
}

proof fn lemma_cut(
    place: FrozenPlace,
    pt: Point,
    hit: (FrozenPlace, bool),
    infos: Seq<LoanInfo>,
    i: int,
    p: u64,
)
    requires
        infos.len() <= u32::MAX,
        forall|j: int| 0 <= j < infos.len() ==> (#[trigger] infos[j]).id == j as u32,
        0 <= i < infos.len(),
    ensures
        (gather::concat(extraction::rebinding_kills(place, pt, infos), infos.len() as int)
            + gather::concat(
            extraction::write_kills(place, pt, hit, infos),
            infos.len() as int,
        )).contains((i as u32, p)) <==> p == pt.code() && is_cut(place, pt, hit, infos[i]),
{
    let y = (i as u32, p);
    let n = infos.len() as int;
    let f = extraction::rebinding_kills(place, pt, infos);
    let g = extraction::write_kills(place, pt, hit, infos);
    gather::lemma_in_both(gather::concat(f, n), gather::concat(g, n), y);
    gather::lemma_in_piece(f, n, y);
    gather::lemma_in_piece(g, n, y);
    if exists|j: int| 0 <= j < n && (#[trigger] f(j)).contains(y) {
        let j = choose|j: int| 0 <= j < n && (#[trigger] f(j)).contains(y);
        assert(infos[j].id == j as u32);
        assert(j == i);
        assert(is_rebound(place, pt, infos[i]));
    }
    if exists|j: int| 0 <= j < n && (#[trigger] g(j)).contains(y) {
        let j = choose|j: int| 0 <= j < n && (#[trigger] g(j)).contains(y);
        assert(infos[j].id == j as u32);
        assert(j == i);
        assert(is_detached(hit, infos[i]));
    }
    assert(infos[i].id == i as u32);
    if p == pt.code() && is_rebound(place, pt, infos[i]) {
        assert(f(i)[0] == y);
        assert(f(i).contains(y));
    }
    if p == pt.code() && !is_own(place, hit, infos[i]) && is_detached(hit, infos[i]) {
        assert(g(i)[0] == y);
        assert(g(i).contains(y));
    }
}

proof fn lemma_ended(data: BorrowData, infos: Seq<LoanInfo>, i: int, p: u64)
    requires
        gather::gather(
            extraction::ended_by(data.events@, infos),
            data.events@.len() as int,
        ) is Ok,
        infos.len() <= u32::MAX,
        forall|j: int| 0 <= j < infos.len() ==> (#[trigger] infos[j]).id == j as u32,
        0 <= i < infos.len(),
    ensures
        gather::gather(
            extraction::ended_by(data.events@, infos),
            data.events@.len() as int,
        )->Ok_0.contains((i as u32, p)) <==> exists|k: int|
            0 <= k < data.events@.len() && !(#[trigger] data.events@[k]).2 && p
                == data.events@[k].1.code() && is_cut(
                data.events@[k].0,
                data.events@[k].1,
                extraction::accessed(data.events@[k].0, data.events@[k].1, infos)->Ok_0,
                infos[i],
            ),
{
    let events = data.events@;
    let y = (i as u32, p);
    let f = extraction::ended_by(events, infos);
    gather::lemma_in_gathered(f, events.len() as int, y);
    if exists|k: int| 0 <= k < events.len() && (#[trigger] f(k))->Ok_0.contains(y) {
        let k = choose|k: int| 0 <= k < events.len() && (#[trigger] f(k))->Ok_0.contains(y);
        assert(f(k) is Ok);
        assert(!events[k].2);
        let hit = extraction::accessed(events[k].0, events[k].1, infos)->Ok_0;
        lemma_cut(events[k].0, events[k].1, hit, infos, i, p);
    }
    if exists|k: int|
        0 <= k < events.len() && !(#[trigger] events[k]).2 && p == events[k].1.code() && is_cut(
            events[k].0,
            events[k].1,
            extraction::accessed(events[k].0, events[k].1, infos)->Ok_0,
            infos[i],
        ) {
        let k = choose|k: int|
            0 <= k < events.len() && !(#[trigger] events[k]).2 && p == events[k].1.code()
                && is_cut(
                events[k].0,
                events[k].1,
                extraction::accessed(events[k].0, events[k].1, infos)->Ok_0,
                infos[i],
            );
        assert(f(k) is Ok);
        let hit = extraction::accessed(events[k].0, events[k].1, infos)->Ok_0;
        lemma_cut(events[k].0, events[k].1, hit, infos, i, p);
        assert(f(k)->Ok_0.contains(y));
    }
}

// ---------------------------------------------------------------------------
// Receivers
// ---------------------------------------------------------------------------

/// The expression calls the callee, or its callee or an argument does, at most `depth` deep.
pub open spec fn calls(e: HirExpr, callee: HirExpr, depth: nat) -> bool
    decreases depth,
{
    match e {
        HirExpr::Call { callee: c, args } => {
            ||| *c == callee
            ||| depth > 0 && calls(*c, callee, (depth - 1) as nat)
            ||| depth > 0 && exists|k: int|
                0 <= k < args@.len() && calls(#[trigger] args@[k], callee, (depth - 1) as nat)
        },
        _ => false,
    }
}

/// The place is what a callee is a field of.
pub open spec fn is_receiver(callee: HirExpr, p: FrozenPlace) -> bool {
    match callee {
        HirExpr::FieldAccess { base, field } => base.place() == Some(p),
        _ => false,
    }
}

proof fn lemma_receiver_found(e: HirExpr, callee: HirExpr, depth: nat, p: FrozenPlace)
    requires
        calls(e, callee, depth),
        is_receiver(callee, p),
    ensures
        extraction::receivers_in(e).contains(p),
    decreases depth,
{
    if let HirExpr::Call { callee: c, args } = e {
        let a = extraction::receiver(*c);
        let b = extraction::receivers_in(*c);
        let d = extraction::receivers_in_all(args@, args@.len() as int);
        assert(extraction::receivers_in(e) == a + b + d) by {
            reveal_with_fuel(extraction::receivers_in, 2);
            reveal_with_fuel(extraction::receivers_in_all, 2);
        }
        gather::lemma_in_both(a, b, p);
        gather::lemma_in_both(a + b, d, p);
        if *c == callee {
            assert(a[0] == p);
        } else if depth > 0 && calls(*c, callee, (depth - 1) as nat) {
            lemma_receiver_found(*c, callee, (depth - 1) as nat, p);
        } else {
            let k = choose|k: int|
                0 <= k < args@.len() && calls(#[trigger] args@[k], callee, (depth - 1) as nat);
            lemma_receiver_found(args@[k], callee, (depth - 1) as nat, p);
            lemma_receiver_at(args@, args@.len() as int, k, p);
        }
    }
}

proof fn lemma_receiver_at(args: Seq<HirExpr>, n: int, k: int, p: FrozenPlace)
    requires
        0 <= k < n <= args.len(),
        extraction::receivers_in(args[k]).contains(p),
    ensures
        extraction::receivers_in_all(args, n).contains(p),
    decreases n,
{
    gather::lemma_in_both(
        extraction::receivers_in_all(args, n - 1),
        extraction::receivers_in(args[n - 1]),
        p,
    );
    if k < n - 1 {
        lemma_receiver_at(args, n - 1, k, p);
    }
}

/// A loan of the receiver of a method call, however deep in the value of a statement, is
/// reserved until the call.
pub proof fn law_receivers_are_reserved(
    blocks: Seq<Block>,
    body: Seq<HirStmt>,
    live: PointLiveness,
    data: BorrowData,
    x: Extraction,
    i: int,
    k: int,
    callee: HirExpr,
    depth: nat,
)
    requires
        extracts(blocks, body, live, data, x),
        0 <= i < data.loans@.len(),
        0 <= k < body.len(),
        match body[k] {
            HirStmt::VariableDef { name, value } => value matches Some(e) && calls(e, callee, depth),
            HirStmt::Assign { target, value } => calls(value, callee, depth),
            HirStmt::Expression(e) => calls(e, callee, depth),
            HirStmt::Return { value, span } => value matches Some(e) && calls(e, callee, depth),
            _ => false,
        },
        is_receiver(callee, data.loans@[i].place),
    ensures
        x.infos[i].two_phase,
{
    let p = data.loans@[i].place;
    let e = extraction::value_of(body[k])->0;
    lemma_receiver_found(e, callee, depth, p);
    let f = extraction::stmt_receivers(body);
    gather::lemma_in_piece(f, body.len() as int, p);
    assert(f(k).contains(p));
}

} // verus!
