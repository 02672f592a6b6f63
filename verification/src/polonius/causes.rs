//! What there is for each fact that is extracted.
use super::calls;
use super::crossings::{evaluates, is_call, is_entry, is_operand, is_within};
use super::extraction;
use super::extraction::Extraction;
use super::input::{Block, BorrowData, CalleeEntry, LoanSite, PointLiveness};
use super::traces;
use super::traces::{extracts, is_held, is_receiver, is_use};
use crate::gather;
use crate::hir::{HirExpr, HirStmt};
use crate::place::FrozenPlace;
use crate::symbol::Symbol;
use vstd::prelude::*;

verus! {

// ---------------------------------------------------------------------------
// Loans
// ---------------------------------------------------------------------------

/// Each use of a variable that is listed is one, and the variable holds a loan.
pub proof fn law_uses_have_causes(
    blocks: Seq<Block>,
    body: Seq<HirStmt>,
    live: PointLiveness,
    data: BorrowData,
    x: Extraction,
    v: Symbol,
    p: u64,
)
    requires
        extracts(blocks, body, live, data, x),
        data.wf(),
        v.0 < 1_000_000,
    ensures
        x.loans.used.contains((v.0, p)) <==> is_use(data, live, v, p) && exists|i: int|
            0 <= i < data.loans@.len() && (#[trigger] data.loans@[i]).var == Some(v),
{
    traces::lemma_used(data, live, data.loans@.len() as int, v, p);
}

proof fn lemma_derefs(data: BorrowData, live: PointLiveness, n: int)
    requires
        data.loan_pass(live, n) is Ok,
        0 <= n <= data.loans@.len(),
    ensures
        data.loan_pass(live, n)->Ok_0.derefs == Seq::new(
            n as nat,
            |i: int| (extraction::loan_var(data.loans@, i), i as u32),
        ),
    decreases n,
{
    if n > 0 {
        lemma_derefs(data, live, n - 1);
    }
}

/// The uses that reach the origin of a loan are those of the variable that holds it, and of no
/// other: there is one entry for each loan.
pub proof fn law_origins_are_reached(
    blocks: Seq<Block>,
    body: Seq<HirStmt>,
    live: PointLiveness,
    data: BorrowData,
    x: Extraction,
    i: int,
)
    requires
        extracts(blocks, body, live, data, x),
        0 <= i < data.loans@.len(),
    ensures
        x.loans.derefs.len() == data.loans@.len(),
        x.loans.derefs[i].1 == i as u32,
        data.loans@[i].var matches Some(v) ==> x.loans.derefs[i].0 == v.0,
{
    lemma_derefs(data, live, data.loans@.len() as int);
}

proof fn lemma_sources(loans: Seq<LoanSite>, n: int, k: int) -> (r: (int, int, Symbol))
    requires
        0 <= n <= loans.len(),
        extraction::resolved(loans, n) is Ok,
        0 <= k < extraction::resolved(loans, n)->Ok_0.sources.len(),
    ensures
        r.1 < n,
        is_held(loans, r.1, r.2, r.0),
        loans[r.1].place == FrozenPlace::Deref(Box::new(FrozenPlace::Root(r.2))),
        extraction::resolved(loans, n)->Ok_0.sources[k] == (r.0 as u32, r.1 as u32),
    decreases n,
{
    let q = extraction::resolved(loans, n)->Ok_0;
    if n <= 0 {
        (0, 0, Symbol(0))
    } else {
        let before = extraction::resolved(loans, n - 1)->Ok_0;
        if k < before.sources.len() {
            lemma_sources(loans, n - 1, k)
        } else {
            let v = extraction::through(loans[n - 1].place)->0;
            let j = extraction::source_loan(loans, n - 1)->Ok_0->0;
            traces::lemma_held(loans, n - 1, v, loans[n - 1].point.code());
            assert(q.sources == before.sources.push((j as u32, (n - 1) as u32)));
            assert(is_held(loans, n - 1, v, j));
            (j, n - 1, v)
        }
    }
}

/// A loan is made through another one only if it is of what the variable refers to that holds
/// the other one.
pub proof fn law_sources_have_causes(
    blocks: Seq<Block>,
    body: Seq<HirStmt>,
    live: PointLiveness,
    data: BorrowData,
    x: Extraction,
    k: int,
) -> (r: (int, int, Symbol))
    requires
        extracts(blocks, body, live, data, x),
        0 <= k < x.sources.len(),
    ensures
        x.sources[k] == (r.0 as u32, r.1 as u32),
        r.1 < data.loans@.len(),
        is_held(data.loans@, r.1, r.2, r.0),
        data.loans@[r.1].place == FrozenPlace::Deref(Box::new(FrozenPlace::Root(r.2))),
{
    lemma_sources(data.loans@, data.loans@.len() as int, k)
}

// ---------------------------------------------------------------------------
// Receivers
// ---------------------------------------------------------------------------

/// The place is the receiver of a call that the expression makes, at most `depth` deep.
pub open spec fn is_met(e: HirExpr, callee: HirExpr, depth: nat, p: FrozenPlace) -> bool {
    traces::calls(e, callee, depth) && is_receiver(callee, p)
}

/// The place is the receiver of a call that the expression makes.
pub open spec fn is_some_receiver(e: HirExpr, p: FrozenPlace) -> bool {
    exists|callee: HirExpr, depth: nat| #[trigger] is_met(e, callee, depth, p)
}

proof fn lemma_receiver_at(s: Seq<HirExpr>, n: int, p: FrozenPlace) -> (i: int)
    requires
        0 <= n <= s.len(),
        extraction::receivers_in_all(s, n).contains(p),
    ensures
        0 <= i < n,
        extraction::receivers_in(s[i]).contains(p),
    decreases n,
{
    if n <= 0 {
        0
    } else {
        gather::lemma_in_both(
            extraction::receivers_in_all(s, n - 1),
            extraction::receivers_in(s[n - 1]),
            p,
        );
        if extraction::receivers_in(s[n - 1]).contains(p) {
            n - 1
        } else {
            lemma_receiver_at(s, n - 1, p)
        }
    }
}

proof fn lemma_receivers(e: HirExpr, p: FrozenPlace)
    requires
        extraction::receivers_in(e).contains(p),
    ensures
        is_some_receiver(e, p),
    decreases e,
{
    if let HirExpr::Call { callee, args } = e {
        let one = extraction::receiver(*callee);
        let inside = extraction::receivers_in(*callee);
        let rest = extraction::receivers_in_all(args@, args@.len() as int);
        gather::lemma_in_both(one + inside, rest, p);
        gather::lemma_in_both(one, inside, p);
        if one.contains(p) {
            assert(is_met(e, *callee, 0, p));
        } else if inside.contains(p) {
            lemma_receivers(*callee, p);
            let (c, d) = choose|c: HirExpr, d: nat| #[trigger] is_met(*callee, c, d, p);
            assert(is_met(e, c, d + 1, p));
        } else {
            let i = lemma_receiver_at(args@, args@.len() as int, p);
            assert(decreases_to!(e => args@[i]));
            lemma_receivers(args@[i], p);
            let (c, d) = choose|c: HirExpr, d: nat| #[trigger] is_met(args@[i], c, d, p);
            assert(traces::calls(args@[i], c, d));
            assert(is_met(e, c, d + 1, p));
        }
    }
}

/// A loan is reserved only if it is of the receiver of a method call in the value of a
/// statement.
pub proof fn law_reserved_loans_have_receivers(
    blocks: Seq<Block>,
    body: Seq<HirStmt>,
    live: PointLiveness,
    data: BorrowData,
    x: Extraction,
    i: int,
)
    requires
        extracts(blocks, body, live, data, x),
        0 <= i < data.loans@.len(),
        x.infos[i].two_phase,
    ensures
        exists|k: int, e: HirExpr|
            0 <= k < body.len() && #[trigger] evaluates(body[k], e) && is_some_receiver(
                e,
                data.loans@[i].place,
            ),
{
    let p = data.loans@[i].place;
    let f = extraction::stmt_receivers(body);
    gather::lemma_in_piece(f, body.len() as int, p);
    let k = choose|k: int| 0 <= k < body.len() && (#[trigger] f(k)).contains(p);
    let e = extraction::value_of(body[k])->0;
    lemma_receivers(e, p);
    assert(evaluates(body[k], e));
}

// ---------------------------------------------------------------------------
// Call sites
// ---------------------------------------------------------------------------

/// The second expression, a call of the function of this name, is within the first.
pub open spec fn is_call_in(e: HirExpr, c: HirExpr, depth: nat, name: Symbol) -> bool {
    is_within(e, c, depth) && is_call(c, name)
}

/// The expression calls a function for which entry `k` stands.
pub open spec fn is_calling(registry: Seq<CalleeEntry>, e: HirExpr, k: int) -> bool {
    exists|c: HirExpr, depth: nat, name: Symbol| #[trigger]
        is_call_in(e, c, depth, name) && is_entry(registry, name, k)
}

proof fn lemma_callee_is_entry(registry: Seq<CalleeEntry>, name: Symbol, n: int)
    requires
        0 <= n <= registry.len(),
    ensures
        match calls::callee(registry, name, n) {
            Some(k) => k < n && is_entry(registry, name, k),
            None => forall|j: int|
                0 <= j < n ==> (#[trigger] registry[j]).name != name || registry[j].is_method,
        },
    decreases n,
{
    if n > 0 {
        lemma_callee_is_entry(registry, name, n - 1);
    }
}

proof fn lemma_from_operand(registry: Seq<CalleeEntry>, e: HirExpr, m: HirExpr, k: int)
    requires
        is_operand(e, m),
        is_calling(registry, m, k),
    ensures
        is_calling(registry, e, k),
{
    let (c, d, name) = choose|c: HirExpr, d: nat, name: Symbol| #[trigger]
        is_call_in(m, c, d, name) && is_entry(registry, name, k);
    assert(is_operand(e, m) && is_within(m, c, (d + 1 - 1) as nat));
    assert(is_call_in(e, c, d + 1, name));
}

proof fn lemma_call_at(registry: Seq<CalleeEntry>, s: Seq<HirExpr>, n: int, k: int) -> (i: int)
    requires
        0 <= n <= s.len(),
        calls::known_calls_all(registry, s, n).contains(k),
    ensures
        0 <= i < n,
        calls::known_calls(registry, s[i]).contains(k),
    decreases n,
{
    if n <= 0 {
        0
    } else {
        gather::lemma_in_both(
            calls::known_calls_all(registry, s, n - 1),
            calls::known_calls(registry, s[n - 1]),
            k,
        );
        if calls::known_calls(registry, s[n - 1]).contains(k) {
            n - 1
        } else {
            lemma_call_at(registry, s, n - 1, k)
        }
    }
}

proof fn lemma_field_call_at(
    registry: Seq<CalleeEntry>,
    s: Seq<(Symbol, HirExpr)>,
    n: int,
    k: int,
) -> (i: int)
    requires
        0 <= n <= s.len(),
        calls::known_calls_fields(registry, s, n).contains(k),
    ensures
        0 <= i < n,
        calls::known_calls(registry, s[i].1).contains(k),
    decreases n,
{
    if n <= 0 {
        0
    } else {
        gather::lemma_in_both(
            calls::known_calls_fields(registry, s, n - 1),
            calls::known_calls(registry, s[n - 1].1),
            k,
        );
        if calls::known_calls(registry, s[n - 1].1).contains(k) {
            n - 1
        } else {
            lemma_field_call_at(registry, s, n - 1, k)
        }
    }
}

proof fn lemma_calls_within(registry: Seq<CalleeEntry>, e: HirExpr, k: int)
    requires
        calls::known_calls(registry, e).contains(k),
    ensures
        is_calling(registry, e, k),
    decreases e,
{
    match e {
        HirExpr::Call { callee, args } => {
            let one = calls::called(registry, *callee);
            let all = calls::known_calls_all(registry, args@, args@.len() as int);
            gather::lemma_in_both(one, all, k);
            if one.contains(k) {
                if let HirExpr::Ident(name) = *callee {
                    lemma_callee_is_entry(registry, name, registry.len() as int);
                    assert(is_within(e, e, 0));
                    assert(is_call(e, name));
                    assert(is_call_in(e, e, 0, name));
                }
            } else {
                let i = lemma_call_at(registry, args@, args@.len() as int, k);
                assert(decreases_to!(e => args@[i]));
                lemma_calls_within(registry, args@[i], k);
                lemma_from_operand(registry, e, args@[i], k);
            }
        },
        HirExpr::Tuple(elems) => {
            let i = lemma_call_at(registry, elems@, elems@.len() as int, k);
            assert(decreases_to!(e => elems@[i]));
            lemma_calls_within(registry, elems@[i], k);
            lemma_from_operand(registry, e, elems@[i], k);
        },
        HirExpr::Array(elems) => {
            let i = lemma_call_at(registry, elems@, elems@.len() as int, k);
            assert(decreases_to!(e => elems@[i]));
            lemma_calls_within(registry, elems@[i], k);
            lemma_from_operand(registry, e, elems@[i], k);
        },
        HirExpr::StructLit { fields } => {
            let i = lemma_field_call_at(registry, fields@, fields@.len() as int, k);
            assert(decreases_to!(e => fields@[i].1));
            lemma_calls_within(registry, fields@[i].1, k);
            lemma_from_operand(registry, e, fields@[i].1, k);
        },
        HirExpr::BinaryOp { left, right } => {
            gather::lemma_in_both(
                calls::known_calls(registry, *left),
                calls::known_calls(registry, *right),
                k,
            );
            if calls::known_calls(registry, *left).contains(k) {
                lemma_calls_within(registry, *left, k);
                lemma_from_operand(registry, e, *left, k);
            } else {
                lemma_calls_within(registry, *right, k);
                lemma_from_operand(registry, e, *right, k);
            }
        },
        HirExpr::Index { base, index } => {
            gather::lemma_in_both(
                calls::known_calls(registry, *base),
                calls::known_calls(registry, *index),
                k,
            );
            if calls::known_calls(registry, *base).contains(k) {
                lemma_calls_within(registry, *base, k);
                lemma_from_operand(registry, e, *base, k);
            } else {
                lemma_calls_within(registry, *index, k);
                lemma_from_operand(registry, e, *index, k);
            }
        },
        HirExpr::Move(inner) => {
            lemma_calls_within(registry, *inner, k);
            lemma_from_operand(registry, e, *inner, k);
        },
        HirExpr::UnaryOp { op, expr } => {
            lemma_calls_within(registry, *expr, k);
            lemma_from_operand(registry, e, *expr, k);
        },
        _ => {},
    }
}

/// The statement is at this point and calls a function for which entry `k` stands.
pub open spec fn is_site(
    registry: Seq<CalleeEntry>,
    blocks: Seq<Block>,
    b: int,
    s: int,
    e: HirExpr,
    k: int,
) -> bool {
    &&& 0 <= b < blocks.len() && 0 <= s < blocks[b].stmts@.len()
    &&& evaluates(blocks[b].stmts@[s], e)
    &&& is_calling(registry, e, k)
}

/// Each call site is the start of a statement that calls the function.
pub proof fn law_call_sites_have_calls(
    registry: Seq<CalleeEntry>,
    blocks: Seq<Block>,
    k: int,
    p: u64,
)
    requires
        calls::call_sites(registry, blocks).contains((k, p)),
    ensures
        exists|b: int, s: int, e: HirExpr| #[trigger]
            is_site(registry, blocks, b, s, e, k) && p == extraction::at(b, s, 0).code(),
{
    let y = (k, p);
    let f = calls::sites_in_block(registry, blocks);
    gather::lemma_in_piece(f, blocks.len() as int, y);
    let b = choose|b: int| 0 <= b < blocks.len() && (#[trigger] f(b)).contains(y);
    let stmts = blocks[b].stmts@;
    let g = calls::sites_in_stmt(registry, stmts, b);
    gather::lemma_in_piece(g, stmts.len() as int, y);
    let s = choose|s: int| 0 <= s < stmts.len() && (#[trigger] g(s)).contains(y);
    let found = calls::stmt_calls(registry, stmts[s]);
    let piece = g(s);
    let i = choose|i: int| 0 <= i < piece.len() && piece[i] == y;
    assert(found[i] == k);
    let e = extraction::value_of(stmts[s])->0;
    assert(found.contains(k));
    assert(found == calls::known_calls(registry, e));
    lemma_calls_within(registry, e, k);
    assert(is_site(registry, blocks, b, s, e, k));
}

} // verus!
