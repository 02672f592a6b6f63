//! Extracting the facts of a function body.
use super::extraction;
use super::facts::PoloniusFacts;
use super::input::{
    holds_symbol, Block, BorrowData, CfgGraph, Kill, LoanInfo, LoanSite, PointLiveness,
};
use super::point::{point_id, BlockId, Point, PointOverflow};
use crate::gather;
use crate::hir::{hir_expr_place, HirExpr, HirStmt};
use crate::place::{holds_place, place_is_prefix_of, place_root_var, FrozenPlace};
use crate::symbol::{Span, Symbol};
use vstd::prelude::*;

verus! {

// ---------------------------------------------------------------------------
// Control flow
// ---------------------------------------------------------------------------

fn push_edge(p: Point, q: Point, out: &mut Vec<(u64, u64)>) -> (r: Result<(), PointOverflow>)
    ensures
        gather::appends(r, old(out)@, final(out)@, extraction::edge(p, q)),
{
    let a: u64 = match point_id(p) {
        Ok(x) => x,
        Err(e) => {
            return Err(e);
        },
    };
    let b: u64 = match point_id(q) {
        Ok(x) => x,
        Err(e) => {
            return Err(e);
        },
    };
    out.push((a, b));
    assert(out@ =~= old(out)@ + seq![(a, b)]);
    Ok(())
}

/// The edges through the expressions of a statement with `n` of them.
fn push_chain(
    data: &BorrowData,
    b: usize,
    s: usize,
    n: usize,
    out: &mut Vec<(u64, u64)>,
) -> (r: Result<(), PointOverflow>)
    requires
        n >= 1,
    ensures
        gather::appends(
            r,
            old(out)@,
            final(out)@,
            gather::gather(data.chain(b as int, s as int), n - 1),
        ),
{
    let ghost f = data.chain(b as int, s as int);
    let ghost start = out@;
    let mut k: usize = 0;
    assert(out@ =~= start + Seq::empty());
    while k < n - 1
        invariant
            f == data.chain(b as int, s as int),
            n >= 1,
            k <= n - 1,
            gather::gather(f, k as int) is Ok,
            out@ == start + gather::gather(f, k as int)->Ok_0,
        decreases n - k,
    {
        let ghost before = out@;
        let step = push_edge(
            Point { block: BlockId(b), stmt: s, expr: k },
            Point { block: BlockId(b), stmt: s, expr: k + 1 },
            out,
        );
        assert(f(k as int) == extraction::edge(
            extraction::at(b as int, s as int, k as int),
            extraction::at(b as int, s as int, k + 1),
        ));
        if let Err(e) = step {
            proof {
                gather::lemma_first_failure(f, k + 1, n - 1);
            }
            return Err(e);
        }
        assert(out@ =~= start + gather::gather(f, k + 1)->Ok_0);
        k += 1;
    }
    Ok(())
}

/// The edges of a statement.
fn push_stmt(data: &BorrowData, b: usize, s: usize, out: &mut Vec<(u64, u64)>) -> (r: Result<
    (),
    PointOverflow,
>)
    requires
        data.wf(),
        s < usize::MAX,
    ensures
        gather::appends(r, old(out)@, final(out)@, data.stmt_edges(b as int, s as int)),
{
    let e: usize = data.expr_count(b, s);
    let ghost start = out@;
    let chain = push_chain(data, b, s, e, out);
    if chain.is_err() {
        return chain;
    }
    let last = push_edge(
        Point { block: BlockId(b), stmt: s, expr: e - 1 },
        Point { block: BlockId(b), stmt: s + 1, expr: 0 },
        out,
    );
    if last.is_ok() {
        assert(out@ =~= start + data.stmt_edges(b as int, s as int)->Ok_0);
    }
    last
}

/// The edges from the end of a block.
fn push_exits(data: &BorrowData, blk: &Block, b: usize, out: &mut Vec<(u64, u64)>) -> (r: Result<
    (),
    PointOverflow,
>)
    requires
        data.wf(),
    ensures
        gather::appends(r, old(out)@, final(out)@, data.exit_edges(*blk, b as int)),
{
    let n: usize = blk.stmts.len();
    let e: usize = data.expr_count(b, n);
    let term: u64 = match point_id(Point { block: BlockId(b), stmt: n, expr: e - 1 }) {
        Ok(x) => x,
        Err(e) => {
            return Err(e);
        },
    };
    let ghost f = data.jumps(term, blk.succs@);
    let ghost start = out@;
    let mut k: usize = 0;
    assert(out@ =~= start + Seq::empty());
    while k < blk.succs.len()
        invariant
            f == data.jumps(term, blk.succs@),
            0 <= k <= blk.succs@.len(),
            gather::gather(f, k as int) is Ok,
            out@ == start + gather::gather(f, k as int)->Ok_0,
            data.exit_edges(*blk, b as int) == gather::gather(f, blk.succs@.len() as int),
        decreases blk.succs.len() - k,
    {
        let q: u64 = match point_id(Point { block: blk.succs[k], stmt: 0, expr: 0 }) {
            Ok(x) => x,
            Err(e) => {
                proof {
                    assert(blk.succs@[k as int] == BlockId(blk.succs@[k as int].0));
                    assert(f(k as int) == Err::<Seq<(u64, u64)>, PointOverflow>(e));
                    gather::lemma_first_failure(f, k + 1, blk.succs@.len() as int);
                }
                return Err(e);
            },
        };
        proof {
            assert(blk.succs@[k as int] == BlockId(blk.succs@[k as int].0));
            assert(f(k as int) == Ok::<Seq<(u64, u64)>, PointOverflow>(seq![(term, q)]));
        }
        out.push((term, q));
        assert(out@ =~= start + gather::gather(f, k + 1)->Ok_0);
        k += 1;
    }
    Ok(())
}

/// The edges of a block.
fn push_block(data: &BorrowData, blk: &Block, b: usize, out: &mut Vec<(u64, u64)>) -> (r: Result<
    (),
    PointOverflow,
>)
    requires
        data.wf(),
    ensures
        gather::appends(r, old(out)@, final(out)@, data.block_edges(*blk, b as int)),
{
    let n: usize = blk.stmts.len();
    let ghost f = data.all_stmt_edges(b as int);
    let ghost start = out@;
    let mut s: usize = 0;
    assert(out@ =~= start + Seq::empty());
    while s < n
        invariant
            data.wf(),
            f == data.all_stmt_edges(b as int),
            n == blk.stmts@.len(),
            s <= n,
            gather::gather(f, s as int) is Ok,
            out@ == start + gather::gather(f, s as int)->Ok_0,
        decreases n - s,
    {
        let step = push_stmt(data, b, s, out);
        assert(f(s as int) == data.stmt_edges(b as int, s as int));
        if let Err(e) = step {
            proof {
                gather::lemma_first_failure(f, s + 1, n as int);
            }
            return Err(e);
        }
        assert(out@ =~= start + gather::gather(f, s + 1)->Ok_0);
        s += 1;
    }
    let e: usize = data.expr_count(b, n);
    let chain = push_chain(data, b, n, e, out);
    if chain.is_err() {
        return chain;
    }
    let exits = push_exits(data, blk, b, out);
    if exits.is_ok() {
        assert(out@ =~= start + data.block_edges(*blk, b as int)->Ok_0);
    }
    exits
}

/// The edges of the control flow graph.
fn push_blocks(data: &BorrowData, blocks: &Vec<Block>, out: &mut Vec<(u64, u64)>) -> (r: Result<
    (),
    PointOverflow,
>)
    requires
        data.wf(),
    ensures
        gather::appends(
            r,
            old(out)@,
            final(out)@,
            gather::gather(data.all_block_edges(blocks@), blocks@.len() as int),
        ),
{
    let ghost f = data.all_block_edges(blocks@);
    let ghost start = out@;
    let mut b: usize = 0;
    assert(out@ =~= start + Seq::empty());
    while b < blocks.len()
        invariant
            data.wf(),
            f == data.all_block_edges(blocks@),
            0 <= b <= blocks@.len(),
            gather::gather(f, b as int) is Ok,
            out@ == start + gather::gather(f, b as int)->Ok_0,
        decreases blocks.len() - b,
    {
        let step = push_block(data, &blocks[b], b, out);
        assert(f(b as int) == data.block_edges(blocks@[b as int], b as int));
        if let Err(e) = step {
            proof {
                gather::lemma_first_failure(f, b + 1, blocks@.len() as int);
            }
            return Err(e);
        }
        assert(out@ =~= start + gather::gather(f, b + 1)->Ok_0);
        b += 1;
    }
    Ok(())
}

// ---------------------------------------------------------------------------
// Borrows through references
// ---------------------------------------------------------------------------

/// The variable of a place `*v`.
fn through_var(p: &FrozenPlace) -> (r: Option<Symbol>)
    ensures
        r == extraction::through(*p),
{
    match p {
        FrozenPlace::Deref(b) => match &**b {
            FrozenPlace::Root(v) => Some(*v),
            _ => None,
        },
        _ => None,
    }
}

/// Whether each of the first `n` loans has a point with a number.
fn check_points(loans: &Vec<LoanSite>, n: usize) -> (r: Result<(), PointOverflow>)
    requires
        n <= loans@.len(),
    ensures
        match r {
            Ok(_) => {
                &&& gather::gather(extraction::loan_points(loans@), n as int) is Ok
                &&& forall|k: int|
                    0 <= k < n ==> (#[trigger] loans@[k]).point.overflow() is None
            },
            Err(e) => gather::gather(extraction::loan_points(loans@), n as int) == Err::<
                Seq<u64>,
                PointOverflow,
            >(e),
        },
{
    let ghost f = extraction::loan_points(loans@);
    let mut j: usize = 0;
    while j < n
        invariant
            n <= loans@.len(),
            j <= n,
            f == extraction::loan_points(loans@),
            gather::gather(f, j as int) is Ok,
            forall|k: int| 0 <= k < j ==> (#[trigger] loans@[k]).point.overflow() is None,
        decreases n - j,
    {
        let id = point_id(loans[j].point);
        assert(f(j as int) == gather::one(loans@[j as int].point.id()));
        if let Err(e) = id {
            proof {
                gather::lemma_first_failure(f, j + 1, n as int);
            }
            return Err(e);
        }
        j += 1;
    }
    Ok(())
}

/// The loan that loan `i` goes through.
fn find_source(loans: &Vec<LoanSite>, i: usize) -> (r: Result<Option<usize>, PointOverflow>)
    requires
        i < loans@.len(),
    ensures
        match r {
            Ok(Some(j)) => j < i && extraction::source_loan(loans@, i as int) == Ok::<
                Option<int>,
                PointOverflow,
            >(Some(j as int)),
            Ok(None) => extraction::source_loan(loans@, i as int) == Ok::<
                Option<int>,
                PointOverflow,
            >(None),
            Err(e) => extraction::source_loan(loans@, i as int) == Err::<
                Option<int>,
                PointOverflow,
            >(e),
        },
{
    let v = match through_var(&loans[i].place) {
        Some(v) => v,
        None => {
            return Ok(None);
        },
    };
    let ip: u64 = match point_id(loans[i].point) {
        Ok(x) => x,
        Err(e) => {
            return Err(e);
        },
    };
    if let Err(e) = check_points(loans, i) {
        return Err(e);
    }
    let mut n: usize = i;
    while n > 0
        invariant
            n <= i < loans@.len(),
            forall|k: int| 0 <= k < i ==> (#[trigger] loans@[k]).point.overflow() is None,
            extraction::held_loan(loans@, i as int, v, ip) == extraction::held_loan(
                loans@,
                n as int,
                v,
                ip,
            ),
            extraction::source_loan(loans@, i as int) == Ok::<Option<int>, PointOverflow>(
                extraction::held_loan(loans@, i as int, v, ip),
            ),
        decreases n,
    {
        let l = &loans[n - 1];
        assert(loans@[n - 1].point.overflow() is None);
        let id = point_id(l.point);
        if let Ok(jp) = id {
            if l.var == Some(v) && jp < ip {
                return Ok(Some(n - 1));
            }
        }
        n -= 1;
    }
    Ok(None)
}

/// The places of the loans, and the pairs of loans of which the second goes
/// through the first.
fn resolve_places(loans: &Vec<LoanSite>) -> (r: Result<
    (Vec<FrozenPlace>, Vec<(u32, u32)>),
    PointOverflow,
>)
    requires
        loans@.len() <= u32::MAX,
    ensures
        match r {
            Ok(x) => extraction::resolved(loans@, loans@.len() as int) == Ok::<
                extraction::Resolved,
                PointOverflow,
            >(extraction::Resolved { places: x.0@, sources: x.1@ }) && x.0@.len() == loans@.len(),
            Err(e) => extraction::resolved(loans@, loans@.len() as int) == Err::<
                extraction::Resolved,
                PointOverflow,
            >(e),
        },
{
    let mut places: Vec<FrozenPlace> = Vec::new();
    let mut sources: Vec<(u32, u32)> = Vec::new();
    let mut i: usize = 0;
    assert(places@ =~= Seq::empty());
    assert(sources@ =~= Seq::empty());
    while i < loans.len()
        invariant
            loans@.len() <= u32::MAX,
            0 <= i <= loans@.len(),
            places@.len() == i,
            extraction::resolved(loans@, i as int) == Ok::<extraction::Resolved, PointOverflow>(
                extraction::Resolved { places: places@, sources: sources@ },
            ),
        decreases loans.len() - i,
    {
        match find_source(loans, i) {
            Err(e) => {
                proof {
                    lemma_resolved_failure(loans@, i + 1, loans@.len() as int);
                }
                return Err(e);
            },
            Ok(Some(j)) => {
                sources.push((j as u32, i as u32));
                let p = places[j].clone();
                places.push(p);
            },
            Ok(None) => {
                places.push(loans[i].place.clone());
            },
        }
        i += 1;
    }
    Ok((places, sources))
}

proof fn lemma_resolved_failure(loans: Seq<LoanSite>, k: int, n: int)
    requires
        k <= n,
        extraction::resolved(loans, k) is Err,
    ensures
        extraction::resolved(loans, n) == extraction::resolved(loans, k),
    decreases n - k,
{
    if k < n {
        lemma_resolved_failure(loans, k, n - 1);
    }
}

// ---------------------------------------------------------------------------
// Loans
// ---------------------------------------------------------------------------

/// The uses of a variable in a block.
fn push_block_uses(
    data: &BorrowData,
    uses: &Vec<Vec<Symbol>>,
    v: Symbol,
    b: usize,
    out: &mut Vec<(u32, u64)>,
) -> (r: Result<(), PointOverflow>)
    requires
        data.wf(),
    ensures
        gather::appends(
            r,
            old(out)@,
            final(out)@,
            gather::gather(data.stmt_uses(uses@, v, b as int), uses@.len() as int),
        ),
{
    let ghost f = data.stmt_uses(uses@, v, b as int);
    let ghost start = out@;
    let mut s: usize = 0;
    assert(out@ =~= start + Seq::empty());
    while s < uses.len()
        invariant
            data.wf(),
            f == data.stmt_uses(uses@, v, b as int),
            0 <= s <= uses@.len(),
            gather::gather(f, s as int) is Ok,
            out@ == start + gather::gather(f, s as int)->Ok_0,
        decreases uses.len() - s,
    {
        if holds_symbol(&uses[s], v) {
            let e: usize = data.expr_count(b, s);
            match point_id(Point { block: BlockId(b), stmt: s, expr: e - 1 }) {
                Ok(p) => {
                    assert(f(s as int) == Ok::<Seq<(u32, u64)>, PointOverflow>(seq![(v.0, p)]));
                    out.push((v.to_u32(), p));
                },
                Err(e) => {
                    proof {
                        assert(f(s as int) == Err::<Seq<(u32, u64)>, PointOverflow>(e));
                        gather::lemma_first_failure(f, s + 1, uses@.len() as int);
                    }
                    return Err(e);
                },
            }
        } else {
            assert(f(s as int) == Ok::<Seq<(u32, u64)>, PointOverflow>(Seq::empty()));
        }
        assert(out@ =~= start + gather::gather(f, s + 1)->Ok_0);
        s += 1;
    }
    Ok(())
}

/// The uses of a variable.
fn push_uses(
    data: &BorrowData,
    live: &PointLiveness,
    v: Symbol,
    out: &mut Vec<(u32, u64)>,
) -> (r: Result<(), PointOverflow>)
    requires
        data.wf(),
    ensures
        gather::appends(
            r,
            old(out)@,
            final(out)@,
            gather::gather(data.block_uses(*live, v), live.var_uses@.len() as int),
        ),
{
    let ghost f = data.block_uses(*live, v);
    let ghost start = out@;
    let mut b: usize = 0;
    assert(out@ =~= start + Seq::empty());
    while b < live.var_uses.len()
        invariant
            data.wf(),
            f == data.block_uses(*live, v),
            0 <= b <= live.var_uses@.len(),
            gather::gather(f, b as int) is Ok,
            out@ == start + gather::gather(f, b as int)->Ok_0,
        decreases live.var_uses.len() - b,
    {
        let step = push_block_uses(data, &live.var_uses[b], v, b, out);
        assert(f(b as int) == gather::gather(
            data.stmt_uses(live.var_uses@[b as int]@, v, b as int),
            live.var_uses@[b as int]@.len() as int,
        ));
        if let Err(e) = step {
            proof {
                gather::lemma_first_failure(f, b + 1, live.var_uses@.len() as int);
            }
            return Err(e);
        }
        assert(out@ =~= start + gather::gather(f, b + 1)->Ok_0);
        b += 1;
    }
    Ok(())
}

/// The last listed use of the variable.
fn find_last_use(used: &Vec<(u32, u64)>, v: u32) -> (r: Option<u64>)
    ensures
        r == extraction::last_use(used@, v, used@.len() as int),
{
    let mut best: Option<u64> = None;
    let mut i: usize = 0;
    while i < used.len()
        invariant
            0 <= i <= used@.len(),
            best == extraction::last_use(used@, v, i as int),
        decreases used.len() - i,
    {
        let (w, p) = used[i];
        if w == v {
            match best {
                Some(q) => {
                    if q <= p {
                        best = Some(p);
                    }
                },
                None => {
                    best = Some(p);
                },
            }
        }
        i += 1;
    }
    best
}

/// The facts of the loan pass stand in `facts`.
spec fn holds_pass(facts: PoloniusFacts, p: extraction::LoanPass) -> bool {
    &&& facts.var_used_at@ == p.used
    &&& facts.use_of_var_derefs_origin@ == p.derefs
    &&& facts.loan_killed_at@ == p.killed
    &&& facts.loan_issued_at@ == p.issued
}

/// The two differ in what the loan pass writes only.
spec fn keeps_others(a: PoloniusFacts, b: PoloniusFacts) -> bool {
    &&& a.cfg_edge == b.cfg_edge
    &&& a.loan_invalidated_at == b.loan_invalidated_at
    &&& a.reborrow_sources == b.reborrow_sources
    &&& a.subset_base == b.subset_base
    &&& a.universal_region == b.universal_region
    &&& a.known_placeholder_subset == b.known_placeholder_subset
    &&& a.var_defined_at == b.var_defined_at
    &&& a.var_dropped_at == b.var_dropped_at
    &&& a.drop_of_var_derefs_origin == b.drop_of_var_derefs_origin
    &&& a.child_path == b.child_path
    &&& a.path_is_var == b.path_is_var
}

/// The facts of loan `i`, of which `temps` temporary ones came before.
fn push_loan(
    data: &BorrowData,
    live: &PointLiveness,
    i: usize,
    temps: u32,
    facts: &mut PoloniusFacts,
) -> (r: Result<(), PointOverflow>)
    requires
        data.wf(),
        i < data.loans@.len(),
        temps == extraction::temporaries(data.loans@, i as int),
        temps <= i,
        data.loan_pass(*live, i as int) is Ok,
        holds_pass(*old(facts), data.loan_pass(*live, i as int)->Ok_0),
    ensures
        match r {
            Ok(_) => {
                &&& data.loan_pass(*live, i + 1) is Ok
                &&& holds_pass(*final(facts), data.loan_pass(*live, i + 1)->Ok_0)
                &&& keeps_others(*old(facts), *final(facts))
                &&& data.loans@[i as int].point.overflow() is None
            },
            Err(e) => data.loan_pass(*live, i + 1) == Err::<
                extraction::LoanPass,
                PointOverflow,
            >(e),
        },
{
    let l = &data.loans[i];
    let ghost pass = data.loan_pass(*live, i as int)->Ok_0;
    let id: u32 = i as u32;
    let part = l.place.is_part_exec();
    match l.var {
        Some(v) => {
            let uses = push_uses(data, live, v, &mut facts.var_used_at);
            if let Err(e) = uses {
                return Err(e);
            }
            facts.use_of_var_derefs_origin.push((v.to_u32(), id));
            let last = find_last_use(&facts.var_used_at, v.to_u32());
            if let Some(p) = last {
                if !part {
                    facts.loan_killed_at.push((id, p));
                }
            }
        },
        None => {
            let tv: u32 = 1_000_000 + temps;
            let e: usize = data.expr_count(l.point.block.0, l.point.stmt);
            let end = match point_id(
                Point { block: l.point.block, stmt: l.point.stmt, expr: e - 1 },
            ) {
                Ok(x) => x,
                Err(e) => {
                    return Err(e);
                },
            };
            facts.var_used_at.push((tv, end));
            facts.use_of_var_derefs_origin.push((tv, id));
            if !part {
                facts.loan_killed_at.push((id, end));
            }
        },
    }
    let ghost u = data.loan_uses(*live, i as int)->Ok_0;
    assert(facts.var_used_at@ =~= pass.used + u);
    assert(facts.loan_killed_at@ =~= pass.killed + data.end_of_loan(pass.used + u, i as int));
    let ip: u64 = match point_id(l.point) {
        Ok(x) => x,
        Err(e) => {
            return Err(e);
        },
    };
    facts.loan_issued_at.push((id, id, ip));
    Ok(())
}

proof fn lemma_pass_failure(data: BorrowData, live: PointLiveness, k: int, n: int)
    requires
        k <= n,
        data.loan_pass(live, k) is Err,
    ensures
        data.loan_pass(live, n) == data.loan_pass(live, k),
    decreases n - k,
{
    if k < n {
        lemma_pass_failure(data, live, k, n - 1);
    }
}

/// The facts of the loans, and what is known of each.
fn push_loans(
    data: &BorrowData,
    live: &PointLiveness,
    places: &Vec<FrozenPlace>,
    receivers: &Vec<FrozenPlace>,
    facts: &mut PoloniusFacts,
) -> (r: Result<Vec<LoanInfo>, PointOverflow>)
    requires
        data.wf(),
        places@.len() == data.loans@.len(),
        old(facts).var_used_at@.len() == 0,
        old(facts).use_of_var_derefs_origin@.len() == 0,
        old(facts).loan_killed_at@.len() == 0,
        old(facts).loan_issued_at@.len() == 0,
    ensures
        match r {
            Ok(infos) => {
                &&& data.loan_pass(*live, data.loans@.len() as int) is Ok
                &&& holds_pass(
                    *final(facts),
                    data.loan_pass(*live, data.loans@.len() as int)->Ok_0,
                )
                &&& keeps_others(*old(facts), *final(facts))
                &&& infos@ == data.infos(places@, receivers@)
                &&& forall|k: int|
                    0 <= k < infos@.len() ==> (#[trigger] infos@[k]).point.overflow() is None
            },
            Err(e) => data.loan_pass(*live, data.loans@.len() as int) == Err::<
                extraction::LoanPass,
                PointOverflow,
            >(e),
        },
{
    let mut infos: Vec<LoanInfo> = Vec::new();
    let mut temps: u32 = 0;
    let mut i: usize = 0;
    assert(holds_pass(*facts, data.loan_pass(*live, 0)->Ok_0)) by {
        assert(facts.var_used_at@ =~= Seq::empty());
        assert(facts.use_of_var_derefs_origin@ =~= Seq::empty());
        assert(facts.loan_killed_at@ =~= Seq::empty());
        assert(facts.loan_issued_at@ =~= Seq::empty());
    }
    while i < data.loans.len()
        invariant
            data.wf(),
            places@.len() == data.loans@.len(),
            0 <= i <= data.loans@.len(),
            temps == extraction::temporaries(data.loans@, i as int),
            temps <= i,
            data.loan_pass(*live, i as int) is Ok,
            holds_pass(*facts, data.loan_pass(*live, i as int)->Ok_0),
            keeps_others(*old(facts), *facts),
            infos@.len() == i,
            forall|k: int|
                0 <= k < i ==> #[trigger] infos@[k] == data.info(places@, receivers@, k),
            forall|k: int| 0 <= k < i ==> (#[trigger] infos@[k]).point.overflow() is None,
        decreases data.loans.len() - i,
    {
        let step = push_loan(data, live, i, temps, facts);
        if let Err(e) = step {
            proof {
                lemma_pass_failure(*data, *live, i + 1, data.loans@.len() as int);
            }
            return Err(e);
        }
        let l = &data.loans[i];
        if l.var.is_none() {
            temps += 1;
        }
        infos.push(
            LoanInfo {
                id: i as u32,
                origin: i as u32,
                place: places[i].clone(),
                borrow_var: l.var,
                kind: l.kind,
                point: l.point,
                span: l.span,
                two_phase: holds_place(receivers, &l.place),
            },
        );
        i += 1;
    }
    assert(infos@ =~= data.infos(places@, receivers@));
    Ok(infos)
}

// ---------------------------------------------------------------------------
// Method receivers
// ---------------------------------------------------------------------------

/// The places of the receivers of the method calls in an expression.
fn push_receivers(e: &HirExpr, out: &mut Vec<FrozenPlace>)
    ensures
        final(out)@ == old(out)@ + extraction::receivers_in(*e),
    decreases *e, 0nat,
{
    let ghost start = out@;
    match e {
        HirExpr::Call { callee, args } => {
            if let HirExpr::FieldAccess { base, .. } = &**callee {
                if let Some(p) = hir_expr_place(base) {
                    out.push(p);
                }
            }
            assert(out@ =~= start + extraction::receiver(**callee));
            push_receivers(callee, out);
            push_receivers_all(args, out);
            assert(out@ =~= start + extraction::receivers_in(*e));
        },
        _ => {
            assert(out@ =~= start + extraction::receivers_in(*e));
        },
    }
}

fn push_receivers_all(args: &Vec<HirExpr>, out: &mut Vec<FrozenPlace>)
    ensures
        final(out)@ == old(out)@ + extraction::receivers_in_all(args@, args@.len() as int),
    decreases *args, 0nat,
{
    let ghost start = out@;
    let mut i: usize = 0;
    assert(out@ =~= start + extraction::receivers_in_all(args@, 0));
    while i < args.len()
        invariant
            0 <= i <= args@.len(),
            out@ == start + extraction::receivers_in_all(args@, i as int),
        decreases args.len() - i,
    {
        push_receivers(&args[i], out);
        assert(out@ =~= start + extraction::receivers_in_all(args@, i + 1));
        i += 1;
    }
}

/// The expression that a statement evaluates.
pub fn stmt_value(stmt: &HirStmt) -> (r: Option<&HirExpr>)
    ensures
        match r {
            Some(e) => extraction::value_of(*stmt) == Some(*e),
            None => extraction::value_of(*stmt) is None,
        },
{
    match stmt {
        HirStmt::VariableDef { value, .. } => value.as_ref(),
        HirStmt::Assign { value, .. } => Some(value),
        HirStmt::Expression(e) => Some(e),
        HirStmt::Return { value, .. } => value.as_ref(),
        _ => None,
    }
}

/// The places of the receivers of the method calls in a body.
pub fn collect_method_receiver_places(body: &Vec<HirStmt>) -> (r: Vec<FrozenPlace>)
    ensures
        r@ == extraction::method_receivers(body@),
{
    let mut out: Vec<FrozenPlace> = Vec::new();
    let ghost f = extraction::stmt_receivers(body@);
    let mut i: usize = 0;
    assert(out@ =~= gather::concat(f, 0));
    while i < body.len()
        invariant
            f == extraction::stmt_receivers(body@),
            0 <= i <= body@.len(),
            out@ == gather::concat(f, i as int),
        decreases body.len() - i,
    {
        match stmt_value(&body[i]) {
            Some(e) => {
                push_receivers(e, &mut out);
            },
            None => {},
        }
        assert(out@ =~= gather::concat(f, i as int) + f(i as int));
        i += 1;
    }
    out
}

// ---------------------------------------------------------------------------
// Kills, definitions, drops
// ---------------------------------------------------------------------------

/// Whether the assignment ends the loan.
fn kill_matches(k: &Kill, info: &LoanInfo) -> (r: bool)
    ensures
        r == extraction::kill_ends(*k, *info),
{
    match k.var {
        Some(v) => {
            info.borrow_var == Some(v) && !(info.point.block == k.point.block && info.point.stmt
                == k.point.stmt)
        },
        None => {
            let own = k.place.same(&info.place);
            let strict = place_is_prefix_of(&k.place, &info.place) && !own;
            if strict && info.place.is_part_exec() {
                false
            } else {
                k.place.touches(&info.place) && !own
            }
        },
    }
}

/// The loans that one assignment ends.
fn push_kill(k: &Kill, infos: &Vec<LoanInfo>, out: &mut Vec<(u32, u64)>) -> (r: Result<
    (),
    PointOverflow,
>)
    ensures
        gather::appends(
            r,
            old(out)@,
            final(out)@,
            gather::gather(extraction::kill_effects(*k, infos@), infos@.len() as int),
        ),
{
    let ghost f = extraction::kill_effects(*k, infos@);
    let ghost start = out@;
    let mut i: usize = 0;
    assert(out@ =~= start + Seq::empty());
    while i < infos.len()
        invariant
            f == extraction::kill_effects(*k, infos@),
            0 <= i <= infos@.len(),
            gather::gather(f, i as int) is Ok,
            out@ == start + gather::gather(f, i as int)->Ok_0,
        decreases infos.len() - i,
    {
        if kill_matches(k, &infos[i]) {
            match point_id(k.point) {
                Ok(p) => {
                    assert(f(i as int) == Ok::<Seq<(u32, u64)>, PointOverflow>(
                        seq![(infos@[i as int].id, p)],
                    ));
                    out.push((infos[i].id, p));
                },
                Err(e) => {
                    proof {
                        assert(f(i as int) == Err::<Seq<(u32, u64)>, PointOverflow>(e));
                        gather::lemma_first_failure(f, i + 1, infos@.len() as int);
                    }
                    return Err(e);
                },
            }
        } else {
            assert(f(i as int) == Ok::<Seq<(u32, u64)>, PointOverflow>(Seq::empty()));
        }
        assert(out@ =~= start + gather::gather(f, i + 1)->Ok_0);
        i += 1;
    }
    Ok(())
}

/// The loans that the assignments end.
fn push_kills(kills: &Vec<Kill>, infos: &Vec<LoanInfo>, out: &mut Vec<(u32, u64)>) -> (r: Result<
    (),
    PointOverflow,
>)
    ensures
        gather::appends(
            r,
            old(out)@,
            final(out)@,
            gather::gather(extraction::all_kill_effects(kills@, infos@), kills@.len() as int),
        ),
{
    let ghost f = extraction::all_kill_effects(kills@, infos@);
    let ghost start = out@;
    let mut k: usize = 0;
    assert(out@ =~= start + Seq::empty());
    while k < kills.len()
        invariant
            f == extraction::all_kill_effects(kills@, infos@),
            0 <= k <= kills@.len(),
            gather::gather(f, k as int) is Ok,
            out@ == start + gather::gather(f, k as int)->Ok_0,
        decreases kills.len() - k,
    {
        let step = push_kill(&kills[k], infos, out);
        assert(f(k as int) == gather::gather(
            extraction::kill_effects(kills@[k as int], infos@),
            infos@.len() as int,
        ));
        if let Err(e) = step {
            proof {
                gather::lemma_first_failure(f, k + 1, kills@.len() as int);
            }
            return Err(e);
        }
        assert(out@ =~= start + gather::gather(f, k + 1)->Ok_0);
        k += 1;
    }
    Ok(())
}

/// The variables that the statements of a block define and drop.
fn push_block_definitions(
    stmts: &Vec<HirStmt>,
    b: usize,
    defined: &mut Vec<(u32, u64)>,
    dropped: &mut Vec<(u32, u64)>,
) -> (r: Result<(), PointOverflow>)
    ensures
        gather::appends(
            r,
            old(defined)@,
            final(defined)@,
            gather::gather(extraction::stmt_defined(stmts@, b as int), stmts@.len() as int),
        ),
        gather::appends(
            r,
            old(dropped)@,
            final(dropped)@,
            gather::gather(extraction::stmt_dropped(stmts@, b as int), stmts@.len() as int),
        ),
{
    let ghost f = extraction::stmt_defined(stmts@, b as int);
    let ghost g = extraction::stmt_dropped(stmts@, b as int);
    let ghost start = defined@;
    let ghost begin = dropped@;
    let mut s: usize = 0;
    assert(defined@ =~= start + Seq::empty());
    assert(dropped@ =~= begin + Seq::empty());
    while s < stmts.len()
        invariant
            f == extraction::stmt_defined(stmts@, b as int),
            g == extraction::stmt_dropped(stmts@, b as int),
            0 <= s <= stmts@.len(),
            gather::gather(f, s as int) is Ok,
            gather::gather(g, s as int) is Ok,
            defined@ == start + gather::gather(f, s as int)->Ok_0,
            dropped@ == begin + gather::gather(g, s as int)->Ok_0,
        decreases stmts.len() - s,
    {
        assert(f(s as int) == extraction::marked(
            extraction::given_value(stmts@[s as int]),
            b as int,
            s as int,
        ));
        assert(g(s as int) == extraction::marked(
            extraction::overwritten(stmts@[s as int]),
            b as int,
            s as int,
        ));
        let pt: u64 = match point_id(Point { block: BlockId(b), stmt: s, expr: 0 }) {
            Ok(x) => x,
            Err(e) => {
                proof {
                    gather::lemma_first_failure(f, s + 1, stmts@.len() as int);
                    gather::lemma_first_failure(g, s + 1, stmts@.len() as int);
                }
                return Err(e);
            },
        };
        match &stmts[s] {
            HirStmt::VariableDef { name: Some(n), .. } => {
                defined.push((n.to_u32(), pt));
            },
            HirStmt::Assign { target, .. } => {
                if let HirExpr::Ident(n) = target {
                    dropped.push((n.to_u32(), pt));
                    defined.push((n.to_u32(), pt));
                }
            },
            _ => {},
        }
        assert(defined@ =~= start + gather::gather(f, s + 1)->Ok_0);
        assert(dropped@ =~= begin + gather::gather(g, s + 1)->Ok_0);
        s += 1;
    }
    Ok(())
}

/// The variables that the statements define and drop.
fn push_definitions(
    blocks: &Vec<Block>,
    defined: &mut Vec<(u32, u64)>,
    dropped: &mut Vec<(u32, u64)>,
) -> (r: Result<(), PointOverflow>)
    ensures
        gather::appends(
            r,
            old(defined)@,
            final(defined)@,
            gather::gather(extraction::block_defined(blocks@), blocks@.len() as int),
        ),
        gather::appends(
            r,
            old(dropped)@,
            final(dropped)@,
            gather::gather(extraction::block_dropped(blocks@), blocks@.len() as int),
        ),
{
    let ghost f = extraction::block_defined(blocks@);
    let ghost g = extraction::block_dropped(blocks@);
    let ghost start = defined@;
    let ghost begin = dropped@;
    let mut b: usize = 0;
    assert(defined@ =~= start + Seq::empty());
    assert(dropped@ =~= begin + Seq::empty());
    while b < blocks.len()
        invariant
            f == extraction::block_defined(blocks@),
            g == extraction::block_dropped(blocks@),
            0 <= b <= blocks@.len(),
            gather::gather(f, b as int) is Ok,
            gather::gather(g, b as int) is Ok,
            defined@ == start + gather::gather(f, b as int)->Ok_0,
            dropped@ == begin + gather::gather(g, b as int)->Ok_0,
        decreases blocks.len() - b,
    {
        let step = push_block_definitions(&blocks[b].stmts, b, defined, dropped);
        assert(f(b as int) == gather::gather(
            extraction::stmt_defined(blocks@[b as int].stmts@, b as int),
            blocks@[b as int].stmts@.len() as int,
        ));
        assert(g(b as int) == gather::gather(
            extraction::stmt_dropped(blocks@[b as int].stmts@, b as int),
            blocks@[b as int].stmts@.len() as int,
        ));
        if let Err(e) = step {
            proof {
                gather::lemma_first_failure(f, b + 1, blocks@.len() as int);
                gather::lemma_first_failure(g, b + 1, blocks@.len() as int);
            }
            return Err(e);
        }
        assert(defined@ =~= start + gather::gather(f, b + 1)->Ok_0);
        assert(dropped@ =~= begin + gather::gather(g, b + 1)->Ok_0);
        b += 1;
    }
    Ok(())
}

/// Whether some entry is of the variable.
fn lists_variable(dropped: &Vec<(u32, u64)>, v: u32) -> (r: bool)
    ensures
        r == extraction::lists_var(dropped@, v),
{
    let mut i: usize = 0;
    while i < dropped.len()
        invariant
            0 <= i <= dropped@.len(),
            forall|k: int| 0 <= k < i ==> (#[trigger] dropped@[k]).0 != v,
        decreases dropped.len() - i,
    {
        if dropped[i].0 == v {
            return true;
        }
        i += 1;
    }
    false
}

/// The variables that are both borrowed from and dropped.
fn find_drop_derefs(loans: &Vec<LoanSite>, dropped: &Vec<(u32, u64)>) -> (r: Vec<(u32, u32)>)
    requires
        loans@.len() <= u32::MAX,
    ensures
        r@ == gather::concat(extraction::drop_derefs(loans@, dropped@), loans@.len() as int),
{
    let ghost f = extraction::drop_derefs(loans@, dropped@);
    let mut out: Vec<(u32, u32)> = Vec::new();
    let mut i: usize = 0;
    assert(out@ =~= gather::concat(f, 0));
    while i < loans.len()
        invariant
            loans@.len() <= u32::MAX,
            f == extraction::drop_derefs(loans@, dropped@),
            0 <= i <= loans@.len(),
            out@ == gather::concat(f, i as int),
        decreases loans.len() - i,
    {
        let root: u32 = place_root_var(&loans[i].place).to_u32();
        if lists_variable(dropped, root) {
            out.push((root, i as u32));
        }
        assert(out@ =~= gather::concat(f, i as int) + f(i as int));
        i += 1;
    }
    out
}

// ---------------------------------------------------------------------------
// Paths
// ---------------------------------------------------------------------------

/// The number of the path, which is added to the list if it is new.
fn path_id(ids: &mut Vec<FrozenPlace>, p: &FrozenPlace) -> (r: u32)
    requires
        old(ids)@.no_duplicates(),
        extraction::with_path(old(ids)@, *p).len() <= u32::MAX,
    ensures
        final(ids)@ == extraction::with_path(old(ids)@, *p),
        final(ids)@.no_duplicates(),
        r == extraction::path_number(final(ids)@, *p),
{
    let mut i: usize = 0;
    while i < ids.len()
        invariant
            0 <= i <= ids@.len(),
            ids@ == old(ids)@,
            ids@.no_duplicates(),
            ids@.len() <= u32::MAX,
            forall|k: int| 0 <= k < i ==> ids@[k] != *p,
        decreases ids.len() - i,
    {
        if ids[i].same(p) {
            proof {
                assert(ids@.contains(*p));
                assert(ids@.index_of(*p) == i);
            }
            return i as u32;
        }
        i += 1;
    }
    assert(!ids@.contains(*p));
    ids.push(p.clone());
    assert(ids@[i as int] == *p);
    assert(ids@.index_of(*p) == i);
    i as u32
}

/// Walking a place adds paths and takes none away.
proof fn lemma_walk_grows(s: extraction::Paths, p: FrozenPlace)
    ensures
        s.ids.len() <= s.walk(p).ids.len(),
        extraction::with_path(s.ids, p).len() <= s.walk(p).ids.len(),
    decreases p,
{
    match p {
        FrozenPlace::Root(v) => {},
        FrozenPlace::Field(b, _) => lemma_walk_grows(s.step(p, *b), *b),
        FrozenPlace::Index(b) => lemma_walk_grows(s.step(p, *b), *b),
        FrozenPlace::ConstIndex(b, _) => lemma_walk_grows(s.step(p, *b), *b),
        FrozenPlace::Deref(b) => lemma_walk_grows(s.step(p, *b), *b),
    }
}

proof fn lemma_walked_grows(places: Seq<FrozenPlace>, k: int, n: int)
    requires
        0 <= k <= n,
    ensures
        extraction::walked(places, k).ids.len() <= extraction::walked(places, n).ids.len(),
    decreases n,
{
    if k < n {
        lemma_walked_grows(places, k, n - 1);
        lemma_walk_grows(extraction::walked(places, n - 1), places[n - 1]);
    }
}

/// The paths, as the three lists hold them.
spec fn paths(
    ids: Vec<FrozenPlace>,
    steps: Vec<(u32, u32)>,
    roots: Vec<(u32, u32)>,
) -> extraction::Paths {
    extraction::Paths { ids: ids@, steps: steps@, roots: roots@ }
}

/// Walks a place down to its variable.
fn walk_path(
    p: &FrozenPlace,
    ids: &mut Vec<FrozenPlace>,
    steps: &mut Vec<(u32, u32)>,
    roots: &mut Vec<(u32, u32)>,
)
    requires
        old(ids)@.no_duplicates(),
        paths(*old(ids), *old(steps), *old(roots)).walk(*p).ids.len() <= u32::MAX,
    ensures
        final(ids)@.no_duplicates(),
        paths(*final(ids), *final(steps), *final(roots)) == paths(
            *old(ids),
            *old(steps),
            *old(roots),
        ).walk(*p),
    decreases *p, 0nat,
{
    let ghost start = paths(*ids, *steps, *roots);
    proof {
        lemma_walk_grows(start, *p);
    }
    let id: u32 = path_id(ids, p);
    match p {
        FrozenPlace::Root(v) => {
            roots.push((id, v.to_u32()));
        },
        FrozenPlace::Field(b, _) => walk_base(p, b, id, ids, steps, roots, Ghost(start)),
        FrozenPlace::Index(b) => walk_base(p, b, id, ids, steps, roots, Ghost(start)),
        FrozenPlace::ConstIndex(b, _) => walk_base(p, b, id, ids, steps, roots, Ghost(start)),
        FrozenPlace::Deref(b) => walk_base(p, b, id, ids, steps, roots, Ghost(start)),
    }
}

/// Goes on from a place with a number to what it is part of.
fn walk_base(
    p: &FrozenPlace,
    b: &FrozenPlace,
    id: u32,
    ids: &mut Vec<FrozenPlace>,
    steps: &mut Vec<(u32, u32)>,
    roots: &mut Vec<(u32, u32)>,
    Ghost(start): Ghost<extraction::Paths>,
)
    requires
        p.parent() == Some(*b),
        old(ids)@.no_duplicates(),
        old(ids)@ == extraction::with_path(start.ids, *p),
        id == extraction::path_number(old(ids)@, *p),
        old(steps)@ == start.steps,
        old(roots)@ == start.roots,
        start.walk(*p).ids.len() <= u32::MAX,
    ensures
        final(ids)@.no_duplicates(),
        paths(*final(ids), *final(steps), *final(roots)) == start.walk(*p),
    decreases *b, 1nat,
{
    proof {
        lemma_walk_grows(start.step(*p, *b), *b);
        assert(start.walk(*p) == start.step(*p, *b).walk(*b));
    }
    let pid: u32 = path_id(ids, b);
    steps.push((id, pid));
    assert(paths(*ids, *steps, *roots) =~= start.step(*p, *b));
    walk_path(b, ids, steps, roots);
}

/// The paths of the places: the steps between them and their variables.
fn number_paths(places: &Vec<FrozenPlace>) -> (r: (Vec<(u32, u32)>, Vec<(u32, u32)>))
    requires
        extraction::walked(places@, places@.len() as int).ids.len() <= u32::MAX,
    ensures
        r.0@ == extraction::walked(places@, places@.len() as int).steps,
        r.1@ == extraction::walked(places@, places@.len() as int).roots,
{
    let mut ids: Vec<FrozenPlace> = Vec::new();
    let mut steps: Vec<(u32, u32)> = Vec::new();
    let mut roots: Vec<(u32, u32)> = Vec::new();
    let mut i: usize = 0;
    assert(paths(ids, steps, roots) =~= extraction::walked(places@, 0));
    while i < places.len()
        invariant
            0 <= i <= places@.len(),
            ids@.no_duplicates(),
            extraction::walked(places@, places@.len() as int).ids.len() <= u32::MAX,
            paths(ids, steps, roots) == extraction::walked(places@, i as int),
        decreases places.len() - i,
    {
        proof {
            lemma_walked_grows(places@, i + 1, places@.len() as int);
        }
        walk_path(&places[i], &mut ids, &mut steps, &mut roots);
        i += 1;
    }
    (steps, roots)
}

// ---------------------------------------------------------------------------
// Accesses
// ---------------------------------------------------------------------------

/// The place that an access touches, the variable that the access names, and
/// whether it goes through a loan.
pub fn resolve_event_place(place: &FrozenPlace, pt: &Point, infos: &Vec<LoanInfo>) -> (r: Result<
    (FrozenPlace, Symbol, bool),
    PointOverflow,
>)
    ensures
        match r {
            Ok(x) => extraction::accessed(*place, *pt, infos@) == Ok::<
                (FrozenPlace, bool),
                PointOverflow,
            >((x.0, x.2)) && x.1 == place.root(),
            Err(e) => extraction::accessed(*place, *pt, infos@) == Err::<
                (FrozenPlace, bool),
                PointOverflow,
            >(e),
        },
{
    let root = place_root_var(place);
    let v = match through_var(place) {
        Some(v) => v,
        None => {
            return Ok((place.clone(), root, false));
        },
    };
    let ip: u64 = match point_id(*pt) {
        Ok(x) => x,
        Err(e) => {
            return Err(e);
        },
    };
    let ghost f = extraction::held_points(infos@, v);
    let mut best: Option<(usize, u64)> = None;
    let mut i: usize = 0;
    while i < infos.len()
        invariant
            0 <= i <= infos@.len(),
            f == extraction::held_points(infos@, v),
            extraction::through(*place) == Some(v),
            pt.id() == Ok::<u64, PointOverflow>(ip),
            gather::gather(f, i as int) is Ok,
            match best {
                Some((k, id)) => k < i && extraction::current_loan(infos@, i as int, v, ip) == Some(
                    k as int,
                ) && id == infos@[k as int].point.code(),
                None => extraction::current_loan(infos@, i as int, v, ip) is None,
            },
        decreases infos.len() - i,
    {
        if infos[i].borrow_var == Some(v) {
            match point_id(infos[i].point) {
                Ok(id) => {
                    assert(f(i as int) == Ok::<Seq<u64>, PointOverflow>(seq![id]));
                    if id < ip {
                        match best {
                            Some((_, b)) => {
                                if b <= id {
                                    best = Some((i, id));
                                }
                            },
                            None => {
                                best = Some((i, id));
                            },
                        }
                    }
                },
                Err(e) => {
                    proof {
                        assert(f(i as int) == Err::<Seq<u64>, PointOverflow>(e));
                        gather::lemma_first_failure(f, i + 1, infos@.len() as int);
                    }
                    return Err(e);
                },
            }
        } else {
            assert(f(i as int) == Ok::<Seq<u64>, PointOverflow>(Seq::empty()));
        }
        i += 1;
    }
    match best {
        Some((k, _)) => Ok((infos[k].place.clone(), root, true)),
        None => Ok((place.clone(), root, false)),
    }
}

/// The loans that assigning to a variable ends.
fn push_rebinding(
    place: &FrozenPlace,
    pt: &Point,
    cur: u64,
    root: Symbol,
    infos: &Vec<LoanInfo>,
    killed: &mut Vec<(u32, u64)>,
)
    requires
        *place == FrozenPlace::Root(root),
        pt.overflow() is None,
        cur == pt.code(),
        forall|k: int| 0 <= k < infos@.len() ==> (#[trigger] infos@[k]).point.overflow() is None,
    ensures
        final(killed)@ == old(killed)@ + gather::concat(
            extraction::rebinding_kills(*place, *pt, infos@),
            infos@.len() as int,
        ),
{
    let ghost f = extraction::rebinding_kills(*place, *pt, infos@);
    let ghost start = killed@;
    let mut i: usize = 0;
    assert(killed@ =~= start + gather::concat(f, 0));
    while i < infos.len()
        invariant
            *place == FrozenPlace::Root(root),
            cur == pt.code(),
            forall|k: int|
                0 <= k < infos@.len() ==> (#[trigger] infos@[k]).point.overflow() is None,
            f == extraction::rebinding_kills(*place, *pt, infos@),
            0 <= i <= infos@.len(),
            killed@ == start + gather::concat(f, i as int),
        decreases infos.len() - i,
    {
        let info = &infos[i];
        assert(infos@[i as int].point.overflow() is None);
        if info.borrow_var == Some(root) {
            if let Ok(id) = point_id(info.point) {
                if id < cur && !(info.point.block == pt.block && info.point.stmt == pt.stmt) {
                    killed.push((info.id, cur));
                }
            }
        }
        assert(f(i as int) =~= (if extraction::rebinding_ends(*place, *pt, infos@[i as int]) {
            seq![(infos@[i as int].id, pt.code())]
        } else {
            Seq::empty()
        }));
        assert(killed@ =~= start + gather::concat(f, i + 1));
        i += 1;
    }
}

/// The loans that a write ends or invalidates.
fn push_write(
    place: &FrozenPlace,
    pt: &Point,
    infos: &Vec<LoanInfo>,
    killed: &mut Vec<(u32, u64)>,
    invalidated: &mut Vec<(u32, u64)>,
) -> (r: Result<(), PointOverflow>)
    requires
        forall|k: int| 0 <= k < infos@.len() ==> (#[trigger] infos@[k]).point.overflow() is None,
    ensures
        match r {
            Ok(_) => {
                &&& extraction::write_effects(*place, *pt, infos@) is Ok
                &&& final(killed)@ == old(killed)@ + extraction::write_effects(
                    *place,
                    *pt,
                    infos@,
                )->Ok_0.0
                &&& final(invalidated)@ == old(invalidated)@ + extraction::write_effects(
                    *place,
                    *pt,
                    infos@,
                )->Ok_0.1
            },
            Err(e) => extraction::write_effects(*place, *pt, infos@) == Err::<
                (Seq<(u32, u64)>, Seq<(u32, u64)>),
                PointOverflow,
            >(e),
        },
{
    let ghost n = infos@.len() as int;
    let ghost reb = extraction::rebinding_kills(*place, *pt, infos@);
    if let FrozenPlace::Root(root) = place {
        match point_id(*pt) {
            Ok(cur) => {
                push_rebinding(place, pt, cur, *root, infos, killed);
            },
            Err(e) => {
                return Err(e);
            },
        }
    } else {
        proof {
            lemma_no_rebinding(*place, *pt, infos@, n);
        }
        assert(killed@ =~= killed@ + Seq::<(u32, u64)>::empty());
    }
    let ghost start = killed@;
    assert(start == old(killed)@ + gather::concat(reb, n));
    let ghost begin = invalidated@;
    let (eplace, oroot, rewritten) = match resolve_event_place(place, pt, infos) {
        Ok(x) => x,
        Err(e) => {
            return Err(e);
        },
    };
    let ghost hit = (eplace, rewritten);
    let ghost f = extraction::write_kills(*place, *pt, hit, infos@);
    let ghost g = extraction::write_invalidations(*place, *pt, hit, infos@);
    let mut i: usize = 0;
    assert(killed@ =~= start + gather::concat(f, 0));
    assert(invalidated@ =~= begin + gather::concat(g, 0));
    while i < infos.len()
        invariant
            n == infos@.len(),
            oroot == place.root(),
            hit == (eplace, rewritten),
            f == extraction::write_kills(*place, *pt, hit, infos@),
            g == extraction::write_invalidations(*place, *pt, hit, infos@),
            extraction::accessed(*place, *pt, infos@) == Ok::<(FrozenPlace, bool), PointOverflow>(
                hit,
            ),
            *place is Root ==> pt.overflow() is None,
            0 <= i <= infos@.len(),
            killed@ == start + gather::concat(f, i as int),
            invalidated@ == begin + gather::concat(g, i as int),
            forall|k: int|
                0 <= k < i && (extraction::write_ends(*place, hit, #[trigger] infos@[k])
                    || extraction::write_breaks(*place, hit, infos@[k])) ==> pt.overflow() is None,
        decreases infos.len() - i,
    {
        let info = &infos[i];
        let ghost it = infos@[i as int];
        let own = rewritten && info.borrow_var == Some(oroot);
        assert(own == extraction::own_access(*place, hit.1, it));
        let strict = place_is_prefix_of(&eplace, &info.place) && !eplace.same(&info.place);
        let back = place_is_prefix_of(&info.place, &eplace);
        assert(strict || back <==> hit.0.overlaps(it.place)) by {
            if hit.0 == it.place {
                assert(it.place.prefixes(hit.0));
            }
        }
        if !own && (strict || back) {
            let ends = strict && !info.place.is_part_exec();
            assert(ends == extraction::write_ends(*place, hit, it));
            assert(!ends == extraction::write_breaks(*place, hit, it));
            match point_id(*pt) {
                Ok(p) => {
                    if ends {
                        killed.push((info.id, p));
                    } else {
                        invalidated.push((info.id, p));
                    }
                },
                Err(e) => {
                    assert(extraction::write_matters(*place, hit, infos@));
                    return Err(e);
                },
            }
        } else {
            assert(!extraction::write_ends(*place, hit, it));
            assert(!extraction::write_breaks(*place, hit, it));
        }
        assert(f(i as int) =~= (if extraction::write_ends(*place, hit, it) {
            seq![(it.id, pt.code())]
        } else {
            Seq::empty()
        }));
        assert(g(i as int) =~= (if extraction::write_breaks(*place, hit, it) {
            seq![(it.id, pt.code())]
        } else {
            Seq::empty()
        }));
        assert(killed@ =~= start + gather::concat(f, i + 1));
        assert(invalidated@ =~= begin + gather::concat(g, i + 1));
        i += 1;
    }
    assert(!(extraction::write_matters(*place, hit, infos@) && pt.overflow() is Some));
    assert(killed@ =~= old(killed)@ + (gather::concat(reb, n) + gather::concat(f, n)));
    Ok(())
}

/// A write to anything but a variable rebinds none.
proof fn lemma_no_rebinding(place: FrozenPlace, pt: Point, infos: Seq<LoanInfo>, n: int)
    requires
        !(place is Root),
    ensures
        gather::concat(extraction::rebinding_kills(place, pt, infos), n) == Seq::<
            (u32, u64),
        >::empty(),
    decreases n,
{
    if n > 0 {
        lemma_no_rebinding(place, pt, infos, n - 1);
        let f = extraction::rebinding_kills(place, pt, infos);
        assert(f(n - 1) =~= Seq::<(u32, u64)>::empty());
        assert(gather::concat(f, n) =~= Seq::<(u32, u64)>::empty());
    }
}

/// The loans that the writes end and invalidate.
fn push_writes(
    events: &Vec<(FrozenPlace, Point, bool, Span)>,
    infos: &Vec<LoanInfo>,
    killed: &mut Vec<(u32, u64)>,
    invalidated: &mut Vec<(u32, u64)>,
) -> (r: Result<(), PointOverflow>)
    requires
        forall|k: int| 0 <= k < infos@.len() ==> (#[trigger] infos@[k]).point.overflow() is None,
    ensures
        gather::appends(
            r,
            old(killed)@,
            final(killed)@,
            gather::gather(extraction::ended_by(events@, infos@), events@.len() as int),
        ),
        gather::appends(
            r,
            old(invalidated)@,
            final(invalidated)@,
            gather::gather(extraction::invalidated_by(events@, infos@), events@.len() as int),
        ),
{
    let ghost f = extraction::ended_by(events@, infos@);
    let ghost g = extraction::invalidated_by(events@, infos@);
    let ghost start = killed@;
    let ghost begin = invalidated@;
    let mut k: usize = 0;
    assert(killed@ =~= start + Seq::empty());
    assert(invalidated@ =~= begin + Seq::empty());
    while k < events.len()
        invariant
            forall|k: int|
                0 <= k < infos@.len() ==> (#[trigger] infos@[k]).point.overflow() is None,
            f == extraction::ended_by(events@, infos@),
            g == extraction::invalidated_by(events@, infos@),
            0 <= k <= events@.len(),
            gather::gather(f, k as int) is Ok,
            gather::gather(g, k as int) is Ok,
            killed@ == start + gather::gather(f, k as int)->Ok_0,
            invalidated@ == begin + gather::gather(g, k as int)->Ok_0,
        decreases events.len() - k,
    {
        let (place, pt, is_read, _) = &events[k];
        if !*is_read {
            let step = push_write(place, pt, infos, killed, invalidated);
            if let Err(e) = step {
                proof {
                    assert(f(k as int) == Err::<Seq<(u32, u64)>, PointOverflow>(e));
                    assert(g(k as int) == Err::<Seq<(u32, u64)>, PointOverflow>(e));
                    gather::lemma_first_failure(f, k + 1, events@.len() as int);
                    gather::lemma_first_failure(g, k + 1, events@.len() as int);
                }
                return Err(e);
            }
            assert(f(k as int) == Ok::<Seq<(u32, u64)>, PointOverflow>(
                extraction::write_effects(*place, *pt, infos@)->Ok_0.0,
            ));
            assert(g(k as int) == Ok::<Seq<(u32, u64)>, PointOverflow>(
                extraction::write_effects(*place, *pt, infos@)->Ok_0.1,
            ));
        } else {
            assert(f(k as int) == Ok::<Seq<(u32, u64)>, PointOverflow>(Seq::empty()));
            assert(g(k as int) == Ok::<Seq<(u32, u64)>, PointOverflow>(Seq::empty()));
        }
        assert(killed@ =~= start + gather::gather(f, k + 1)->Ok_0);
        assert(invalidated@ =~= begin + gather::gather(g, k + 1)->Ok_0);
        k += 1;
    }
    Ok(())
}

// ---------------------------------------------------------------------------
// All together
// ---------------------------------------------------------------------------

/// The numbers of paths fit.
pub open spec fn paths_fit(data: BorrowData) -> bool {
    match extraction::resolved(data.loans@, data.loans@.len() as int) {
        Ok(r) => extraction::walked(r.places, data.loans@.len() as int).ids.len() <= u32::MAX,
        Err(_) => true,
    }
}

impl PoloniusFacts {
    /// The relations hold what was extracted, and nothing of signatures.
    pub open spec fn holds_extraction(self, x: extraction::Extraction) -> bool {
        &&& self.cfg_edge@ == x.cfg_edge
        &&& self.loan_issued_at@ == x.loans.issued
        &&& self.loan_invalidated_at@ == x.invalidated
        &&& self.var_used_at@ == x.loans.used
        &&& self.use_of_var_derefs_origin@ == x.loans.derefs
        &&& self.reborrow_sources@ == x.sources
        &&& self.subset_base@ == Seq::<(u32, u32, u64)>::empty()
        &&& self.universal_region@ == Seq::<u32>::empty()
        &&& self.known_placeholder_subset@ == Seq::<(u32, u32)>::empty()
        &&& self.loan_killed_at@ == x.killed
        &&& self.var_defined_at@ == x.defined
        &&& self.var_dropped_at@ == x.dropped
        &&& self.drop_of_var_derefs_origin@ == x.drop_derefs
        &&& self.child_path@ == x.paths.steps
        &&& self.path_is_var@ == x.paths.roots
    }
}

/// The facts of a function body, what is known of its loans, and its
/// accesses.
pub fn extract_facts(
    cfg: &CfgGraph,
    body: &Vec<HirStmt>,
    live: &PointLiveness,
    data: BorrowData,
) -> (r: Result<
    (PoloniusFacts, Vec<LoanInfo>, Vec<(FrozenPlace, Point, bool, Span)>),
    PointOverflow,
>)
    requires
        data.wf(),
        paths_fit(data),
    ensures
        match r {
            Ok(x) => {
                let want = extraction::extraction(cfg.blocks@, body@, *live, data);
                &&& want is Ok
                &&& x.0.holds_extraction(want->Ok_0)
                &&& x.1@ == want->Ok_0.infos
                &&& x.2 == data.events
            },
            Err(e) => extraction::extraction(cfg.blocks@, body@, *live, data) == Err::<
                extraction::Extraction,
                PointOverflow,
            >(e),
        },
{
    let mut facts = PoloniusFacts::default();
    if let Err(e) = push_blocks(&data, &cfg.blocks, &mut facts.cfg_edge) {
        return Err(e);
    }
    let (places, sources) = match resolve_places(&data.loans) {
        Ok(x) => x,
        Err(e) => {
            return Err(e);
        },
    };
    let receivers = collect_method_receiver_places(body);
    let infos = match push_loans(&data, live, &places, &receivers, &mut facts) {
        Ok(x) => x,
        Err(e) => {
            return Err(e);
        },
    };
    if let Err(e) = push_kills(&data.kills, &infos, &mut facts.loan_killed_at) {
        return Err(e);
    }
    if let Err(e) = push_definitions(
        &cfg.blocks,
        &mut facts.var_defined_at,
        &mut facts.var_dropped_at,
    ) {
        return Err(e);
    }
    facts.drop_of_var_derefs_origin = find_drop_derefs(&data.loans, &facts.var_dropped_at);
    let (steps, roots) = number_paths(&places);
    facts.child_path = steps;
    facts.path_is_var = roots;
    if let Err(e) = push_writes(
        &data.events,
        &infos,
        &mut facts.loan_killed_at,
        &mut facts.loan_invalidated_at,
    ) {
        return Err(e);
    }
    facts.reborrow_sources = sources;
    Ok((facts, infos, data.events))
}

} // verus!
