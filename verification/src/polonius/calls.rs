//! Calls to functions with known borrow signatures.
use super::extract::{extract_facts, paths_fit, stmt_value};
use super::extraction;
use super::facts::PoloniusFacts;
use super::input::{Block, BorrowData, CalleeEntry, CfgGraph, LoanInfo, PointLiveness};
use super::point::{point_id, BlockId, Point, PointOverflow};
use crate::gather;
use crate::hir::{HirExpr, HirStmt};
use crate::place::FrozenPlace;
use crate::symbol::{Span, Symbol};
use vstd::prelude::*;

verus! {

// ---------------------------------------------------------------------------
// One call
// ---------------------------------------------------------------------------

/// Each reference argument is a loan of its own, in an origin of its own.
pub open spec fn call_loans(n: nat, point: u64, base: u32) -> Seq<(u32, u32, u64)> {
    Seq::new(n, |i: int| ((base + i) as u32, (base + i) as u32, point))
}

/// The declared flows out of the input `i`.
pub open spec fn input_flows(arho: Seq<(u32, u32)>, i: int, point: u64, base: u32) -> spec_fn(
    int,
) -> Seq<(u32, u32, u64)> {
    |k: int|
        if arho[k].0 == i {
            seq![((base + i) as u32, (arho[k].1 + base) as u32, point)]
        } else {
            Seq::empty()
        }
}

pub open spec fn flows_of_input(arho: Seq<(u32, u32)>, point: u64, base: u32) -> spec_fn(
    int,
) -> Seq<(u32, u32, u64)> {
    |i: int| gather::concat(input_flows(arho, i, point, base), arho.len() as int)
}

/// The declared flows from inputs to outputs, at the point of a call.
pub open spec fn call_flows(n: nat, point: u64, arho: Seq<(u32, u32)>, base: u32) -> Seq<
    (u32, u32, u64),
> {
    gather::concat(flows_of_input(arho, point, base), n as int)
}

/// The loans of the reference arguments of a call and the flows from them to
/// what the call returns. All numbers are moved up by `base`.
pub fn call_site_facts(
    input_positions: &Vec<usize>,
    call_point: u64,
    arho: &Vec<(u32, u32)>,
    base: u32,
) -> (r: (Vec<(u32, u32, u64)>, Vec<(u32, u32, u64)>))
    requires
        base + input_positions@.len() <= u32::MAX,
        forall|k: int|
            0 <= k < arho@.len() && (#[trigger] arho@[k]).0 < input_positions@.len() ==> arho@[k].1
                + base <= u32::MAX,
    ensures
        r.0@ == call_loans(input_positions@.len(), call_point, base),
        r.1@ == call_flows(input_positions@.len(), call_point, arho@, base),
{
    let mut loans: Vec<(u32, u32, u64)> = Vec::new();
    let mut subset: Vec<(u32, u32, u64)> = Vec::new();
    let ghost f = flows_of_input(arho@, call_point, base);
    let mut i: usize = 0;
    assert(subset@ =~= gather::concat(f, 0));
    while i < input_positions.len()
        invariant
            base + input_positions@.len() <= u32::MAX,
            forall|k: int|
                0 <= k < arho@.len() && (#[trigger] arho@[k]).0 < input_positions@.len()
                    ==> arho@[k].1 + base <= u32::MAX,
            0 <= i <= input_positions@.len(),
            loans@ == call_loans(i as nat, call_point, base),
            f == flows_of_input(arho@, call_point, base),
            subset@ == gather::concat(f, i as int),
        decreases input_positions.len() - i,
    {
        let origin: u32 = base + i as u32;
        loans.push((origin, origin, call_point));
        let ghost start = subset@;
        let ghost g = input_flows(arho@, i as int, call_point, base);
        let mut k: usize = 0;
        assert(subset@ =~= start + gather::concat(g, 0));
        while k < arho.len()
            invariant
                forall|k: int|
                    0 <= k < arho@.len() && (#[trigger] arho@[k]).0 < input_positions@.len()
                        ==> arho@[k].1 + base <= u32::MAX,
                i < input_positions@.len() <= u32::MAX,
                origin == base + i,
                0 <= k <= arho@.len(),
                g == input_flows(arho@, i as int, call_point, base),
                subset@ == start + gather::concat(g, k as int),
            decreases arho.len() - k,
        {
            let (ai, ao) = arho[k];
            if ai == i as u32 {
                assert(arho@[k as int].0 < input_positions@.len());
                subset.push((origin, ao + base, call_point));
            }
            assert(g(k as int) =~= (if ai == i {
                seq![(origin, (ao + base) as u32, call_point)]
            } else {
                Seq::empty()
            }));
            assert(subset@ =~= start + gather::concat(g, k + 1));
            k += 1;
        }
        assert(f(i as int) == gather::concat(g, arho@.len() as int));
        assert(loans@ =~= call_loans((i + 1) as nat, call_point, base));
        i += 1;
    }
    (loans, subset)
}

// ---------------------------------------------------------------------------
// The calls of a body
// ---------------------------------------------------------------------------

/// The first of the first `n` entries that is a function of this name.
pub open spec fn callee(registry: Seq<CalleeEntry>, name: Symbol, n: int) -> Option<int>
    decreases n,
{
    if n <= 0 {
        None
    } else {
        match callee(registry, name, n - 1) {
            Some(k) => Some(k),
            None => if registry[n - 1].name == name && !registry[n - 1].is_method {
                Some(n - 1)
            } else {
                None
            },
        }
    }
}

/// The entry that a call is to.
pub open spec fn called(registry: Seq<CalleeEntry>, target: HirExpr) -> Seq<int> {
    match target {
        HirExpr::Ident(name) => match callee(registry, name, registry.len() as int) {
            Some(k) => seq![k],
            None => Seq::empty(),
        },
        _ => Seq::empty(),
    }
}

/// The entries that an expression calls, outer calls before the calls in
/// their arguments.
pub open spec fn known_calls(registry: Seq<CalleeEntry>, e: HirExpr) -> Seq<int>
    decreases e, 0nat,
{
    match e {
        HirExpr::Call { callee, args } => called(registry, *callee) + known_calls_all(
            registry,
            args@,
            args@.len() as int,
        ),
        HirExpr::Tuple(elems) => known_calls_all(registry, elems@, elems@.len() as int),
        HirExpr::Array(elems) => known_calls_all(registry, elems@, elems@.len() as int),
        HirExpr::StructLit { fields } => known_calls_fields(
            registry,
            fields@,
            fields@.len() as int,
        ),
        HirExpr::BinaryOp { left, right } => known_calls(registry, *left) + known_calls(
            registry,
            *right,
        ),
        HirExpr::Index { base, index } => known_calls(registry, *base) + known_calls(
            registry,
            *index,
        ),
        HirExpr::Move(inner) => known_calls(registry, *inner),
        HirExpr::UnaryOp { op, expr } => known_calls(registry, *expr),
        _ => Seq::empty(),
    }
}

pub open spec fn known_calls_all(registry: Seq<CalleeEntry>, s: Seq<HirExpr>, n: int) -> Seq<int>
    decreases s, n,
{
    if n <= 0 || n > s.len() {
        Seq::empty()
    } else {
        known_calls_all(registry, s, n - 1) + known_calls(registry, s[n - 1])
    }
}

pub open spec fn known_calls_fields(
    registry: Seq<CalleeEntry>,
    s: Seq<(Symbol, HirExpr)>,
    n: int,
) -> Seq<int>
    decreases s, n,
{
    if n <= 0 || n > s.len() {
        Seq::empty()
    } else {
        known_calls_fields(registry, s, n - 1) + known_calls(registry, s[n - 1].1)
    }
}

/// The list as numbers.
spec fn as_ints(s: Seq<usize>) -> Seq<int> {
    s.map_values(|x: usize| x as int)
}

/// The entry for a function of this name.
fn find_callee(registry: &Vec<CalleeEntry>, name: Symbol) -> (r: Option<usize>)
    ensures
        match r {
            Some(k) => k < registry@.len() && callee(registry@, name, registry@.len() as int)
                == Some(k as int),
            None => callee(registry@, name, registry@.len() as int) is None,
        },
{
    let mut i: usize = 0;
    while i < registry.len()
        invariant
            0 <= i <= registry@.len(),
            callee(registry@, name, i as int) is None,
        decreases registry.len() - i,
    {
        if registry[i].name == name && !registry[i].is_method {
            proof {
                lemma_first_callee(registry@, name, i + 1, registry@.len() as int);
            }
            return Some(i);
        }
        i += 1;
    }
    None
}

proof fn lemma_first_callee(registry: Seq<CalleeEntry>, name: Symbol, k: int, n: int)
    requires
        k <= n,
        callee(registry, name, k) is Some,
    ensures
        callee(registry, name, n) == callee(registry, name, k),
    decreases n - k,
{
    if k < n {
        lemma_first_callee(registry, name, k, n - 1);
    }
}

/// All of the numbers are of entries.
spec fn in_registry(calls: Seq<usize>, registry: Seq<CalleeEntry>) -> bool {
    forall|k: int| 0 <= k < calls.len() ==> (#[trigger] calls[k]) < registry.len()
}

/// The entries that an expression calls.
fn walk_call_expr(e: &HirExpr, registry: &Vec<CalleeEntry>, out: &mut Vec<usize>)
    requires
        in_registry(old(out)@, registry@),
    ensures
        in_registry(final(out)@, registry@),
        as_ints(final(out)@) == as_ints(old(out)@) + known_calls(registry@, *e),
    decreases *e, 0nat,
{
    let ghost start = as_ints(out@);
    match e {
        HirExpr::Call { callee, args } => {
            if let HirExpr::Ident(name) = &**callee {
                if let Some(k) = find_callee(registry, *name) {
                    out.push(k);
                }
            }
            assert(as_ints(out@) =~= start + called(registry@, **callee));
            walk_call_exprs(args, registry, out);
            assert(as_ints(out@) =~= start + known_calls(registry@, *e));
        },
        HirExpr::Tuple(elems) => walk_call_exprs(elems, registry, out),
        HirExpr::Array(elems) => walk_call_exprs(elems, registry, out),
        HirExpr::StructLit { fields } => walk_call_fields(fields, registry, out),
        HirExpr::BinaryOp { left, right } => {
            walk_call_expr(left, registry, out);
            walk_call_expr(right, registry, out);
            assert(as_ints(out@) =~= start + known_calls(registry@, *e));
        },
        HirExpr::Index { base, index } => {
            walk_call_expr(base, registry, out);
            walk_call_expr(index, registry, out);
            assert(as_ints(out@) =~= start + known_calls(registry@, *e));
        },
        HirExpr::Move(inner) => walk_call_expr(inner, registry, out),
        HirExpr::UnaryOp { op, expr } => walk_call_expr(expr, registry, out),
        _ => {
            assert(as_ints(out@) =~= start + known_calls(registry@, *e));
        },
    }
}

fn walk_call_exprs(s: &Vec<HirExpr>, registry: &Vec<CalleeEntry>, out: &mut Vec<usize>)
    requires
        in_registry(old(out)@, registry@),
    ensures
        in_registry(final(out)@, registry@),
        as_ints(final(out)@) == as_ints(old(out)@) + known_calls_all(
            registry@,
            s@,
            s@.len() as int,
        ),
    decreases *s, 0nat,
{
    let ghost start = as_ints(out@);
    let mut i: usize = 0;
    assert(as_ints(out@) =~= start + known_calls_all(registry@, s@, 0));
    while i < s.len()
        invariant
            0 <= i <= s@.len(),
            in_registry(out@, registry@),
            as_ints(out@) == start + known_calls_all(registry@, s@, i as int),
        decreases s.len() - i,
    {
        walk_call_expr(&s[i], registry, out);
        assert(as_ints(out@) =~= start + known_calls_all(registry@, s@, i + 1));
        i += 1;
    }
}

fn walk_call_fields(s: &Vec<(Symbol, HirExpr)>, registry: &Vec<CalleeEntry>, out: &mut Vec<usize>)
    requires
        in_registry(old(out)@, registry@),
    ensures
        in_registry(final(out)@, registry@),
        as_ints(final(out)@) == as_ints(old(out)@) + known_calls_fields(
            registry@,
            s@,
            s@.len() as int,
        ),
    decreases *s, 0nat,
{
    let ghost start = as_ints(out@);
    let mut i: usize = 0;
    assert(as_ints(out@) =~= start + known_calls_fields(registry@, s@, 0));
    while i < s.len()
        invariant
            0 <= i <= s@.len(),
            in_registry(out@, registry@),
            as_ints(out@) == start + known_calls_fields(registry@, s@, i as int),
        decreases s.len() - i,
    {
        walk_call_expr(&s[i].1, registry, out);
        assert(as_ints(out@) =~= start + known_calls_fields(registry@, s@, i + 1));
        i += 1;
    }
}

/// The entries that a statement calls.
pub open spec fn stmt_calls(registry: Seq<CalleeEntry>, stmt: HirStmt) -> Seq<int> {
    match extraction::value_of(stmt) {
        Some(e) => known_calls(registry, e),
        None => Seq::empty(),
    }
}

/// A call: the entry and the point.
pub open spec fn sites_in_stmt(
    registry: Seq<CalleeEntry>,
    stmts: Seq<HirStmt>,
    b: int,
) -> spec_fn(int) -> Seq<(int, u64)> {
    |s: int|
        stmt_calls(registry, stmts[s]).map_values(|k: int| (k, extraction::at(b, s, 0).code()))
}

pub open spec fn sites_in_block(registry: Seq<CalleeEntry>, blocks: Seq<Block>) -> spec_fn(
    int,
) -> Seq<(int, u64)> {
    |b: int|
        gather::concat(
            sites_in_stmt(registry, blocks[b].stmts@, b),
            blocks[b].stmts@.len() as int,
        )
}

/// All the calls of a body to entries of the registry, with their points.
pub open spec fn call_sites(registry: Seq<CalleeEntry>, blocks: Seq<Block>) -> Seq<(int, u64)> {
    gather::concat(sites_in_block(registry, blocks), blocks.len() as int)
}

/// The list as entries and points.
spec fn as_sites(s: Seq<(usize, u64)>) -> Seq<(int, u64)> {
    s.map_values(|x: (usize, u64)| (x.0 as int, x.1))
}

/// All of the sites are of entries.
spec fn sites_in_registry(sites: Seq<(usize, u64)>, registry: Seq<CalleeEntry>) -> bool {
    forall|k: int| 0 <= k < sites.len() ==> (#[trigger] sites[k]).0 < registry.len()
}

/// The calls of a statement.
fn collect_call_sites(
    stmt: &HirStmt,
    pt: u64,
    registry: &Vec<CalleeEntry>,
    sites: &mut Vec<(usize, u64)>,
)
    requires
        sites_in_registry(old(sites)@, registry@),
    ensures
        sites_in_registry(final(sites)@, registry@),
        as_sites(final(sites)@) == as_sites(old(sites)@) + stmt_calls(
            registry@,
            *stmt,
        ).map_values(|k: int| (k, pt)),
{
    let ghost start = as_sites(sites@);
    let mut calls: Vec<usize> = Vec::new();
    match stmt_value(stmt) {
        Some(e) => {
            walk_call_expr(e, registry, &mut calls);
        },
        None => {},
    }
    assert(as_ints(calls@) =~= stmt_calls(registry@, *stmt));
    let mut i: usize = 0;
    assert(as_sites(sites@) =~= start + as_ints(calls@).take(0).map_values(|k: int| (k, pt)));
    while i < calls.len()
        invariant
            0 <= i <= calls@.len(),
            in_registry(calls@, registry@),
            sites_in_registry(sites@, registry@),
            as_sites(sites@) == start + as_ints(calls@).take(i as int).map_values(
                |k: int| (k, pt),
            ),
        decreases calls.len() - i,
    {
        let ghost before = sites@;
        sites.push((calls[i], pt));
        assert(as_sites(sites@) =~= as_sites(before).push((calls@[i as int] as int, pt)));
        assert(as_ints(calls@).take(i + 1).map_values(|k: int| (k, pt)) =~= as_ints(calls@).take(
            i as int,
        ).map_values(|k: int| (k, pt)).push((calls@[i as int] as int, pt)));
        i += 1;
    }
    assert(as_ints(calls@).take(i as int) =~= as_ints(calls@));
}

/// The calls of the statements of a block.
fn collect_block_sites(
    blk: &Block,
    b: usize,
    registry: &Vec<CalleeEntry>,
    sites: &mut Vec<(usize, u64)>,
) -> (r: Result<(), PointOverflow>)
    requires
        sites_in_registry(old(sites)@, registry@),
        forall|s: int|
            0 <= s < blk.stmts@.len() ==> (#[trigger] extraction::at(
                b as int,
                s,
                0,
            )).overflow() is None,
    ensures
        r is Ok,
        sites_in_registry(final(sites)@, registry@),
        as_sites(final(sites)@) == as_sites(old(sites)@) + gather::concat(
            sites_in_stmt(registry@, blk.stmts@, b as int),
            blk.stmts@.len() as int,
        ),
{
    let ghost f = sites_in_stmt(registry@, blk.stmts@, b as int);
    let ghost start = as_sites(sites@);
    let mut s: usize = 0;
    assert(as_sites(sites@) =~= start + gather::concat(f, 0));
    while s < blk.stmts.len()
        invariant
            forall|s: int|
                0 <= s < blk.stmts@.len() ==> (#[trigger] extraction::at(
                    b as int,
                    s,
                    0,
                )).overflow() is None,
            f == sites_in_stmt(registry@, blk.stmts@, b as int),
            0 <= s <= blk.stmts@.len(),
            sites_in_registry(sites@, registry@),
            as_sites(sites@) == start + gather::concat(f, s as int),
        decreases blk.stmts.len() - s,
    {
        assert(extraction::at(b as int, s as int, 0).overflow() is None);
        let pt: u64 = match point_id(Point { block: BlockId(b), stmt: s, expr: 0 }) {
            Ok(x) => x,
            Err(e) => {
                return Err(e);
            },
        };
        collect_call_sites(&blk.stmts[s], pt, registry, sites);
        assert(f(s as int) =~= stmt_calls(registry@, blk.stmts@[s as int]).map_values(
            |k: int| (k, pt),
        ));
        assert(as_sites(sites@) =~= start + gather::concat(f, s + 1));
        s += 1;
    }
    Ok(())
}

/// Where the edges of a body have numbers, so has the start of each of its
/// statements.
proof fn lemma_starts_numbered(data: BorrowData, blocks: Seq<Block>, n: int, b: int, s: int)
    requires
        data.wf(),
        0 <= b < n <= blocks.len(),
        blocks.len() <= usize::MAX,
        0 <= s < blocks[b].stmts@.len(),
        gather::gather(data.all_block_edges(blocks), n) is Ok,
    ensures
        extraction::at(b, s, 0).overflow() is None,
    decreases n,
{
    let f = data.all_block_edges(blocks);
    if b < n - 1 {
        lemma_starts_numbered(data, blocks, n - 1, b, s);
    } else {
        assert(f(n - 1) == data.block_edges(blocks[b], b));
        lemma_stmts_numbered(data, b, blocks[b].stmts@.len() as int, s);
    }
}

proof fn lemma_stmts_numbered(data: BorrowData, b: int, n: int, s: int)
    requires
        data.wf(),
        0 <= s < n,
        gather::gather(data.all_stmt_edges(b), n) is Ok,
    ensures
        extraction::at(b, s, 0).overflow() is None,
    decreases n,
{
    let f = data.all_stmt_edges(b);
    if s < n - 1 {
        lemma_stmts_numbered(data, b, n - 1, s);
    } else {
        assert(f(n - 1) == data.stmt_edges(b, s));
        let g = data.chain(b, s);
        let e = data.count(b, s);
        if e > 1 {
            lemma_chain_numbered(data, b, s, e - 1);
        }
    }
}

proof fn lemma_chain_numbered(data: BorrowData, b: int, s: int, n: int)
    requires
        n >= 1,
        gather::gather(data.chain(b, s), n) is Ok,
    ensures
        extraction::at(b, s, 0).overflow() is None,
    decreases n,
{
    let g = data.chain(b, s);
    if n > 1 {
        lemma_chain_numbered(data, b, s, n - 1);
    } else {
        assert(g(0) == extraction::edge(extraction::at(b, s, 0), extraction::at(b, s, 1)));
    }
}

// ---------------------------------------------------------------------------
// The facts of the calls
// ---------------------------------------------------------------------------

pub open spec fn site_loans(
    registry: Seq<CalleeEntry>,
    sites: Seq<(int, u64)>,
    base: u32,
) -> spec_fn(int) -> Seq<(u32, u32, u64)> {
    |k: int| call_loans(registry[sites[k].0].positions@.len(), sites[k].1, base)
}

pub open spec fn site_flows(
    registry: Seq<CalleeEntry>,
    sites: Seq<(int, u64)>,
    base: u32,
) -> spec_fn(int) -> Seq<(u32, u32, u64)> {
    |k: int|
        call_flows(
            registry[sites[k].0].positions@.len(),
            sites[k].1,
            registry[sites[k].0].signature.known_placeholder_subset@,
            base,
        )
}

/// The placeholder origins of a callee, moved up.
pub open spec fn moved_regions(entry: CalleeEntry, base: u32) -> Seq<u32> {
    entry.signature.universal_region@.map_values(|o: u32| (o + base) as u32)
}

/// The declared flows of a callee, moved up.
pub open spec fn moved_flows(entry: CalleeEntry, base: u32) -> Seq<(u32, u32)> {
    entry.signature.known_placeholder_subset@.map_values(
        |x: (u32, u32)| ((x.0 + base) as u32, (x.1 + base) as u32),
    )
}

pub open spec fn site_regions(
    registry: Seq<CalleeEntry>,
    sites: Seq<(int, u64)>,
    base: u32,
) -> spec_fn(int) -> Seq<u32> {
    |k: int| moved_regions(registry[sites[k].0], base)
}

pub open spec fn site_known(
    registry: Seq<CalleeEntry>,
    sites: Seq<(int, u64)>,
    base: u32,
) -> spec_fn(int) -> Seq<(u32, u32)> {
    |k: int| moved_flows(registry[sites[k].0], base)
}

/// The numbers of the entry fit when they are moved up.
pub open spec fn entry_fits(entry: CalleeEntry, base: int) -> bool {
    &&& base + entry.positions@.len() <= u32::MAX
    &&& forall|k: int|
        0 <= k < entry.signature.universal_region@.len() ==> (
        #[trigger] entry.signature.universal_region@[k]) + base <= u32::MAX
    &&& forall|k: int|
        0 <= k < entry.signature.known_placeholder_subset@.len() ==> (
        #[trigger] entry.signature.known_placeholder_subset@[k]).0 + base <= u32::MAX
            && entry.signature.known_placeholder_subset@[k].1 + base <= u32::MAX
}

/// The numbers of the entries that are called fit when they are moved up.
pub open spec fn calls_fit(registry: Seq<CalleeEntry>, blocks: Seq<Block>, base: int) -> bool {
    forall|k: int|
        0 <= k < call_sites(registry, blocks).len() ==> entry_fits(
            registry[(#[trigger] call_sites(registry, blocks)[k]).0],
            base,
        )
}

impl PoloniusFacts {
    /// The relations hold what was extracted and what the calls add.
    pub open spec fn holds_calls(
        self,
        x: extraction::Extraction,
        registry: Seq<CalleeEntry>,
        sites: Seq<(int, u64)>,
        base: u32,
        n: int,
    ) -> bool {
        &&& self.cfg_edge@ == x.cfg_edge
        &&& self.loan_issued_at@ == x.loans.issued + gather::concat(
            site_loans(registry, sites, base),
            n,
        )
        &&& self.loan_invalidated_at@ == x.invalidated
        &&& self.var_used_at@ == x.loans.used
        &&& self.use_of_var_derefs_origin@ == x.loans.derefs
        &&& self.reborrow_sources@ == x.sources
        &&& self.subset_base@ == gather::concat(site_flows(registry, sites, base), n)
        &&& self.universal_region@ == gather::concat(site_regions(registry, sites, base), n)
        &&& self.known_placeholder_subset@ == gather::concat(site_known(registry, sites, base), n)
        &&& self.loan_killed_at@ == x.killed
        &&& self.var_defined_at@ == x.defined
        &&& self.var_dropped_at@ == x.dropped
        &&& self.drop_of_var_derefs_origin@ == x.drop_derefs
        &&& self.child_path@ == x.paths.steps
        &&& self.path_is_var@ == x.paths.roots
    }
}

/// Appends a list of loans or flows.
fn append_triples(out: &mut Vec<(u32, u32, u64)>, more: &Vec<(u32, u32, u64)>)
    ensures
        final(out)@ == old(out)@ + more@,
{
    let mut i: usize = 0;
    assert(out@ =~= old(out)@ + more@.take(0));
    while i < more.len()
        invariant
            0 <= i <= more@.len(),
            out@ == old(out)@ + more@.take(i as int),
        decreases more.len() - i,
    {
        out.push(more[i]);
        assert(out@ =~= old(out)@ + more@.take(i + 1));
        i += 1;
    }
    assert(more@.take(i as int) =~= more@);
}

/// Appends the placeholder origins of a callee.
fn append_regions(out: &mut Vec<u32>, entry: &CalleeEntry, base: u32)
    requires
        entry_fits(*entry, base as int),
    ensures
        final(out)@ == old(out)@ + moved_regions(*entry, base),
{
    let ghost all = moved_regions(*entry, base);
    let regions = &entry.signature.universal_region;
    let mut i: usize = 0;
    assert(out@ =~= old(out)@ + all.take(0));
    while i < regions.len()
        invariant
            entry_fits(*entry, base as int),
            *regions == entry.signature.universal_region,
            all == moved_regions(*entry, base),
            0 <= i <= regions@.len(),
            out@ == old(out)@ + all.take(i as int),
        decreases regions.len() - i,
    {
        assert(entry.signature.universal_region@[i as int] + base <= u32::MAX);
        out.push(regions[i] + base);
        assert(out@ =~= old(out)@ + all.take(i + 1));
        i += 1;
    }
    assert(all.take(i as int) =~= all);
}

/// Appends the declared flows of a callee.
fn append_known(out: &mut Vec<(u32, u32)>, entry: &CalleeEntry, base: u32)
    requires
        entry_fits(*entry, base as int),
    ensures
        final(out)@ == old(out)@ + moved_flows(*entry, base),
{
    let ghost all = moved_flows(*entry, base);
    let flows = &entry.signature.known_placeholder_subset;
    let mut i: usize = 0;
    assert(out@ =~= old(out)@ + all.take(0));
    while i < flows.len()
        invariant
            entry_fits(*entry, base as int),
            *flows == entry.signature.known_placeholder_subset,
            all == moved_flows(*entry, base),
            0 <= i <= flows@.len(),
            out@ == old(out)@ + all.take(i as int),
        decreases flows.len() - i,
    {
        assert(entry.signature.known_placeholder_subset@[i as int].0 + base <= u32::MAX);
        let (a, b) = flows[i];
        out.push((a + base, b + base));
        assert(out@ =~= old(out)@ + all.take(i + 1));
        i += 1;
    }
    assert(all.take(i as int) =~= all);
}

/// Adds the facts of the calls.
fn push_sites(
    registry: &Vec<CalleeEntry>,
    sites: &Vec<(usize, u64)>,
    base: u32,
    facts: &mut PoloniusFacts,
    Ghost(x): Ghost<extraction::Extraction>,
)
    requires
        sites_in_registry(sites@, registry@),
        forall|k: int|
            0 <= k < sites@.len() ==> entry_fits(
                registry@[(#[trigger] sites@[k]).0 as int],
                base as int,
            ),
        old(facts).holds_extraction(x),
    ensures
        final(facts).holds_calls(
            x,
            registry@,
            as_sites(sites@),
            base,
            sites@.len() as int,
        ),
{
    let ghost all = as_sites(sites@);
    let mut i: usize = 0;
    assert(facts.holds_calls(x, registry@, all, base, 0)) by {
        assert(facts.loan_issued_at@ =~= x.loans.issued + Seq::empty());
    }
    while i < sites.len()
        invariant
            sites_in_registry(sites@, registry@),
            forall|k: int|
                0 <= k < sites@.len() ==> entry_fits(
                    registry@[(#[trigger] sites@[k]).0 as int],
                    base as int,
                ),
            all == as_sites(sites@),
            0 <= i <= sites@.len(),
            facts.holds_calls(x, registry@, all, base, i as int),
        decreases sites.len() - i,
    {
        let (k, pt) = sites[i];
        let entry = &registry[k];
        assert(entry_fits(registry@[sites@[i as int].0 as int], base as int));
        assert(all[i as int] == (k as int, pt));
        let (loans, subset) = call_site_facts(
            &entry.positions,
            pt,
            &entry.signature.known_placeholder_subset,
            base,
        );
        append_triples(&mut facts.loan_issued_at, &loans);
        append_triples(&mut facts.subset_base, &subset);
        append_regions(&mut facts.universal_region, entry, base);
        append_known(&mut facts.known_placeholder_subset, entry, base);
        proof {
            let f = site_loans(registry@, all, base);
            assert(f(i as int) == loans@);
            assert(facts.loan_issued_at@ =~= x.loans.issued + gather::concat(f, i + 1));
            let g = site_flows(registry@, all, base);
            assert(g(i as int) == subset@);
            let h = site_regions(registry@, all, base);
            assert(h(i as int) == moved_regions(*entry, base));
            let m = site_known(registry@, all, base);
            assert(m(i as int) == moved_flows(*entry, base));
        }
        i += 1;
    }
}

/// The facts of a function body and of its calls, what is known of its
/// loans, and its accesses.
pub(crate) fn cross_function(
    cfg: &CfgGraph,
    body: &Vec<HirStmt>,
    live: &PointLiveness,
    data: BorrowData,
    registry: &Vec<CalleeEntry>,
) -> (r: Result<
    (PoloniusFacts, Vec<LoanInfo>, Vec<(FrozenPlace, Point, bool, Span)>),
    PointOverflow,
>)
    requires
        data.wf(),
        paths_fit(data),
        calls_fit(registry@, cfg.blocks@, data.loans@.len() as int),
    ensures
        match r {
            Ok(x) => {
                let want = extraction::extraction(cfg.blocks@, body@, *live, data);
                let sites = call_sites(registry@, cfg.blocks@);
                &&& want is Ok
                &&& x.0.holds_calls(
                    want->Ok_0,
                    registry@,
                    sites,
                    data.loans@.len() as u32,
                    sites.len() as int,
                )
                &&& x.1@ == want->Ok_0.infos
                &&& x.2 == data.events
            },
            Err(e) => extraction::extraction(cfg.blocks@, body@, *live, data) == Err::<
                extraction::Extraction,
                PointOverflow,
            >(e),
        },
{
    let ghost d = data;
    let base: u32 = data.loans.len() as u32;
    let (mut facts, infos, events) = match extract_facts(cfg, body, live, data) {
        Ok(x) => x,
        Err(e) => {
            return Err(e);
        },
    };
    let ghost x = extraction::extraction(cfg.blocks@, body@, *live, d)->Ok_0;
    let ghost f = sites_in_block(registry@, cfg.blocks@);
    let mut sites: Vec<(usize, u64)> = Vec::new();
    let mut b: usize = 0;
    assert(as_sites(sites@) =~= gather::concat(f, 0));
    assert(cfg.blocks@.len() == cfg.blocks.len());
    while b < cfg.blocks.len()
        invariant
            d.wf(),
            gather::gather(d.all_block_edges(cfg.blocks@), cfg.blocks@.len() as int) is Ok,
            f == sites_in_block(registry@, cfg.blocks@),
            0 <= b <= cfg.blocks@.len() <= usize::MAX,
            sites_in_registry(sites@, registry@),
            as_sites(sites@) == gather::concat(f, b as int),
        decreases cfg.blocks.len() - b,
    {
        proof {
            assert forall|s: int| 0 <= s < cfg.blocks@[b as int].stmts@.len() implies (
            #[trigger] extraction::at(b as int, s, 0)).overflow() is None by {
                lemma_starts_numbered(d, cfg.blocks@, cfg.blocks@.len() as int, b as int, s);
            }
        }
        let step = collect_block_sites(&cfg.blocks[b], b, registry, &mut sites);
        assert(f(b as int) == gather::concat(
            sites_in_stmt(registry@, cfg.blocks@[b as int].stmts@, b as int),
            cfg.blocks@[b as int].stmts@.len() as int,
        ));
        assert(as_sites(sites@) =~= gather::concat(f, b + 1));
        b += 1;
    }
    let ghost all = call_sites(registry@, cfg.blocks@);
    proof {
        assert(as_sites(sites@) == all);
        assert forall|k: int| 0 <= k < sites@.len() implies entry_fits(
            registry@[(#[trigger] sites@[k]).0 as int],
            base as int,
        ) by {
            assert(all[k] == as_sites(sites@)[k]);
        }
    }
    push_sites(registry, &sites, base, &mut facts, Ghost(x));
    Ok((facts, infos, events))
}

/// The facts of a function body and of its calls to functions with known
/// signatures, and what is known of its loans.
pub fn extract_cross_function(
    cfg: &CfgGraph,
    body: &Vec<HirStmt>,
    live: &PointLiveness,
    data: BorrowData,
    registry: &Vec<CalleeEntry>,
) -> (r: Result<(PoloniusFacts, Vec<LoanInfo>), PointOverflow>)
    requires
        data.wf(),
        paths_fit(data),
        calls_fit(registry@, cfg.blocks@, data.loans@.len() as int),
    ensures
        match r {
            Ok(x) => {
                let want = extraction::extraction(cfg.blocks@, body@, *live, data);
                let sites = call_sites(registry@, cfg.blocks@);
                &&& want is Ok
                &&& x.0.holds_calls(
                    want->Ok_0,
                    registry@,
                    sites,
                    data.loans@.len() as u32,
                    sites.len() as int,
                )
                &&& x.1@ == want->Ok_0.infos
            },
            Err(e) => extraction::extraction(cfg.blocks@, body@, *live, data) == Err::<
                extraction::Extraction,
                PointOverflow,
            >(e),
        },
{
    match cross_function(cfg, body, live, data, registry) {
        Ok((facts, infos, _)) => Ok((facts, infos)),
        Err(e) => Err(e),
    }
}

/// The facts of the calls come after those of the body and leave them as they
/// are, and the loans and origins that they add have numbers of their own, not
/// below `base`, the number of loans of the body.
pub proof fn law_calls_extend_the_body(
    body_facts: PoloniusFacts,
    facts: PoloniusFacts,
    x: extraction::Extraction,
    registry: Seq<CalleeEntry>,
    blocks: Seq<Block>,
    base: u32,
)
    requires
        body_facts.holds_extraction(x),
        facts.holds_calls(
            x,
            registry,
            call_sites(registry, blocks),
            base,
            call_sites(registry, blocks).len() as int,
        ),
        calls_fit(registry, blocks, base as int),
    ensures
        body_facts.loan_issued_at@.is_prefix_of(facts.loan_issued_at@),
        body_facts.subset_base@.is_prefix_of(facts.subset_base@),
        body_facts.universal_region@.is_prefix_of(facts.universal_region@),
        body_facts.known_placeholder_subset@.is_prefix_of(facts.known_placeholder_subset@),
        forall|k: int|
            body_facts.loan_issued_at@.len() <= k < facts.loan_issued_at@.len() ==> base <= (
            #[trigger] facts.loan_issued_at@[k]).0 && base <= facts.loan_issued_at@[k].1,
        forall|k: int|
            body_facts.subset_base@.len() <= k < facts.subset_base@.len() ==> base <= (
            #[trigger] facts.subset_base@[k]).0 && base <= facts.subset_base@[k].1,
        forall|k: int|
            body_facts.universal_region@.len() <= k < facts.universal_region@.len() ==> base
                <= #[trigger] facts.universal_region@[k],
        forall|k: int|
            body_facts.known_placeholder_subset@.len() <= k
                < facts.known_placeholder_subset@.len() ==> base <= (
            #[trigger] facts.known_placeholder_subset@[k]).0 && base
                <= facts.known_placeholder_subset@[k].1,
        facts.cfg_edge@ == body_facts.cfg_edge@,
        facts.loan_invalidated_at@ == body_facts.loan_invalidated_at@,
        facts.var_used_at@ == body_facts.var_used_at@,
        facts.use_of_var_derefs_origin@ == body_facts.use_of_var_derefs_origin@,
        facts.reborrow_sources@ == body_facts.reborrow_sources@,
        facts.loan_killed_at@ == body_facts.loan_killed_at@,
        facts.var_defined_at@ == body_facts.var_defined_at@,
        facts.var_dropped_at@ == body_facts.var_dropped_at@,
        facts.drop_of_var_derefs_origin@ == body_facts.drop_of_var_derefs_origin@,
        facts.child_path@ == body_facts.child_path@,
        facts.path_is_var@ == body_facts.path_is_var@,
{
    let sites = call_sites(registry, blocks);
    let n = sites.len() as int;
    let fresh = |t: (u32, u32, u64)| base <= t.0 && base <= t.1;
    let loans = site_loans(registry, sites, base);
    assert forall|i: int, k: int| 0 <= i < n && 0 <= k < loans(i).len() implies fresh(
        #[trigger] loans(i)[k],
    ) by {
        assert(entry_fits(registry[sites[i].0], base as int));
    }
    gather::lemma_all(loans, n, fresh);
    let flows = site_flows(registry, sites, base);
    assert forall|i: int, k: int| 0 <= i < n && 0 <= k < flows(i).len() implies fresh(
        #[trigger] flows(i)[k],
    ) by {
        let entry = registry[sites[i].0];
        assert(entry_fits(entry, base as int));
        let arho = entry.signature.known_placeholder_subset@;
        let f = flows_of_input(arho, sites[i].1, base);
        let m = entry.positions@.len() as int;
        assert forall|a: int, b: int| 0 <= a < m && 0 <= b < f(a).len() implies fresh(
            #[trigger] f(a)[b],
        ) by {
            let g = input_flows(arho, a, sites[i].1, base);
            assert forall|c: int, e: int| 0 <= c < arho.len() && 0 <= e < g(c).len() implies fresh(
                #[trigger] g(c)[e],
            ) by {
                assert(arho[c].1 + base <= u32::MAX);
            }
            gather::lemma_all(g, arho.len() as int, fresh);
        }
        gather::lemma_all(f, m, fresh);
    }
    gather::lemma_all(flows, n, fresh);
    let high = |o: u32| base <= o;
    let regions = site_regions(registry, sites, base);
    assert forall|i: int, k: int| 0 <= i < n && 0 <= k < regions(i).len() implies high(
        #[trigger] regions(i)[k],
    ) by {
        let entry = registry[sites[i].0];
        assert(entry_fits(entry, base as int));
        assert(entry.signature.universal_region@[k] + base <= u32::MAX);
    }
    gather::lemma_all(regions, n, high);
    let both = |p: (u32, u32)| base <= p.0 && base <= p.1;
    let known = site_known(registry, sites, base);
    assert forall|i: int, k: int| 0 <= i < n && 0 <= k < known(i).len() implies both(
        #[trigger] known(i)[k],
    ) by {
        let entry = registry[sites[i].0];
        assert(entry_fits(entry, base as int));
        assert(entry.signature.known_placeholder_subset@[k].0 + base <= u32::MAX);
    }
    gather::lemma_all(known, n, both);
    let added = gather::concat(loans, n);
    assert forall|k: int|
        body_facts.loan_issued_at@.len() <= k < facts.loan_issued_at@.len() implies base <= (
    #[trigger] facts.loan_issued_at@[k]).0 && base <= facts.loan_issued_at@[k].1 by {
        assert(fresh(added[k - body_facts.loan_issued_at@.len()]));
    }
    assert forall|k: int| 0 <= k < facts.subset_base@.len() implies base <= (
    #[trigger] facts.subset_base@[k]).0 && base <= facts.subset_base@[k].1 by {
        assert(fresh(gather::concat(flows, n)[k]));
    }
    assert forall|k: int| 0 <= k < facts.universal_region@.len() implies base
        <= #[trigger] facts.universal_region@[k] by {
        assert(high(gather::concat(regions, n)[k]));
    }
    assert forall|k: int| 0 <= k < facts.known_placeholder_subset@.len() implies base <= (
    #[trigger] facts.known_placeholder_subset@[k]).0 && base
        <= facts.known_placeholder_subset@[k].1 by {
        assert(both(gather::concat(known, n)[k]));
    }
}

} // verus!
