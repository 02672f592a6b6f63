//! The facts of a function body, as mathematics.
use super::input::{Block, BorrowData, Kill, LoanInfo, LoanSite, PointLiveness};
use super::point::{BlockId, Point, PointOverflow};
use crate::gather;
use crate::hir::{HirExpr, HirStmt};
use crate::place::FrozenPlace;
use crate::symbol::{Span, Symbol};
use vstd::prelude::*;

verus! {

/// The point with these indices.
pub open spec fn at(b: int, s: int, e: int) -> Point {
    Point { block: BlockId(b as usize), stmt: s as usize, expr: e as usize }
}

/// The edge between two points.
pub open spec fn edge(p: Point, q: Point) -> Result<Seq<(u64, u64)>, PointOverflow> {
    match p.id() {
        Err(e) => Err(e),
        Ok(a) => match q.id() {
            Err(e) => Err(e),
            Ok(b) => Ok(seq![(a, b)]),
        },
    }
}

/// What the loan pass has put together.
#[verifier::ext_equal]
pub struct LoanPass {
    pub used: Seq<(u32, u64)>,
    pub derefs: Seq<(u32, u32)>,
    pub killed: Seq<(u32, u64)>,
    pub issued: Seq<(u32, u32, u64)>,
}

/// The places of loans and the pairs of loans of which the second goes
/// through the first.
#[verifier::ext_equal]
pub struct Resolved {
    pub places: Seq<FrozenPlace>,
    pub sources: Seq<(u32, u32)>,
}

/// The numbered paths, the steps between them and their variables.
#[verifier::ext_equal]
pub struct Paths {
    pub ids: Seq<FrozenPlace>,
    pub steps: Seq<(u32, u32)>,
    pub roots: Seq<(u32, u32)>,
}

/// All that is extracted.
#[verifier::ext_equal]
pub struct Extraction {
    pub cfg_edge: Seq<(u64, u64)>,
    pub loans: LoanPass,
    pub killed: Seq<(u32, u64)>,
    pub invalidated: Seq<(u32, u64)>,
    pub defined: Seq<(u32, u64)>,
    pub dropped: Seq<(u32, u64)>,
    pub drop_derefs: Seq<(u32, u32)>,
    pub paths: Paths,
    pub sources: Seq<(u32, u32)>,
    pub infos: Seq<LoanInfo>,
}

// ---------------------------------------------------------------------------
// Control flow
// ---------------------------------------------------------------------------

impl BorrowData {
    /// From each expression of a statement to the next one.
    pub open spec fn chain(self, b: int, s: int) -> spec_fn(int) -> Result<
        Seq<(u64, u64)>,
        PointOverflow,
    > {
        |k: int| edge(at(b, s, k), at(b, s, k + 1))
    }

    /// The edges of a statement: through its expressions, then to the next
    /// statement.
    pub open spec fn stmt_edges(self, b: int, s: int) -> Result<Seq<(u64, u64)>, PointOverflow> {
        gather::join(
            gather::gather(self.chain(b, s), self.count(b, s) - 1),
            edge(at(b, s, self.count(b, s) - 1), at(b, s + 1, 0)),
        )
    }

    pub open spec fn all_stmt_edges(self, b: int) -> spec_fn(int) -> Result<
        Seq<(u64, u64)>,
        PointOverflow,
    > {
        |s: int| self.stmt_edges(b, s)
    }

    /// From the end of a block to the start of each block after it.
    pub open spec fn jumps(self, term: u64, succs: Seq<BlockId>) -> spec_fn(int) -> Result<
        Seq<(u64, u64)>,
        PointOverflow,
    > {
        |k: int|
            match at(succs[k].0 as int, 0, 0).id() {
                Err(e) => Err(e),
                Ok(q) => Ok(seq![(term, q)]),
            }
    }

    pub open spec fn exit_edges(self, blk: Block, b: int) -> Result<
        Seq<(u64, u64)>,
        PointOverflow,
    > {
        let n = blk.stmts@.len() as int;
        match at(b, n, self.count(b, n) - 1).id() {
            Err(e) => Err(e),
            Ok(term) => gather::gather(self.jumps(term, blk.succs@), blk.succs@.len() as int),
        }
    }

    /// The edges of a block: its statements, its terminator, its exits.
    pub open spec fn block_edges(self, blk: Block, b: int) -> Result<
        Seq<(u64, u64)>,
        PointOverflow,
    > {
        let n = blk.stmts@.len() as int;
        gather::join(
            gather::join(
                gather::gather(self.all_stmt_edges(b), n),
                gather::gather(self.chain(b, n), self.count(b, n) - 1),
            ),
            self.exit_edges(blk, b),
        )
    }

    pub open spec fn all_block_edges(self, blocks: Seq<Block>) -> spec_fn(int) -> Result<
        Seq<(u64, u64)>,
        PointOverflow,
    > {
        |b: int| self.block_edges(blocks[b], b)
    }
}

// ---------------------------------------------------------------------------
// Borrows through references
// ---------------------------------------------------------------------------

/// The variable of a place `*v`.
pub open spec fn through(p: FrozenPlace) -> Option<Symbol> {
    match p {
        FrozenPlace::Deref(b) => match *b {
            FrozenPlace::Root(v) => Some(v),
            _ => None,
        },
        _ => None,
    }
}

/// The last of the first `n` loans that the variable holds from a point
/// before `ip`.
pub open spec fn held_loan(loans: Seq<LoanSite>, n: int, v: Symbol, ip: u64) -> Option<int>
    decreases n,
{
    if n <= 0 {
        None
    } else if loans[n - 1].var == Some(v) && loans[n - 1].point.code() < ip {
        Some(n - 1)
    } else {
        held_loan(loans, n - 1, v, ip)
    }
}

pub open spec fn loan_points(loans: Seq<LoanSite>) -> spec_fn(int) -> Result<
    Seq<u64>,
    PointOverflow,
> {
    |j: int| gather::one(loans[j].point.id())
}

/// The loan that loan `i` goes through: for a place `*v`, the loan that `v`
/// holds.
pub open spec fn source_loan(loans: Seq<LoanSite>, i: int) -> Result<Option<int>, PointOverflow> {
    match through(loans[i].place) {
        None => Ok(None),
        Some(v) => match loans[i].point.id() {
            Err(e) => Err(e),
            Ok(ip) => match gather::gather(loan_points(loans), i) {
                Err(e) => Err(e),
                Ok(_) => Ok(held_loan(loans, i, v, ip)),
            },
        },
    }
}

/// The places of the first `n` loans: a loan through another one is a loan
/// of that one's place.
pub open spec fn resolved(loans: Seq<LoanSite>, n: int) -> Result<Resolved, PointOverflow>
    decreases n,
{
    if n <= 0 {
        Ok(Resolved { places: Seq::empty(), sources: Seq::empty() })
    } else {
        match resolved(loans, n - 1) {
            Err(e) => Err(e),
            Ok(r) => match source_loan(loans, n - 1) {
                Err(e) => Err(e),
                Ok(None) => Ok(
                    Resolved { places: r.places.push(loans[n - 1].place), sources: r.sources },
                ),
                Ok(Some(j)) => Ok(
                    Resolved {
                        places: r.places.push(r.places[j]),
                        sources: r.sources.push((j as u32, (n - 1) as u32)),
                    },
                ),
            },
        }
    }
}

// ---------------------------------------------------------------------------
// Loans
// ---------------------------------------------------------------------------

/// The number of the first `n` loans that no variable holds.
pub open spec fn temporaries(loans: Seq<LoanSite>, n: int) -> int
    decreases n,
{
    if n <= 0 {
        0
    } else {
        temporaries(loans, n - 1) + (if loans[n - 1].var is None {
            1int
        } else {
            0
        })
    }
}

/// The variable of a loan: the one that holds it, or a fresh one.
pub open spec fn loan_var(loans: Seq<LoanSite>, i: int) -> u32 {
    match loans[i].var {
        Some(v) => v.0,
        None => (1_000_000 + temporaries(loans, i)) as u32,
    }
}

/// The last use of the variable among the listed ones.
pub open spec fn last_use(used: Seq<(u32, u64)>, v: u32, n: int) -> Option<u64>
    decreases n,
{
    if n <= 0 {
        None
    } else {
        let best = last_use(used, v, n - 1);
        if used[n - 1].0 == v && (best is None || best->0 <= used[n - 1].1) {
            Some(used[n - 1].1)
        } else {
            best
        }
    }
}

impl BorrowData {
    /// A use of a variable counts at the last expression of its statement.
    pub open spec fn stmt_uses(self, uses: Seq<Vec<Symbol>>, v: Symbol, b: int) -> spec_fn(
        int,
    ) -> Result<Seq<(u32, u64)>, PointOverflow> {
        |s: int|
            if uses[s]@.contains(v) {
                match at(b, s, self.count(b, s) - 1).id() {
                    Err(e) => Err(e),
                    Ok(p) => Ok(seq![(v.0, p)]),
                }
            } else {
                Ok(Seq::empty())
            }
    }

    pub open spec fn block_uses(self, live: PointLiveness, v: Symbol) -> spec_fn(int) -> Result<
        Seq<(u32, u64)>,
        PointOverflow,
    > {
        |b: int|
            gather::gather(
                self.stmt_uses(live.var_uses@[b]@, v, b),
                live.var_uses@[b]@.len() as int,
            )
    }

    /// The uses that keep loan `i` alive: those of its variable, or the end
    /// of its statement.
    pub open spec fn loan_uses(self, live: PointLiveness, i: int) -> Result<
        Seq<(u32, u64)>,
        PointOverflow,
    > {
        let l = self.loans@[i];
        match l.var {
            Some(v) => gather::gather(self.block_uses(live, v), live.var_uses@.len() as int),
            None => {
                let b = l.point.block.0 as int;
                let s = l.point.stmt as int;
                match at(b, s, self.count(b, s) - 1).id() {
                    Err(e) => Err(e),
                    Ok(p) => Ok(seq![(loan_var(self.loans@, i), p)]),
                }
            },
        }
    }

    /// A loan ends at the last use of its variable so far, unless it is of a
    /// part of something.
    pub open spec fn end_of_loan(self, used: Seq<(u32, u64)>, i: int) -> Seq<(u32, u64)> {
        if self.loans@[i].place.is_part() {
            Seq::empty()
        } else if self.loans@[i].var is None {
            seq![(i as u32, used.last().1)]
        } else {
            match last_use(used, loan_var(self.loans@, i), used.len() as int) {
                Some(p) => seq![(i as u32, p)],
                None => Seq::empty(),
            }
        }
    }

    /// The facts of the first `n` loans.
    pub open spec fn loan_pass(self, live: PointLiveness, n: int) -> Result<LoanPass, PointOverflow>
        decreases n,
    {
        if n <= 0 {
            Ok(
                LoanPass {
                    used: Seq::empty(),
                    derefs: Seq::empty(),
                    killed: Seq::empty(),
                    issued: Seq::empty(),
                },
            )
        } else {
            match self.loan_pass(live, n - 1) {
                Err(e) => Err(e),
                Ok(p) => match self.loan_uses(live, n - 1) {
                    Err(e) => Err(e),
                    Ok(u) => match self.loans@[n - 1].point.id() {
                        Err(e) => Err(e),
                        Ok(ip) => Ok(
                            LoanPass {
                                used: p.used + u,
                                derefs: p.derefs.push(
                                    (loan_var(self.loans@, n - 1), (n - 1) as u32),
                                ),
                                killed: p.killed + self.end_of_loan(p.used + u, n - 1),
                                issued: p.issued.push(((n - 1) as u32, (n - 1) as u32, ip)),
                            },
                        ),
                    },
                },
            }
        }
    }

    /// What is known of loan `i`, given its resolved place and the places of
    /// method receivers.
    pub open spec fn info(
        self,
        places: Seq<FrozenPlace>,
        receivers: Seq<FrozenPlace>,
        i: int,
    ) -> LoanInfo {
        LoanInfo {
            id: i as u32,
            origin: i as u32,
            place: places[i],
            borrow_var: self.loans@[i].var,
            kind: self.loans@[i].kind,
            point: self.loans@[i].point,
            span: self.loans@[i].span,
            two_phase: receivers.contains(self.loans@[i].place),
        }
    }

    pub open spec fn infos(self, places: Seq<FrozenPlace>, receivers: Seq<FrozenPlace>) -> Seq<
        LoanInfo,
    > {
        Seq::new(self.loans@.len(), |i: int| self.info(places, receivers, i))
    }
}

// ---------------------------------------------------------------------------
// Method receivers
// ---------------------------------------------------------------------------

/// The places of the receivers of the method calls in an expression: of the
/// call, then of its callee and arguments.
pub open spec fn receivers_in(e: HirExpr) -> Seq<FrozenPlace>
    decreases e, 0nat,
{
    match e {
        HirExpr::Call { callee, args } => receiver(*callee) + receivers_in(*callee)
            + receivers_in_all(args@, args@.len() as int),
        _ => Seq::empty(),
    }
}

/// The place of the receiver, where a callee is a field of something.
pub open spec fn receiver(callee: HirExpr) -> Seq<FrozenPlace> {
    match callee {
        HirExpr::FieldAccess { base, field } => match base.place() {
            Some(p) => seq![p],
            None => Seq::empty(),
        },
        _ => Seq::empty(),
    }
}

pub open spec fn receivers_in_all(args: Seq<HirExpr>, n: int) -> Seq<FrozenPlace>
    decreases args, n,
{
    if n <= 0 || n > args.len() {
        Seq::empty()
    } else {
        receivers_in_all(args, n - 1) + receivers_in(args[n - 1])
    }
}

/// The expression that a statement evaluates.
pub open spec fn value_of(stmt: HirStmt) -> Option<HirExpr> {
    match stmt {
        HirStmt::VariableDef { name, value } => value,
        HirStmt::Assign { target, value } => Some(value),
        HirStmt::Expression(e) => Some(e),
        HirStmt::Return { value, span } => value,
        _ => None,
    }
}

pub open spec fn stmt_receivers(body: Seq<HirStmt>) -> spec_fn(int) -> Seq<FrozenPlace> {
    |i: int|
        match value_of(body[i]) {
            Some(e) => receivers_in(e),
            None => Seq::empty(),
        }
}

/// The places of the receivers of the method calls in a body.
pub open spec fn method_receivers(body: Seq<HirStmt>) -> Seq<FrozenPlace> {
    gather::concat(stmt_receivers(body), body.len() as int)
}

// ---------------------------------------------------------------------------
// Kills, definitions, drops
// ---------------------------------------------------------------------------

/// An assignment to the variable that holds an earlier loan ends it; without
/// a variable, one to a related place other than the loan's own does, unless
/// what holds the part that is borrowed is overwritten.
pub open spec fn kill_ends(k: Kill, info: LoanInfo) -> bool {
    match k.var {
        Some(v) => info.borrow_var == Some(v) && !info.point.same_stmt(k.point),
        None => {
            let strict = k.place.prefixes(info.place) && k.place != info.place;
            !(strict && info.place.is_part()) && k.place.overlaps(info.place) && k.place
                != info.place
        },
    }
}

pub open spec fn kill_effects(k: Kill, infos: Seq<LoanInfo>) -> spec_fn(int) -> Result<
    Seq<(u32, u64)>,
    PointOverflow,
> {
    |i: int|
        if kill_ends(k, infos[i]) {
            match k.point.id() {
                Err(e) => Err(e),
                Ok(p) => Ok(seq![(infos[i].id, p)]),
            }
        } else {
            Ok(Seq::empty())
        }
}

pub open spec fn all_kill_effects(kills: Seq<Kill>, infos: Seq<LoanInfo>) -> spec_fn(
    int,
) -> Result<Seq<(u32, u64)>, PointOverflow> {
    |k: int| gather::gather(kill_effects(kills[k], infos), infos.len() as int)
}

/// The variable that an assignment to a bare name overwrites.
pub open spec fn overwritten(stmt: HirStmt) -> Option<Symbol> {
    match stmt {
        HirStmt::Assign { target, value } => match target {
            HirExpr::Ident(n) => Some(n),
            _ => None,
        },
        _ => None,
    }
}

/// The variable that a statement gives a value.
pub open spec fn given_value(stmt: HirStmt) -> Option<Symbol> {
    match stmt {
        HirStmt::VariableDef { name, value } => name,
        _ => overwritten(stmt),
    }
}

/// The variable with the start of the statement, where there is one.
pub open spec fn marked(v: Option<Symbol>, b: int, s: int) -> Result<
    Seq<(u32, u64)>,
    PointOverflow,
> {
    match at(b, s, 0).id() {
        Err(e) => Err(e),
        Ok(p) => match v {
            Some(n) => Ok(seq![(n.0, p)]),
            None => Ok(Seq::empty()),
        },
    }
}

pub open spec fn stmt_defined(stmts: Seq<HirStmt>, b: int) -> spec_fn(int) -> Result<
    Seq<(u32, u64)>,
    PointOverflow,
> {
    |s: int| marked(given_value(stmts[s]), b, s)
}

pub open spec fn stmt_dropped(stmts: Seq<HirStmt>, b: int) -> spec_fn(int) -> Result<
    Seq<(u32, u64)>,
    PointOverflow,
> {
    |s: int| marked(overwritten(stmts[s]), b, s)
}

pub open spec fn block_defined(blocks: Seq<Block>) -> spec_fn(int) -> Result<
    Seq<(u32, u64)>,
    PointOverflow,
> {
    |b: int| gather::gather(stmt_defined(blocks[b].stmts@, b), blocks[b].stmts@.len() as int)
}

pub open spec fn block_dropped(blocks: Seq<Block>) -> spec_fn(int) -> Result<
    Seq<(u32, u64)>,
    PointOverflow,
> {
    |b: int| gather::gather(stmt_dropped(blocks[b].stmts@, b), blocks[b].stmts@.len() as int)
}

/// Some entry is of the variable.
pub open spec fn lists_var(dropped: Seq<(u32, u64)>, v: u32) -> bool {
    exists|k: int| 0 <= k < dropped.len() && (#[trigger] dropped[k]).0 == v
}

/// The variables that are both borrowed from and dropped, with the origins
/// of their loans.
pub open spec fn drop_derefs(loans: Seq<LoanSite>, dropped: Seq<(u32, u64)>) -> spec_fn(
    int,
) -> Seq<(u32, u32)> {
    |i: int|
        if lists_var(dropped, loans[i].place.root().0) {
            seq![(loans[i].place.root().0, i as u32)]
        } else {
            Seq::empty()
        }
}

// ---------------------------------------------------------------------------
// Paths
// ---------------------------------------------------------------------------

/// The list with the path in it.
pub open spec fn with_path(ids: Seq<FrozenPlace>, p: FrozenPlace) -> Seq<FrozenPlace> {
    if ids.contains(p) {
        ids
    } else {
        ids.push(p)
    }
}

/// The number of the path.
pub open spec fn path_number(ids: Seq<FrozenPlace>, p: FrozenPlace) -> u32 {
    ids.index_of(p) as u32
}

impl Paths {
    /// The paths after a place has been walked down to its variable.
    pub open spec fn walk(self, p: FrozenPlace) -> Paths
        decreases p,
    {
        let ids = with_path(self.ids, p);
        match p {
            FrozenPlace::Root(v) => Paths {
                ids,
                steps: self.steps,
                roots: self.roots.push((path_number(ids, p), v.0)),
            },
            FrozenPlace::Field(b, _) => self.step(p, *b).walk(*b),
            FrozenPlace::Index(b) => self.step(p, *b).walk(*b),
            FrozenPlace::ConstIndex(b, _) => self.step(p, *b).walk(*b),
            FrozenPlace::Deref(b) => self.step(p, *b).walk(*b),
        }
    }

    /// The paths after one step from a place to what it is part of.
    pub open spec fn step(self, p: FrozenPlace, b: FrozenPlace) -> Paths {
        let ids = with_path(self.ids, p);
        let more = with_path(ids, b);
        Paths {
            ids: more,
            steps: self.steps.push((path_number(ids, p), path_number(more, b))),
            roots: self.roots,
        }
    }
}

/// The paths of the first `n` places.
pub open spec fn walked(places: Seq<FrozenPlace>, n: int) -> Paths
    decreases n,
{
    if n <= 0 {
        Paths { ids: Seq::empty(), steps: Seq::empty(), roots: Seq::empty() }
    } else {
        walked(places, n - 1).walk(places[n - 1])
    }
}

// ---------------------------------------------------------------------------
// Accesses
// ---------------------------------------------------------------------------

/// Among the first `n` loans that the variable holds from before `ip`, the
/// latest one.
pub open spec fn current_loan(infos: Seq<LoanInfo>, n: int, v: Symbol, ip: u64) -> Option<int>
    decreases n,
{
    if n <= 0 {
        None
    } else {
        let best = current_loan(infos, n - 1, v, ip);
        let l = infos[n - 1];
        if l.borrow_var == Some(v) && l.point.code() < ip && (best is None
            || infos[best->0].point.code() <= l.point.code()) {
            Some(n - 1)
        } else {
            best
        }
    }
}

pub open spec fn held_points(infos: Seq<LoanInfo>, v: Symbol) -> spec_fn(int) -> Result<
    Seq<u64>,
    PointOverflow,
> {
    |i: int|
        if infos[i].borrow_var == Some(v) {
            gather::one(infos[i].point.id())
        } else {
            Ok(Seq::empty())
        }
}

/// The place that an access touches: `*v` is what the loan that `v` holds is
/// of. With it, whether the access goes through such a loan.
pub open spec fn accessed(place: FrozenPlace, pt: Point, infos: Seq<LoanInfo>) -> Result<
    (FrozenPlace, bool),
    PointOverflow,
> {
    match through(place) {
        None => Ok((place, false)),
        Some(v) => match pt.id() {
            Err(e) => Err(e),
            Ok(ip) => match gather::gather(held_points(infos, v), infos.len() as int) {
                Err(e) => Err(e),
                Ok(_) => match current_loan(infos, infos.len() as int, v, ip) {
                    Some(i) => Ok((infos[i].place, true)),
                    None => Ok((place, false)),
                },
            },
        },
    }
}

/// An access to a place through a loan's own variable.
pub open spec fn own_access(place: FrozenPlace, through_loan: bool, info: LoanInfo) -> bool {
    through_loan && info.borrow_var == Some(place.root())
}

/// Assigning to a variable ends the loans that it holds from earlier
/// statements.
pub open spec fn rebinding_ends(place: FrozenPlace, pt: Point, info: LoanInfo) -> bool {
    match place {
        FrozenPlace::Root(v) => info.borrow_var == Some(v) && info.point.code() < pt.code()
            && !info.point.same_stmt(pt),
        _ => false,
    }
}

/// The write is to what the borrowed place, no part, is reached through.
pub open spec fn write_ends(place: FrozenPlace, hit: (FrozenPlace, bool), info: LoanInfo) -> bool {
    &&& !own_access(place, hit.1, info)
    &&& hit.0.prefixes(info.place) && hit.0 != info.place
    &&& !info.place.is_part()
}

/// The write touches the borrowed place otherwise.
pub open spec fn write_breaks(
    place: FrozenPlace,
    hit: (FrozenPlace, bool),
    info: LoanInfo,
) -> bool {
    &&& !own_access(place, hit.1, info)
    &&& hit.0.overlaps(info.place)
    &&& !write_ends(place, hit, info)
}

pub open spec fn rebinding_kills(place: FrozenPlace, pt: Point, infos: Seq<LoanInfo>) -> spec_fn(
    int,
) -> Seq<(u32, u64)> {
    |i: int|
        if rebinding_ends(place, pt, infos[i]) {
            seq![(infos[i].id, pt.code())]
        } else {
            Seq::empty()
        }
}

pub open spec fn write_kills(
    place: FrozenPlace,
    pt: Point,
    hit: (FrozenPlace, bool),
    infos: Seq<LoanInfo>,
) -> spec_fn(int) -> Seq<(u32, u64)> {
    |i: int|
        if write_ends(place, hit, infos[i]) {
            seq![(infos[i].id, pt.code())]
        } else {
            Seq::empty()
        }
}

pub open spec fn write_invalidations(
    place: FrozenPlace,
    pt: Point,
    hit: (FrozenPlace, bool),
    infos: Seq<LoanInfo>,
) -> spec_fn(int) -> Seq<(u32, u64)> {
    |i: int|
        if write_breaks(place, hit, infos[i]) {
            seq![(infos[i].id, pt.code())]
        } else {
            Seq::empty()
        }
}

/// The write ends or invalidates one of the loans.
pub open spec fn write_matters(
    place: FrozenPlace,
    hit: (FrozenPlace, bool),
    infos: Seq<LoanInfo>,
) -> bool {
    exists|i: int|
        #![trigger infos[i]]
        0 <= i < infos.len() && (write_ends(place, hit, infos[i]) || write_breaks(
            place,
            hit,
            infos[i],
        ))
}

/// The loans that a write ends and those that it invalidates. The point of
/// the write is numbered only where it is needed.
pub open spec fn write_effects(place: FrozenPlace, pt: Point, infos: Seq<LoanInfo>) -> Result<
    (Seq<(u32, u64)>, Seq<(u32, u64)>),
    PointOverflow,
> {
    let n = infos.len() as int;
    if place is Root && pt.overflow() is Some {
        Err(pt.overflow()->0)
    } else {
        match accessed(place, pt, infos) {
            Err(e) => Err(e),
            Ok(hit) => if write_matters(place, hit, infos) && pt.overflow() is Some {
                Err(pt.overflow()->0)
            } else {
                Ok(
                    (
                        gather::concat(rebinding_kills(place, pt, infos), n) + gather::concat(
                            write_kills(place, pt, hit, infos),
                            n,
                        ),
                        gather::concat(write_invalidations(place, pt, hit, infos), n),
                    ),
                )
            },
        }
    }
}

/// The loans that an access ends.
pub open spec fn ended_by(
    events: Seq<(FrozenPlace, Point, bool, Span)>,
    infos: Seq<LoanInfo>,
) -> spec_fn(int) -> Result<Seq<(u32, u64)>, PointOverflow> {
    |k: int|
        if events[k].2 {
            Ok(Seq::empty())
        } else {
            match write_effects(events[k].0, events[k].1, infos) {
                Err(e) => Err(e),
                Ok(x) => Ok(x.0),
            }
        }
}

/// The loans that an access invalidates.
pub open spec fn invalidated_by(
    events: Seq<(FrozenPlace, Point, bool, Span)>,
    infos: Seq<LoanInfo>,
) -> spec_fn(int) -> Result<Seq<(u32, u64)>, PointOverflow> {
    |k: int|
        if events[k].2 {
            Ok(Seq::empty())
        } else {
            match write_effects(events[k].0, events[k].1, infos) {
                Err(e) => Err(e),
                Ok(x) => Ok(x.1),
            }
        }
}

// ---------------------------------------------------------------------------
// All together
// ---------------------------------------------------------------------------

/// The facts of a function body, or the first point that has no number.
pub open spec fn extraction(
    blocks: Seq<Block>,
    body: Seq<HirStmt>,
    live: PointLiveness,
    data: BorrowData,
) -> Result<Extraction, PointOverflow> {
    let n = data.loans@.len() as int;
    match gather::gather(data.all_block_edges(blocks), blocks.len() as int) {
        Err(e) => Err(e),
        Ok(cfg_edge) => match resolved(data.loans@, n) {
            Err(e) => Err(e),
            Ok(r) => match data.loan_pass(live, n) {
                Err(e) => Err(e),
                Ok(pass) => {
                    let infos = data.infos(r.places, method_receivers(body));
                    match gather::gather(
                        all_kill_effects(data.kills@, infos),
                        data.kills@.len() as int,
                    ) {
                        Err(e) => Err(e),
                        Ok(kills) => match gather::gather(
                            block_defined(blocks),
                            blocks.len() as int,
                        ) {
                            Err(e) => Err(e),
                            Ok(defined) => match gather::gather(
                                block_dropped(blocks),
                                blocks.len() as int,
                            ) {
                                Err(e) => Err(e),
                                Ok(dropped) => match gather::gather(
                                    ended_by(data.events@, infos),
                                    data.events@.len() as int,
                                ) {
                                    Err(e) => Err(e),
                                    Ok(ended) => match gather::gather(
                                        invalidated_by(data.events@, infos),
                                        data.events@.len() as int,
                                    ) {
                                        Err(e) => Err(e),
                                        Ok(invalidated) => Ok(
                                            Extraction {
                                                cfg_edge,
                                                loans: pass,
                                                killed: pass.killed + kills + ended,
                                                invalidated,
                                                defined,
                                                dropped,
                                                drop_derefs: gather::concat(
                                                    drop_derefs(data.loans@, dropped),
                                                    n,
                                                ),
                                                paths: walked(r.places, n),
                                                sources: r.sources,
                                                infos,
                                            },
                                        ),
                                    },
                                },
                            },
                        },
                    }
                },
            },
        },
    }
}

} // verus!
