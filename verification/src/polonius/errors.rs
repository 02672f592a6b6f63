//! Diagnostics from the borrow rules.
use super::calls;
use super::calls::cross_function;
use super::extract::{paths_fit, resolve_event_place};
use super::extraction;
use super::facts::PoloniusFacts;
use super::input::{BorrowData, CalleeEntry, CfgGraph, LoanInfo, LoanKind, PointLiveness};
use super::point::{point_id, same_stmt_number, Point, PointOverflow};
use super::rules::{evaluate_drop_errors, evaluate_rules, evaluate_subset_errors, loan_live_at};
use crate::gather;
use crate::hir::HirStmt;
use crate::keyset::{holds, KeySet};
use crate::place::FrozenPlace;
use crate::symbol::{Span, Symbol, INTERNAL, REGION};
use vstd::prelude::*;

verus! {

/// A borrow error.
#[derive(Debug, PartialEq, Eq)]
pub struct BorrowError {
    pub place: FrozenPlace,
    /// The place is read while an exclusive loan of it is live.
    pub is_read: bool,
    /// Two loans that exclude each other overlap.
    pub is_exclusive: bool,
    /// The place is dropped while a loan of it is live.
    pub is_drop: bool,
    pub loan_kind: Option<LoanKind>,
    /// Where the first of two loans is made.
    pub span1: Option<Span>,
    pub span: Span,
}

impl BorrowError {
    /// The two errors are one diagnostic.
    pub open spec fn same_diagnostic(self, other: BorrowError) -> bool {
        &&& self.place == other.place
        &&& self.is_read == other.is_read
        &&& (self.is_exclusive || self.is_drop) == (other.is_exclusive || other.is_drop)
        &&& self.loan_kind == other.loan_kind
        &&& self.span1 == other.span1
        &&& self.span == other.span
    }

    /// Whether the two errors are one diagnostic.
    fn repeats(&self, other: &BorrowError) -> (r: bool)
        ensures
            r == self.same_diagnostic(*other),
    {
        self.place.same(&other.place) && self.is_read == other.is_read && (self.is_exclusive
            || self.is_drop) == (other.is_exclusive || other.is_drop) && self.loan_kind
            == other.loan_kind && self.span1 == other.span1 && self.span == other.span
    }
}

// ---------------------------------------------------------------------------
// Writes to borrowed places
// ---------------------------------------------------------------------------

/// A loan is issued at the point.
pub open spec fn issues_at(facts: PoloniusFacts, p: u64) -> bool {
    exists|k: int| 0 <= k < facts.loan_issued_at@.len() && (#[trigger] facts.loan_issued_at@[k]).2 == p
}

/// A live loan was invalidated, by something other than a borrow.
pub open spec fn frozen_writes(
    facts: PoloniusFacts,
    infos: Seq<LoanInfo>,
    errs: Seq<(u32, u64)>,
) -> spec_fn(int) -> Seq<BorrowError> {
    |k: int|
        if errs[k].0 < infos.len() && !issues_at(facts, errs[k].1) {
            seq![write_error(infos[errs[k].0 as int])]
        } else {
            Seq::empty()
        }
}

pub open spec fn write_error(info: LoanInfo) -> BorrowError {
    BorrowError {
        place: info.place,
        is_read: false,
        is_exclusive: false,
        is_drop: false,
        loan_kind: Some(info.kind),
        span1: None,
        span: info.span,
    }
}

fn is_issue_point(facts: &PoloniusFacts, p: u64) -> (r: bool)
    ensures
        r == issues_at(*facts, p),
{
    let mut i: usize = 0;
    while i < facts.loan_issued_at.len()
        invariant
            0 <= i <= facts.loan_issued_at@.len(),
            forall|k: int| 0 <= k < i ==> (#[trigger] facts.loan_issued_at@[k]).2 != p,
        decreases facts.loan_issued_at.len() - i,
    {
        if facts.loan_issued_at[i].2 == p {
            return true;
        }
        i += 1;
    }
    false
}

fn push_write_errors(facts: &PoloniusFacts, infos: &Vec<LoanInfo>, out: &mut Vec<BorrowError>)
    ensures
        final(out)@ == old(out)@ + gather::concat(
            frozen_writes(*facts, infos@, facts.rule_errors()),
            facts.rule_errors().len() as int,
        ),
{
    let errs = evaluate_rules(facts);
    let ghost f = frozen_writes(*facts, infos@, errs@);
    let ghost start = out@;
    let mut k: usize = 0;
    assert(out@ =~= start + gather::concat(f, 0));
    while k < errs.len()
        invariant
            f == frozen_writes(*facts, infos@, errs@),
            0 <= k <= errs@.len(),
            out@ == start + gather::concat(f, k as int),
        decreases errs.len() - k,
    {
        let (loan, point) = errs[k];
        if (loan as usize) < infos.len() && !is_issue_point(facts, point) {
            let info = &infos[loan as usize];
            out.push(
                BorrowError {
                    place: info.place.clone(),
                    is_read: false,
                    is_exclusive: false,
                    is_drop: false,
                    loan_kind: Some(info.kind),
                    span1: None,
                    span: info.span,
                },
            );
        }
        assert(out@ =~= start + gather::concat(f, k + 1));
        k += 1;
    }
}

// ---------------------------------------------------------------------------
// Reads of borrowed places
// ---------------------------------------------------------------------------

/// The access is in the statement of a reserved loan, not before it.
pub open spec fn reserved(info: LoanInfo, pt: Point) -> bool {
    info.two_phase && pt.same_stmt(info.point) && pt.expr >= info.point.expr
}

/// Reading `place`, which touches `hit.0`, at `pt` conflicts with loan `i`.
pub open spec fn read_conflicts(
    facts: PoloniusFacts,
    info: LoanInfo,
    i: int,
    place: FrozenPlace,
    pt: Point,
    hit: (FrozenPlace, bool),
) -> bool {
    &&& info.kind is Exclusive
    &&& !extraction::own_access(place, hit.1, info)
    &&& !reserved(info, pt)
    &&& hit.0.overlaps(info.place)
    &&& facts.loan_live(i as u32, pt.code())
}

pub open spec fn read_error(place: FrozenPlace, span: Span) -> BorrowError {
    BorrowError {
        place,
        is_read: true,
        is_exclusive: false,
        is_drop: false,
        loan_kind: Some(LoanKind::Exclusive),
        span1: None,
        span,
    }
}

pub open spec fn read_errors(
    facts: PoloniusFacts,
    infos: Seq<LoanInfo>,
    event: (FrozenPlace, Point, bool, Span),
    hit: (FrozenPlace, bool),
) -> spec_fn(int) -> Seq<BorrowError> {
    |i: int|
        if read_conflicts(facts, infos[i], i, event.0, event.1, hit) {
            seq![read_error(hit.0, event.3)]
        } else {
            Seq::empty()
        }
}

pub open spec fn event_errors(
    facts: PoloniusFacts,
    infos: Seq<LoanInfo>,
    event: (FrozenPlace, Point, bool, Span),
) -> Result<Seq<BorrowError>, PointOverflow> {
    if !event.2 {
        Ok(Seq::empty())
    } else {
        match event.1.id() {
            Err(e) => Err(e),
            Ok(_) => match extraction::accessed(event.0, event.1, infos) {
                Err(e) => Err(e),
                Ok(hit) => Ok(
                    gather::concat(read_errors(facts, infos, event, hit), infos.len() as int),
                ),
            },
        }
    }
}

/// The places that are read while an exclusive loan of them is live.
pub open spec fn frozen_reads(
    facts: PoloniusFacts,
    infos: Seq<LoanInfo>,
    events: Seq<(FrozenPlace, Point, bool, Span)>,
) -> spec_fn(int) -> Result<Seq<BorrowError>, PointOverflow> {
    |k: int| event_errors(facts, infos, events[k])
}

fn push_event_errors(
    facts: &PoloniusFacts,
    infos: &Vec<LoanInfo>,
    event: &(FrozenPlace, Point, bool, Span),
    live: &KeySet<(u32, u64)>,
    out: &mut Vec<BorrowError>,
) -> (r: Result<(), PointOverflow>)
    requires
        infos@.len() <= u32::MAX,
        forall|l: u32, p: u64| #[trigger] live@.contains((l, p)) <==> facts.loan_live(l, p),
    ensures
        gather::appends(r, old(out)@, final(out)@, event_errors(*facts, infos@, *event)),
{
    let ghost start = out@;
    let (place, pt, is_read, span) = event;
    if !*is_read {
        assert(out@ =~= start + Seq::empty());
        return Ok(());
    }
    let pt_id: u64 = match point_id(*pt) {
        Ok(x) => x,
        Err(e) => {
            return Err(e);
        },
    };
    let (eplace, oroot, rewritten) = match resolve_event_place(place, pt, infos) {
        Ok(x) => x,
        Err(e) => {
            return Err(e);
        },
    };
    let ghost hit = (eplace, rewritten);
    let ghost f = read_errors(*facts, infos@, *event, hit);
    let mut i: usize = 0;
    assert(out@ =~= start + gather::concat(f, 0));
    while i < infos.len()
        invariant
            infos@.len() <= u32::MAX,
            forall|l: u32, p: u64| #[trigger] live@.contains((l, p)) <==> facts.loan_live(l, p),
            *event == (*place, *pt, *is_read, *span),
            pt_id == pt.code(),
            oroot == place.root(),
            hit == (eplace, rewritten),
            f == read_errors(*facts, infos@, *event, hit),
            0 <= i <= infos@.len(),
            out@ == start + gather::concat(f, i as int),
        decreases infos.len() - i,
    {
        let info = &infos[i];
        let exclusive = info.kind == LoanKind::Exclusive;
        let own = rewritten && info.borrow_var == Some(oroot);
        let held = info.two_phase && pt.block == info.point.block && pt.stmt == info.point.stmt
            && pt.expr >= info.point.expr;
        if exclusive && !own && !held && eplace.touches(&info.place) && live.contains(
            &(i as u32, pt_id),
        ) {
            assert(read_conflicts(*facts, infos@[i as int], i as int, *place, *pt, hit));
            out.push(
                BorrowError {
                    place: eplace.clone(),
                    is_read: true,
                    is_exclusive: false,
                    is_drop: false,
                    loan_kind: Some(LoanKind::Exclusive),
                    span1: None,
                    span: *span,
                },
            );
        } else {
            assert(!read_conflicts(*facts, infos@[i as int], i as int, *place, *pt, hit));
        }
        assert(f(i as int) =~= (if read_conflicts(
            *facts,
            infos@[i as int],
            i as int,
            *place,
            *pt,
            hit,
        ) {
            seq![read_error(eplace, *span)]
        } else {
            Seq::empty()
        }));
        assert(out@ =~= start + gather::concat(f, i + 1));
        i += 1;
    }
    Ok(())
}

fn push_read_errors(
    facts: &PoloniusFacts,
    infos: &Vec<LoanInfo>,
    events: &Vec<(FrozenPlace, Point, bool, Span)>,
    live: &KeySet<(u32, u64)>,
    out: &mut Vec<BorrowError>,
) -> (r: Result<(), PointOverflow>)
    requires
        infos@.len() <= u32::MAX,
        forall|l: u32, p: u64| #[trigger] live@.contains((l, p)) <==> facts.loan_live(l, p),
    ensures
        gather::appends(
            r,
            old(out)@,
            final(out)@,
            gather::gather(frozen_reads(*facts, infos@, events@), events@.len() as int),
        ),
{
    let ghost f = frozen_reads(*facts, infos@, events@);
    let ghost start = out@;
    let mut k: usize = 0;
    assert(out@ =~= start + Seq::empty());
    while k < events.len()
        invariant
            infos@.len() <= u32::MAX,
            forall|l: u32, p: u64| #[trigger] live@.contains((l, p)) <==> facts.loan_live(l, p),
            f == frozen_reads(*facts, infos@, events@),
            0 <= k <= events@.len(),
            gather::gather(f, k as int) is Ok,
            out@ == start + gather::gather(f, k as int)->Ok_0,
        decreases events.len() - k,
    {
        let step = push_event_errors(facts, infos, &events[k], live, out);
        assert(f(k as int) == event_errors(*facts, infos@, events@[k as int]));
        if let Err(e) = step {
            proof {
                gather::lemma_first_failure(f, k + 1, events@.len() as int);
            }
            return Err(e);
        }
        assert(out@ =~= start + gather::gather(f, k + 1)->Ok_0);
        k += 1;
    }
    Ok(())
}

// ---------------------------------------------------------------------------
// Overlapping loans
// ---------------------------------------------------------------------------

/// The loan is ended in the statement of the numbered point.
pub open spec fn ended_in_stmt(facts: PoloniusFacts, l: u32, p: u64) -> bool {
    exists|k: int|
        0 <= k < facts.loan_killed_at@.len() && (#[trigger] facts.loan_killed_at@[k]).0 == l
            && facts.loan_killed_at@[k].1 / 65_536 == p / 65_536
}

/// The first loan, with this number, is live where the second is made. Not
/// so while it is reserved, nor where a variable that holds both is given
/// the second.
pub open spec fn live_at_issue(
    facts: PoloniusFacts,
    first: LoanInfo,
    number: int,
    second: LoanInfo,
) -> bool {
    &&& !reserved(first, second.point)
    &&& facts.loan_live(number as u32, second.point.code())
    &&& !(ended_in_stmt(facts, number as u32, second.point.code()) && first.borrow_var is Some
        && first.borrow_var == second.borrow_var)
}

/// Two loans of one expression, or of which one is made through the other,
/// or of places that do not touch, are never in conflict.
pub open spec fn unrelated(facts: PoloniusFacts, infos: Seq<LoanInfo>, i: int, j: int) -> bool {
    ||| !infos[i].place.overlaps(infos[j].place)
    ||| infos[i].span == infos[j].span
    ||| facts.reborrow_sources@.contains((i as u32, j as u32))
}

pub open spec fn pair_errors(
    facts: PoloniusFacts,
    infos: Seq<LoanInfo>,
    i: int,
    j: int,
) -> Result<Seq<BorrowError>, PointOverflow> {
    let a = infos[i];
    let b = infos[j];
    if unrelated(facts, infos, i, j) {
        Ok(Seq::empty())
    } else {
        match b.point.id() {
            Err(e) => Err(e),
            Ok(_) => match a.point.id() {
                Err(e) => Err(e),
                Ok(_) => if live_at_issue(facts, a, i, b) || live_at_issue(facts, b, j, a) {
                    Ok(seq![overlap_error(a, b)])
                } else {
                    Ok(Seq::empty())
                },
            },
        }
    }
}

pub open spec fn overlap_error(a: LoanInfo, b: LoanInfo) -> BorrowError {
    BorrowError {
        place: b.place,
        is_read: false,
        is_exclusive: true,
        is_drop: false,
        loan_kind: None,
        span1: Some(a.span),
        span: b.span,
    }
}

/// The conflicts of loan `i` with the loans after it.
pub open spec fn conflicts_with(facts: PoloniusFacts, infos: Seq<LoanInfo>, i: int) -> spec_fn(
    int,
) -> Result<Seq<BorrowError>, PointOverflow> {
    |d: int| pair_errors(facts, infos, i, i + 1 + d)
}

pub open spec fn overlapping_loans(facts: PoloniusFacts, infos: Seq<LoanInfo>) -> spec_fn(
    int,
) -> Result<Seq<BorrowError>, PointOverflow> {
    |i: int| gather::gather(conflicts_with(facts, infos, i), infos.len() - i - 1)
}

fn is_ended_in_stmt(facts: &PoloniusFacts, l: u32, p: u64) -> (r: bool)
    ensures
        r == ended_in_stmt(*facts, l, p),
{
    let mut i: usize = 0;
    while i < facts.loan_killed_at.len()
        invariant
            0 <= i <= facts.loan_killed_at@.len(),
            forall|k: int|
                0 <= k < i ==> !((#[trigger] facts.loan_killed_at@[k]).0 == l
                    && facts.loan_killed_at@[k].1 / 65_536 == p / 65_536),
        decreases facts.loan_killed_at.len() - i,
    {
        let (la, k) = facts.loan_killed_at[i];
        if la == l && same_stmt_number(k, p) {
            return true;
        }
        i += 1;
    }
    false
}

fn is_live_at_issue(
    facts: &PoloniusFacts,
    live: &KeySet<(u32, u64)>,
    first: &LoanInfo,
    number: usize,
    second: &LoanInfo,
    pt: u64,
) -> (r: bool)
    requires
        number <= u32::MAX,
        forall|l: u32, p: u64| #[trigger] live@.contains((l, p)) <==> facts.loan_live(l, p),
        pt == second.point.code(),
    ensures
        r == live_at_issue(*facts, *first, number as int, *second),
{
    let held = first.two_phase && second.point.block == first.point.block && second.point.stmt
        == first.point.stmt && second.point.expr >= first.point.expr;
    !held && live.contains(&(number as u32, pt)) && !(is_ended_in_stmt(facts, number as u32, pt)
        && first.borrow_var.is_some() && first.borrow_var == second.borrow_var)
}

fn push_pair_errors(
    facts: &PoloniusFacts,
    infos: &Vec<LoanInfo>,
    i: usize,
    j: usize,
    live: &KeySet<(u32, u64)>,
    out: &mut Vec<BorrowError>,
) -> (r: Result<(), PointOverflow>)
    requires
        infos@.len() <= u32::MAX,
        i < j < infos@.len(),
        forall|l: u32, p: u64| #[trigger] live@.contains((l, p)) <==> facts.loan_live(l, p),
    ensures
        gather::appends(
            r,
            old(out)@,
            final(out)@,
            pair_errors(*facts, infos@, i as int, j as int),
        ),
{
    let a = &infos[i];
    let b = &infos[j];
    if !a.place.touches(&b.place) || a.span == b.span || holds(
        &facts.reborrow_sources,
        &(i as u32, j as u32),
    ) {
        assert(out@ =~= old(out)@ + Seq::empty());
        return Ok(());
    }
    let b_pt: u64 = match point_id(b.point) {
        Ok(x) => x,
        Err(e) => {
            return Err(e);
        },
    };
    let a_pt: u64 = match point_id(a.point) {
        Ok(x) => x,
        Err(e) => {
            return Err(e);
        },
    };
    if is_live_at_issue(facts, live, a, i, b, b_pt) || is_live_at_issue(
        facts,
        live,
        b,
        j,
        a,
        a_pt,
    ) {
        out.push(
            BorrowError {
                place: b.place.clone(),
                is_read: false,
                is_exclusive: true,
                is_drop: false,
                loan_kind: None,
                span1: Some(a.span),
                span: b.span,
            },
        );
        assert(out@ =~= old(out)@ + seq![overlap_error(*a, *b)]);
    } else {
        assert(out@ =~= old(out)@ + Seq::empty());
    }
    Ok(())
}

fn push_conflicts_with(
    facts: &PoloniusFacts,
    infos: &Vec<LoanInfo>,
    i: usize,
    live: &KeySet<(u32, u64)>,
    out: &mut Vec<BorrowError>,
) -> (r: Result<(), PointOverflow>)
    requires
        infos@.len() <= u32::MAX,
        i < infos@.len(),
        forall|l: u32, p: u64| #[trigger] live@.contains((l, p)) <==> facts.loan_live(l, p),
    ensures
        gather::appends(
            r,
            old(out)@,
            final(out)@,
            gather::gather(conflicts_with(*facts, infos@, i as int), infos@.len() - i - 1),
        ),
{
    let ghost f = conflicts_with(*facts, infos@, i as int);
    let ghost start = out@;
    let mut j: usize = i + 1;
    assert(out@ =~= start + Seq::empty());
    while j < infos.len()
        invariant
            infos@.len() <= u32::MAX,
            i < j <= infos@.len(),
            forall|l: u32, p: u64| #[trigger] live@.contains((l, p)) <==> facts.loan_live(l, p),
            f == conflicts_with(*facts, infos@, i as int),
            gather::gather(f, j - i - 1) is Ok,
            out@ == start + gather::gather(f, j - i - 1)->Ok_0,
        decreases infos.len() - j,
    {
        let step = push_pair_errors(facts, infos, i, j, live, out);
        assert(f(j - i - 1) == pair_errors(*facts, infos@, i as int, j as int));
        if let Err(e) = step {
            proof {
                gather::lemma_first_failure(f, j - i, infos@.len() - i - 1);
            }
            return Err(e);
        }
        assert(out@ =~= start + gather::gather(f, j - i)->Ok_0);
        j += 1;
    }
    Ok(())
}

fn push_overlap_errors(
    facts: &PoloniusFacts,
    infos: &Vec<LoanInfo>,
    live: &KeySet<(u32, u64)>,
    out: &mut Vec<BorrowError>,
) -> (r: Result<(), PointOverflow>)
    requires
        infos@.len() <= u32::MAX,
        forall|l: u32, p: u64| #[trigger] live@.contains((l, p)) <==> facts.loan_live(l, p),
    ensures
        gather::appends(
            r,
            old(out)@,
            final(out)@,
            gather::gather(overlapping_loans(*facts, infos@), infos@.len() as int),
        ),
{
    let ghost f = overlapping_loans(*facts, infos@);
    let ghost start = out@;
    let mut i: usize = 0;
    assert(out@ =~= start + Seq::empty());
    while i < infos.len()
        invariant
            infos@.len() <= u32::MAX,
            0 <= i <= infos@.len(),
            forall|l: u32, p: u64| #[trigger] live@.contains((l, p)) <==> facts.loan_live(l, p),
            f == overlapping_loans(*facts, infos@),
            gather::gather(f, i as int) is Ok,
            out@ == start + gather::gather(f, i as int)->Ok_0,
        decreases infos.len() - i,
    {
        let step = push_conflicts_with(facts, infos, i, live, out);
        assert(f(i as int) == gather::gather(
            conflicts_with(*facts, infos@, i as int),
            infos@.len() - i - 1,
        ));
        if let Err(e) = step {
            proof {
                gather::lemma_first_failure(f, i + 1, infos@.len() as int);
            }
            return Err(e);
        }
        assert(out@ =~= start + gather::gather(f, i + 1)->Ok_0);
        i += 1;
    }
    Ok(())
}

// ---------------------------------------------------------------------------
// Undeclared flows, drops
// ---------------------------------------------------------------------------

/// An error without a place in the source.
pub open spec fn placeless(name: u32) -> BorrowError {
    BorrowError {
        place: FrozenPlace::Root(Symbol(name)),
        is_read: false,
        is_exclusive: false,
        is_drop: false,
        loan_kind: None,
        span1: None,
        span: Span { start: 0, end: 0 },
    }
}

/// Some flow between placeholder origins is undeclared.
pub open spec fn has_undeclared_flow(facts: PoloniusFacts) -> bool {
    exists|a: u32, b: u32, p: u64| facts.subset_error(a, b, p)
}

pub open spec fn region_errors(facts: PoloniusFacts) -> Seq<BorrowError> {
    if has_undeclared_flow(facts) {
        seq![placeless(REGION)]
    } else {
        Seq::empty()
    }
}

pub open spec fn drop_error(info: LoanInfo) -> BorrowError {
    BorrowError {
        place: info.place,
        is_read: false,
        is_exclusive: false,
        is_drop: true,
        loan_kind: Some(info.kind),
        span1: None,
        span: info.span,
    }
}

/// The values that are dropped while a loan of them is live.
pub open spec fn frozen_drops(infos: Seq<LoanInfo>, errs: Seq<(u32, u64)>) -> spec_fn(int) -> Seq<
    BorrowError,
> {
    |k: int|
        if errs[k].0 < infos.len() {
            seq![drop_error(infos[errs[k].0 as int])]
        } else {
            Seq::empty()
        }
}

fn placeless_error(name: u32) -> (r: BorrowError)
    ensures
        r == placeless(name),
{
    BorrowError {
        place: FrozenPlace::Root(Symbol(name)),
        is_read: false,
        is_exclusive: false,
        is_drop: false,
        loan_kind: None,
        span1: None,
        span: Span::new(0, 0),
    }
}

fn push_region_errors(facts: &PoloniusFacts, out: &mut Vec<BorrowError>)
    ensures
        final(out)@ == old(out)@ + region_errors(*facts),
{
    let errs = evaluate_subset_errors(facts);
    if errs.len() > 0 {
        proof {
            let x = errs@[0];
            assert(errs@.contains((x.0, x.1, x.2)));
            assert(facts.subset_error(x.0, x.1, x.2));
        }
        out.push(placeless_error(REGION));
    } else {
        assert forall|a: u32, b: u32, p: u64| !facts.subset_error(a, b, p) by {
            assert(!errs@.contains((a, b, p)));
        }
    }
    assert(out@ =~= old(out)@ + region_errors(*facts));
}

fn push_drop_errors(facts: &PoloniusFacts, infos: &Vec<LoanInfo>, out: &mut Vec<BorrowError>)
    ensures
        exists|live: Seq<(u32, u64)>|
            #![trigger facts.lists_live(live)]
            facts.lists_live(live) && final(out)@ == old(out)@ + drop_diagnostics(
                *facts,
                infos@,
                live,
            ),
{
    let errs = evaluate_drop_errors(facts);
    let ghost live = choose|live: Seq<(u32, u64)>|
        #![trigger facts.lists_live(live)]
        facts.lists_live(live) && errs@ == facts.drop_errors(
            live,
            facts.drop_of_var_derefs_origin@.len() as int,
        );
    let ghost f = frozen_drops(infos@, errs@);
    let ghost start = out@;
    let mut k: usize = 0;
    assert(out@ =~= start + gather::concat(f, 0));
    while k < errs.len()
        invariant
            f == frozen_drops(infos@, errs@),
            0 <= k <= errs@.len(),
            out@ == start + gather::concat(f, k as int),
        decreases errs.len() - k,
    {
        let (loan, _) = errs[k];
        if (loan as usize) < infos.len() {
            let info = &infos[loan as usize];
            out.push(
                BorrowError {
                    place: info.place.clone(),
                    is_read: false,
                    is_exclusive: false,
                    is_drop: true,
                    loan_kind: Some(info.kind),
                    span1: None,
                    span: info.span,
                },
            );
        }
        assert(out@ =~= start + gather::concat(f, k + 1));
        k += 1;
    }
    assert(facts.lists_live(live) && out@ == start + drop_diagnostics(*facts, infos@, live));
}

/// The drop errors, when `live` lists the live loans.
pub open spec fn drop_diagnostics(
    facts: PoloniusFacts,
    infos: Seq<LoanInfo>,
    live: Seq<(u32, u64)>,
) -> Seq<BorrowError> {
    let errs = facts.drop_errors(live, facts.drop_of_var_derefs_origin@.len() as int);
    gather::concat(frozen_drops(infos, errs), errs.len() as int)
}

// ---------------------------------------------------------------------------
// All together
// ---------------------------------------------------------------------------

/// One of the first `n` errors is this diagnostic.
pub open spec fn reported(errs: Seq<BorrowError>, n: int, e: BorrowError) -> bool {
    exists|k: int| 0 <= k < n && (#[trigger] errs[k]).same_diagnostic(e)
}

/// The first `n` errors, each diagnostic once, where it comes first.
pub open spec fn distinct(errs: Seq<BorrowError>, n: int) -> Seq<BorrowError>
    decreases n,
{
    if n <= 0 {
        Seq::empty()
    } else if reported(errs, n - 1, errs[n - 1]) {
        distinct(errs, n - 1)
    } else {
        distinct(errs, n - 1).push(errs[n - 1])
    }
}

/// The errors of writes, reads, overlapping loans and undeclared flows, in
/// this order.
pub open spec fn access_errors(
    facts: PoloniusFacts,
    infos: Seq<LoanInfo>,
    events: Seq<(FrozenPlace, Point, bool, Span)>,
) -> Result<Seq<BorrowError>, PointOverflow> {
    gather::join(
        gather::join(
            gather::join(
                Ok(
                    gather::concat(
                        frozen_writes(facts, infos, facts.rule_errors()),
                        facts.rule_errors().len() as int,
                    ),
                ),
                gather::gather(frozen_reads(facts, infos, events), events.len() as int),
            ),
            gather::gather(overlapping_loans(facts, infos), infos.len() as int),
        ),
        Ok(region_errors(facts)),
    )
}

/// All the diagnostics, when `live` lists the live loans.
pub open spec fn diagnostics(
    facts: PoloniusFacts,
    infos: Seq<LoanInfo>,
    events: Seq<(FrozenPlace, Point, bool, Span)>,
    live: Seq<(u32, u64)>,
) -> Result<Seq<BorrowError>, PointOverflow> {
    match access_errors(facts, infos, events) {
        Err(e) => Err(e),
        Ok(s) => {
            let all = s + drop_diagnostics(facts, infos, live);
            Ok(distinct(all, all.len() as int))
        },
    }
}

/// What is left without repeats holds the same diagnostics.
proof fn lemma_distinct_reports(all: Seq<BorrowError>, n: int, e: BorrowError)
    requires
        0 <= n <= all.len(),
    ensures
        reported(all, n, e) == reported(distinct(all, n), distinct(all, n).len() as int, e),
    decreases n,
{
    if n > 0 {
        lemma_distinct_reports(all, n - 1, e);
        let d = distinct(all, n - 1);
        let last = all[n - 1];
        assert(reported(all, n, e) == (reported(all, n - 1, e) || last.same_diagnostic(e)));
        if reported(all, n - 1, last) {
            if last.same_diagnostic(e) {
                let k = choose|k: int| 0 <= k < n - 1 && (#[trigger] all[k]).same_diagnostic(last);
                assert(all[k].same_diagnostic(e));
            }
        } else {
            let t = d.push(last);
            assert(reported(t, t.len() as int, e) == (reported(d, d.len() as int, e)
                || last.same_diagnostic(e))) by {
                if reported(d, d.len() as int, e) {
                    let k = choose|k: int| 0 <= k < d.len() && (#[trigger] d[k]).same_diagnostic(e);
                    assert(t[k].same_diagnostic(e));
                }
                if last.same_diagnostic(e) {
                    assert(t[d.len() as int].same_diagnostic(e));
                }
                if reported(t, t.len() as int, e) {
                    let k = choose|k: int| 0 <= k < t.len() && (#[trigger] t[k]).same_diagnostic(e);
                    if k < d.len() {
                        assert(d[k].same_diagnostic(e));
                    }
                }
            }
        }
    }
}

/// Whether the list holds the diagnostic.
fn is_reported(list: &Vec<BorrowError>, e: &BorrowError) -> (r: bool)
    ensures
        r == reported(list@, list@.len() as int, *e),
{
    let mut i: usize = 0;
    while i < list.len()
        invariant
            0 <= i <= list@.len(),
            !reported(list@, i as int, *e),
        decreases list.len() - i,
    {
        if list[i].repeats(e) {
            return true;
        }
        i += 1;
    }
    false
}

/// The errors, each diagnostic once.
fn remove_repeats(errs: Vec<BorrowError>) -> (r: Vec<BorrowError>)
    ensures
        r@ == distinct(errs@, errs@.len() as int),
{
    let mut out: Vec<BorrowError> = Vec::new();
    let ghost all = errs@;
    let mut rest = errs;
    let ghost mut n: int = 0;
    assert(rest@ =~= all.skip(0));
    assert(out@ =~= distinct(all, 0));
    while rest.len() > 0
        invariant
            0 <= n <= all.len(),
            rest@ == all.skip(n),
            out@ == distinct(all, n),
        decreases rest.len(),
    {
        let e = rest.remove(0);
        assert(e == all[n]);
        assert(rest@ =~= all.skip(n + 1));
        proof {
            lemma_distinct_reports(all, n, e);
            n = n + 1;
        }
        if !is_reported(&out, &e) {
            out.push(e);
        }
    }
    out
}

// ---------------------------------------------------------------------------
// Laws
// ---------------------------------------------------------------------------

/// No diagnostic is given twice.
pub proof fn law_diagnostics_differ(all: Seq<BorrowError>, n: int, i: int, j: int)
    requires
        0 <= n <= all.len(),
        0 <= i < j < distinct(all, n).len(),
    ensures
        !distinct(all, n)[i].same_diagnostic(distinct(all, n)[j]),
    decreases n,
{
    let d = distinct(all, n - 1);
    if reported(all, n - 1, all[n - 1]) || j < d.len() {
        law_diagnostics_differ(all, n - 1, i, j);
    } else {
        lemma_distinct_reports(all, n - 1, all[n - 1]);
        assert(d[i] == distinct(all, n)[i]);
    }
}

/// Every error that is found is reported, and only those are.
pub proof fn law_diagnostics_complete(all: Seq<BorrowError>, e: BorrowError)
    ensures
        reported(all, all.len() as int, e) == reported(
            distinct(all, all.len() as int),
            distinct(all, all.len() as int).len() as int,
            e,
        ),
{
    lemma_distinct_reports(all, all.len() as int, e);
}

/// The diagnostics of the rules, each once. The order of those of drops is
/// that in which the live loans are listed.
pub fn rules_to_borrow_errors(
    facts: &PoloniusFacts,
    infos: &Vec<LoanInfo>,
    events: &Vec<(FrozenPlace, Point, bool, Span)>,
) -> (r: Result<Vec<BorrowError>, PointOverflow>)
    requires
        infos@.len() <= u32::MAX,
    ensures
        exists|live: Seq<(u32, u64)>|
            #![trigger facts.lists_live(live)]
            facts.lists_live(live) && match r {
                Ok(errs) => diagnostics(*facts, infos@, events@, live) == Ok::<
                    Seq<BorrowError>,
                    PointOverflow,
                >(errs@),
                Err(e) => diagnostics(*facts, infos@, events@, live) == Err::<
                    Seq<BorrowError>,
                    PointOverflow,
                >(e),
            },
{
    let mut out: Vec<BorrowError> = Vec::new();
    let loan_live = loan_live_at(facts);
    assert(facts.lists_live(loan_live.items@));
    push_write_errors(facts, infos, &mut out);
    if let Err(e) = push_read_errors(facts, infos, events, &loan_live, &mut out) {
        return Err(e);
    }
    if let Err(e) = push_overlap_errors(facts, infos, &loan_live, &mut out) {
        return Err(e);
    }
    push_region_errors(facts, &mut out);
    assert(out@ =~= access_errors(*facts, infos@, events@)->Ok_0);
    push_drop_errors(facts, infos, &mut out);
    Ok(remove_repeats(out))
}

/// The borrow errors of a function body. Where a point has no number, one
/// error that names no place says so.
pub fn borrow_check_function(
    cfg: &CfgGraph,
    body: &Vec<HirStmt>,
    live: &PointLiveness,
    data: BorrowData,
    registry: &Vec<CalleeEntry>,
) -> (r: Vec<BorrowError>)
    requires
        data.wf(),
        paths_fit(data),
        calls::calls_fit(registry@, cfg.blocks@, data.loans@.len() as int),
    ensures
        match extraction::extraction(cfg.blocks@, body@, *live, data) {
            Err(_) => r@ == seq![placeless(INTERNAL)],
            Ok(x) => exists|facts: PoloniusFacts, live: Seq<(u32, u64)>|
                #![trigger facts.lists_live(live)]
                {
                    let sites = calls::call_sites(registry@, cfg.blocks@);
                    &&& facts.holds_calls(
                        x,
                        registry@,
                        sites,
                        data.loans@.len() as u32,
                        sites.len() as int,
                    )
                    &&& facts.lists_live(live)
                    &&& match diagnostics(facts, x.infos, data.events@, live) {
                        Ok(errs) => r@ == errs,
                        Err(_) => r@ == seq![placeless(INTERNAL)],
                    }
                },
        },
{
    match cross_function(cfg, body, live, data, registry) {
        Err(_) => {
            let mut out: Vec<BorrowError> = Vec::new();
            out.push(placeless_error(INTERNAL));
            assert(out@ =~= seq![placeless(INTERNAL)]);
            out
        },
        Ok((facts, infos, events)) => {
            match rules_to_borrow_errors(&facts, &infos, &events) {
                Ok(errs) => errs,
                Err(_) => {
                    let mut out: Vec<BorrowError> = Vec::new();
                    out.push(placeless_error(INTERNAL));
                    assert(out@ =~= seq![placeless(INTERNAL)]);
                    out
                },
            }
        },
    }
}

} // verus!
