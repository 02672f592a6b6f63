//! Which errors are reported.
use super::errors;
use super::errors::BorrowError;
use super::extraction;
use super::facts::PoloniusFacts;
use super::input::{LoanInfo, LoanKind};
use super::laws;
use super::point::{Point, PointOverflow};
use crate::gather;
use crate::place::FrozenPlace;
use crate::symbol::{Span, Symbol, REGION};
use vstd::prelude::*;

verus! {

// ---------------------------------------------------------------------------
// What is wrong
// ---------------------------------------------------------------------------

/// No loan is made at the point.
pub open spec fn no_loan_made(facts: PoloniusFacts, p: u64) -> bool {
    forall|l: u32, o: u32| !(#[trigger] facts.loan_issued_at@.contains((l, o, p)))
}

/// Something other than a borrow invalidates loan `l` at `p`, where it is live.
pub open spec fn is_broken(facts: PoloniusFacts, infos: Seq<LoanInfo>, l: u32, p: u64) -> bool {
    &&& l < infos.len()
    &&& facts.loan_invalidated_at@.contains((l, p))
    &&& facts.loan_live(l, p)
    &&& no_loan_made(facts, p)
}

/// The point is in the statement in which a receiver is borrowed, from the borrow on.
pub open spec fn is_reserved_at(info: LoanInfo, pt: Point) -> bool {
    &&& info.two_phase
    &&& pt.block == info.point.block
    &&& pt.stmt == info.point.stmt
    &&& info.point.expr <= pt.expr
}

/// The access reads what loan `i`, which is exclusive and live there, is of; not
/// through the variable that holds the loan, nor while it is reserved.
pub open spec fn is_peeked(
    facts: PoloniusFacts,
    infos: Seq<LoanInfo>,
    event: (FrozenPlace, Point, bool, Span),
    hit: (FrozenPlace, bool),
    i: int,
) -> bool {
    &&& event.2
    &&& 0 <= i < infos.len()
    &&& infos[i].kind == LoanKind::Exclusive
    &&& hit.0.prefixes(infos[i].place) || infos[i].place.prefixes(hit.0)
    &&& facts.loan_live(i as u32, event.1.code())
    &&& !(hit.1 && infos[i].borrow_var == Some(event.0.root()))
    &&& !is_reserved_at(infos[i], event.1)
}

/// Loan `i` is live where loan `j` is made and is not reserved there; nor do both
/// belong to one variable, which gives up the first in that statement.
pub open spec fn is_met(facts: PoloniusFacts, infos: Seq<LoanInfo>, i: int, j: int) -> bool {
    &&& facts.loan_live(i as u32, infos[j].point.code())
    &&& !is_reserved_at(infos[i], infos[j].point)
    &&& infos[i].borrow_var is Some && infos[i].borrow_var == infos[j].borrow_var ==> !exists|
        q: u64,
    | #[trigger]
        facts.loan_killed_at@.contains((i as u32, q)) && q / 65_536 == infos[j].point.code()
            / 65_536
}

/// Loans `i` and, after it, `j` are of places that touch, come from different
/// expressions, are not made one through the other, and meet.
pub open spec fn is_pair(facts: PoloniusFacts, infos: Seq<LoanInfo>, i: int, j: int) -> bool {
    &&& 0 <= i < j < infos.len()
    &&& infos[i].place.prefixes(infos[j].place) || infos[j].place.prefixes(infos[i].place)
    &&& infos[i].span != infos[j].span
    &&& !facts.reborrow_sources@.contains((i as u32, j as u32))
    &&& is_met(facts, infos, i, j) || is_met(facts, infos, j, i)
}

/// A variable is dropped at `p`, and dropping it reaches the origin that loan `l`,
/// which is live there, was last issued with.
pub open spec fn is_lost(facts: PoloniusFacts, infos: Seq<LoanInfo>, l: u32, p: u64) -> bool {
    &&& l < infos.len()
    &&& facts.loan_live(l, p)
    &&& exists|v: u32, o: u32|
        #![trigger facts.drop_of_var_derefs_origin@.contains((v, o))]
        facts.drop_of_var_derefs_origin@.contains((v, o)) && facts.var_dropped_at@.contains((v, p))
            && is_last_origin(facts, l, o)
}

/// The last fact on where the loan is issued names the origin.
pub open spec fn is_last_origin(facts: PoloniusFacts, l: u32, o: u32) -> bool {
    exists|k: int|
        #![trigger facts.loan_issued_at@[k]]
        0 <= k < facts.loan_issued_at@.len() && facts.loan_issued_at@[k].0 == l
            && facts.loan_issued_at@[k].1 == o && forall|m: int|
            k < m < facts.loan_issued_at@.len() ==> (#[trigger] facts.loan_issued_at@[m]).0 != l
}

// ---------------------------------------------------------------------------
// Which errors there are, in any order
// ---------------------------------------------------------------------------

proof fn lemma_writes(facts: PoloniusFacts, infos: Seq<LoanInfo>, e: BorrowError)
    ensures
        gather::concat(
            errors::frozen_writes(facts, infos, facts.rule_errors()),
            facts.rule_errors().len() as int,
        ).contains(e) <==> exists|l: u32, p: u64| #[trigger]
            is_broken(facts, infos, l, p) && e == (BorrowError {
                place: infos[l as int].place,
                is_read: false,
                is_exclusive: false,
                is_drop: false,
                loan_kind: Some(infos[l as int].kind),
                span1: None,
                span: infos[l as int].span,
            }),
{
    let errs = facts.rule_errors();
    let f = errors::frozen_writes(facts, infos, errs);
    gather::lemma_in_piece(f, errs.len() as int, e);
    if exists|i: int| 0 <= i < errs.len() && (#[trigger] f(i)).contains(e) {
        let i = choose|i: int| 0 <= i < errs.len() && (#[trigger] f(i)).contains(e);
        let (l, p) = errs[i];
        laws::law_errors_are_live_invalidations(facts, l, p);
        assert(errs.contains((l, p)));
        lemma_issue_point(facts, p);
        assert(is_broken(facts, infos, l, p));
    }
    if exists|l: u32, p: u64| #[trigger]
        is_broken(facts, infos, l, p) && e == errors::write_error(infos[l as int]) {
        let (l, p) = choose|l: u32, p: u64| #[trigger]
            is_broken(facts, infos, l, p) && e == errors::write_error(infos[l as int]);
        laws::law_errors_are_live_invalidations(facts, l, p);
        let i = choose|i: int| 0 <= i < errs.len() && errs[i] == (l, p);
        lemma_issue_point(facts, p);
        assert(f(i)[0] == e);
        assert(f(i).contains(e));
    }
}

proof fn lemma_issue_point(facts: PoloniusFacts, p: u64)
    ensures
        no_loan_made(facts, p) == !errors::issues_at(facts, p),
{
    if errors::issues_at(facts, p) {
        let k = choose|k: int|
            0 <= k < facts.loan_issued_at@.len() && (#[trigger] facts.loan_issued_at@[k]).2 == p;
        let x = facts.loan_issued_at@[k];
        assert(facts.loan_issued_at@.contains((x.0, x.1, p)));
    }
}

proof fn lemma_reads(
    facts: PoloniusFacts,
    infos: Seq<LoanInfo>,
    events: Seq<(FrozenPlace, Point, bool, Span)>,
    e: BorrowError,
)
    requires
        gather::gather(errors::frozen_reads(facts, infos, events), events.len() as int) is Ok,
    ensures
        gather::gather(
            errors::frozen_reads(facts, infos, events),
            events.len() as int,
        )->Ok_0.contains(e) <==> exists|k: int, i: int|
            0 <= k < events.len() && #[trigger] is_peeked(
                facts,
                infos,
                events[k],
                extraction::accessed(events[k].0, events[k].1, infos)->Ok_0,
                i,
            ) && e == (BorrowError {
                place: extraction::accessed(events[k].0, events[k].1, infos)->Ok_0.0,
                is_read: true,
                is_exclusive: false,
                is_drop: false,
                loan_kind: Some(LoanKind::Exclusive),
                span1: None,
                span: events[k].3,
            }),
        forall|k: int|
            0 <= k < events.len() && (#[trigger] events[k]).2 ==> events[k].1.id() is Ok
                && extraction::accessed(events[k].0, events[k].1, infos) is Ok,
{
    let f = errors::frozen_reads(facts, infos, events);
    gather::lemma_in_gathered(f, events.len() as int, e);
    assert forall|k: int| 0 <= k < events.len() && (#[trigger] events[k]).2 implies events[k].1.id()
        is Ok && extraction::accessed(events[k].0, events[k].1, infos) is Ok by {
        assert(f(k) is Ok);
    }
    if exists|k: int| 0 <= k < events.len() && (#[trigger] f(k))->Ok_0.contains(e) {
        let k = choose|k: int| 0 <= k < events.len() && (#[trigger] f(k))->Ok_0.contains(e);
        let hit = extraction::accessed(events[k].0, events[k].1, infos)->Ok_0;
        let g = errors::read_errors(facts, infos, events[k], hit);
        assert(f(k) is Ok);
        assert(events[k].2);
        gather::lemma_in_piece(g, infos.len() as int, e);
        let i = choose|i: int| 0 <= i < infos.len() && (#[trigger] g(i)).contains(e);
        assert(is_peeked(facts, infos, events[k], hit, i));
        assert(e == errors::read_error(hit.0, events[k].3));
    }
    if exists|k: int, i: int|
        0 <= k < events.len() && #[trigger] is_peeked(
            facts,
            infos,
            events[k],
            extraction::accessed(events[k].0, events[k].1, infos)->Ok_0,
            i,
        ) && e == errors::read_error(
            extraction::accessed(events[k].0, events[k].1, infos)->Ok_0.0,
            events[k].3,
        ) {
        let (k, i) = choose|k: int, i: int|
            0 <= k < events.len() && #[trigger] is_peeked(
                facts,
                infos,
                events[k],
                extraction::accessed(events[k].0, events[k].1, infos)->Ok_0,
                i,
            ) && e == errors::read_error(
                extraction::accessed(events[k].0, events[k].1, infos)->Ok_0.0,
                events[k].3,
            );
        let hit = extraction::accessed(events[k].0, events[k].1, infos)->Ok_0;
        let g = errors::read_errors(facts, infos, events[k], hit);
        assert(errors::read_conflicts(facts, infos[i], i, events[k].0, events[k].1, hit));
        assert(g(i)[0] == e);
        assert(g(i).contains(e));
        gather::lemma_in_piece(g, infos.len() as int, e);
        assert(f(k) is Ok);
        assert(f(k)->Ok_0.contains(e));
    }
}

proof fn lemma_met(facts: PoloniusFacts, infos: Seq<LoanInfo>, i: int, j: int)
    ensures
        is_met(facts, infos, i, j) == errors::live_at_issue(facts, infos[i], i, infos[j]),
{
    let l = i as u32;
    let p = infos[j].point.code();
    if errors::ended_in_stmt(facts, l, p) {
        let k = choose|k: int|
            0 <= k < facts.loan_killed_at@.len() && (#[trigger] facts.loan_killed_at@[k]).0 == l
                && facts.loan_killed_at@[k].1 / 65_536 == p / 65_536;
        let q = facts.loan_killed_at@[k].1;
        assert(facts.loan_killed_at@.contains((l, q)));
    }
    if exists|q: u64| #[trigger]
        facts.loan_killed_at@.contains((l, q)) && q / 65_536 == p / 65_536 {
        let q = choose|q: u64| #[trigger]
            facts.loan_killed_at@.contains((l, q)) && q / 65_536 == p / 65_536;
        let k = choose|k: int|
            0 <= k < facts.loan_killed_at@.len() && facts.loan_killed_at@[k] == (l, q);
        assert(facts.loan_killed_at@[k].0 == l);
    }
}

proof fn lemma_pairs(facts: PoloniusFacts, infos: Seq<LoanInfo>, e: BorrowError)
    requires
        gather::gather(errors::overlapping_loans(facts, infos), infos.len() as int) is Ok,
    ensures
        gather::gather(
            errors::overlapping_loans(facts, infos),
            infos.len() as int,
        )->Ok_0.contains(e) <==> exists|i: int, j: int| #[trigger]
            is_pair(facts, infos, i, j) && e == (BorrowError {
                place: infos[j].place,
                is_read: false,
                is_exclusive: true,
                is_drop: false,
                loan_kind: None,
                span1: Some(infos[i].span),
                span: infos[j].span,
            }),
{
    let f = errors::overlapping_loans(facts, infos);
    let n = infos.len() as int;
    gather::lemma_in_gathered(f, n, e);
    if exists|i: int| 0 <= i < n && (#[trigger] f(i))->Ok_0.contains(e) {
        let i = choose|i: int| 0 <= i < n && (#[trigger] f(i))->Ok_0.contains(e);
        let g = errors::conflicts_with(facts, infos, i);
        assert(f(i) is Ok);
        gather::lemma_in_gathered(g, n - i - 1, e);
        let d = choose|d: int| 0 <= d < n - i - 1 && (#[trigger] g(d))->Ok_0.contains(e);
        let j = i + 1 + d;
        assert(g(d) == errors::pair_errors(facts, infos, i, j));
        assert(g(d) is Ok);
        lemma_met(facts, infos, i, j);
        lemma_met(facts, infos, j, i);
        assert(is_pair(facts, infos, i, j));
        assert(e == errors::overlap_error(infos[i], infos[j]));
    }
    if exists|i: int, j: int| #[trigger]
        is_pair(facts, infos, i, j) && e == errors::overlap_error(infos[i], infos[j]) {
        let (i, j) = choose|i: int, j: int| #[trigger]
            is_pair(facts, infos, i, j) && e == errors::overlap_error(infos[i], infos[j]);
        let g = errors::conflicts_with(facts, infos, i);
        assert(f(i) is Ok);
        gather::lemma_in_gathered(g, n - i - 1, e);
        let d = j - i - 1;
        lemma_met(facts, infos, i, j);
        lemma_met(facts, infos, j, i);
        assert(g(d) == errors::pair_errors(facts, infos, i, j));
        assert(g(d) is Ok);
        assert(g(d)->Ok_0[0] == e);
        assert(g(d)->Ok_0.contains(e));
        assert(f(i)->Ok_0.contains(e));
    }
}

proof fn lemma_last_origin(facts: PoloniusFacts, l: u32, o: u32, n: int)
    requires
        0 <= n <= facts.loan_issued_at@.len(),
    ensures
        facts.origin_of(l, n) == Some(o) <==> exists|k: int|
            #![trigger facts.loan_issued_at@[k]]
            0 <= k < n && facts.loan_issued_at@[k].0 == l && facts.loan_issued_at@[k].1 == o
                && forall|m: int|
                k < m < n ==> (#[trigger] facts.loan_issued_at@[m]).0 != l,
    decreases n,
{
    if n > 0 {
        lemma_last_origin(facts, l, o, n - 1);
        let x = facts.loan_issued_at@[n - 1];
        if x.0 != l && facts.origin_of(l, n - 1) == Some(o) {
            let k = choose|k: int|
                #![trigger facts.loan_issued_at@[k]]
                0 <= k < n - 1 && facts.loan_issued_at@[k].0 == l && facts.loan_issued_at@[k].1
                    == o && forall|m: int|
                    k < m < n - 1 ==> (#[trigger] facts.loan_issued_at@[m]).0 != l;
            assert(facts.loan_issued_at@[k].0 == l);
        }
        if exists|k: int|
            #![trigger facts.loan_issued_at@[k]]
            0 <= k < n && facts.loan_issued_at@[k].0 == l && facts.loan_issued_at@[k].1 == o
                && forall|m: int|
                k < m < n ==> (#[trigger] facts.loan_issued_at@[m]).0 != l {
            let k = choose|k: int|
                #![trigger facts.loan_issued_at@[k]]
                0 <= k < n && facts.loan_issued_at@[k].0 == l && facts.loan_issued_at@[k].1 == o
                    && forall|m: int|
                    k < m < n ==> (#[trigger] facts.loan_issued_at@[m]).0 != l;
            if k < n - 1 {
                assert(facts.loan_issued_at@[n - 1].0 != l);
                assert(facts.loan_issued_at@[k].0 == l);
            }
        }
    }
}

proof fn lemma_dropped(
    facts: PoloniusFacts,
    live: Seq<(u32, u64)>,
    v: u32,
    o: u32,
    n: int,
    x: (u32, u64),
)
    requires
        0 <= n <= facts.var_dropped_at@.len(),
    ensures
        facts.drops_of(live, v, o, n).contains(x) <==> live.contains(x) && facts.origin_of(
            x.0,
            facts.loan_issued_at@.len() as int,
        ) == Some(o) && exists|k: int| 0 <= k < n && #[trigger] facts.var_dropped_at@[k] == (v, x.1),
    decreases n,
{
    if n > 0 {
        let d = facts.var_dropped_at@[n - 1];
        lemma_dropped(facts, live, v, o, n - 1, x);
        let found = facts.dropped_loans(live, o, d.1);
        let f = facts.found_by_drop(o, d.1);
        live.filter_lemma(f);
        assert(found.contains(x) <==> live.contains(x) && f(x)) by {
            if found.contains(x) {
                live.lemma_filter_contains_rev(f, x);
                let k = choose|k: int| 0 <= k < found.len() && found[k] == x;
                assert(f(found[k]));
            }
            if live.contains(x) && f(x) {
                let k = choose|k: int| 0 <= k < live.len() && live[k] == x;
                assert(live.filter(f).contains(live[k]));
            }
        }
        gather::lemma_in_both(
            facts.drops_of(live, v, o, n - 1),
            if d.0 == v {
                found
            } else {
                Seq::empty()
            },
            x,
        );
        if exists|k: int| 0 <= k < n && #[trigger] facts.var_dropped_at@[k] == (v, x.1) {
            let k = choose|k: int| 0 <= k < n && #[trigger] facts.var_dropped_at@[k] == (v, x.1);
            if k < n - 1 {
                assert(facts.var_dropped_at@[k] == (v, x.1));
            }
        }
    }
}

proof fn lemma_drop_errors(facts: PoloniusFacts, live: Seq<(u32, u64)>, n: int, x: (u32, u64))
    requires
        0 <= n <= facts.drop_of_var_derefs_origin@.len(),
    ensures
        facts.drop_errors(live, n).contains(x) <==> live.contains(x) && exists|k: int|
            #![trigger facts.drop_of_var_derefs_origin@[k]]
            0 <= k < n && facts.var_dropped_at@.contains(
                (facts.drop_of_var_derefs_origin@[k].0, x.1),
            ) && is_last_origin(facts, x.0, facts.drop_of_var_derefs_origin@[k].1),
    decreases n,
{
    if n > 0 {
        lemma_drop_errors(facts, live, n - 1, x);
        let d = facts.drop_of_var_derefs_origin@[n - 1];
        let m = facts.var_dropped_at@.len() as int;
        lemma_dropped(facts, live, d.0, d.1, m, x);
        lemma_last_origin(facts, x.0, d.1, facts.loan_issued_at@.len() as int);
        gather::lemma_in_both(
            facts.drop_errors(live, n - 1),
            facts.drops_of(live, d.0, d.1, m),
            x,
        );
        assert(facts.var_dropped_at@.contains((d.0, x.1)) == exists|k: int|
            0 <= k < m && #[trigger] facts.var_dropped_at@[k] == (d.0, x.1));
        if exists|k: int|
            #![trigger facts.drop_of_var_derefs_origin@[k]]
            0 <= k < n && facts.var_dropped_at@.contains(
                (facts.drop_of_var_derefs_origin@[k].0, x.1),
            ) && is_last_origin(facts, x.0, facts.drop_of_var_derefs_origin@[k].1) {
            let k = choose|k: int|
                #![trigger facts.drop_of_var_derefs_origin@[k]]
                0 <= k < n && facts.var_dropped_at@.contains(
                    (facts.drop_of_var_derefs_origin@[k].0, x.1),
                ) && is_last_origin(facts, x.0, facts.drop_of_var_derefs_origin@[k].1);
            if k < n - 1 {
                assert(is_last_origin(facts, x.0, facts.drop_of_var_derefs_origin@[k].1));
            }
        }
    }
}

proof fn lemma_drops(
    facts: PoloniusFacts,
    infos: Seq<LoanInfo>,
    live: Seq<(u32, u64)>,
    e: BorrowError,
)
    requires
        facts.lists_live(live),
    ensures
        errors::drop_diagnostics(facts, infos, live).contains(e) <==> exists|l: u32, p: u64| #[trigger]
            is_lost(facts, infos, l, p) && e == (BorrowError {
                place: infos[l as int].place,
                is_read: false,
                is_exclusive: false,
                is_drop: true,
                loan_kind: Some(infos[l as int].kind),
                span1: None,
                span: infos[l as int].span,
            }),
{
    let n = facts.drop_of_var_derefs_origin@.len() as int;
    let errs = facts.drop_errors(live, n);
    let f = errors::frozen_drops(infos, errs);
    gather::lemma_in_piece(f, errs.len() as int, e);
    if exists|i: int| 0 <= i < errs.len() && (#[trigger] f(i)).contains(e) {
        let i = choose|i: int| 0 <= i < errs.len() && (#[trigger] f(i)).contains(e);
        let (l, p) = errs[i];
        lemma_drop_errors(facts, live, n, (l, p));
        assert(errs.contains((l, p)));
        let k = choose|k: int|
            #![trigger facts.drop_of_var_derefs_origin@[k]]
            0 <= k < n && facts.var_dropped_at@.contains(
                (facts.drop_of_var_derefs_origin@[k].0, p),
            ) && is_last_origin(facts, l, facts.drop_of_var_derefs_origin@[k].1);
        let d = facts.drop_of_var_derefs_origin@[k];
        assert(facts.drop_of_var_derefs_origin@.contains((d.0, d.1)));
        assert(is_lost(facts, infos, l, p));
        assert(e == errors::drop_error(infos[l as int]));
    }
    if exists|l: u32, p: u64| #[trigger]
        is_lost(facts, infos, l, p) && e == errors::drop_error(infos[l as int]) {
        let (l, p) = choose|l: u32, p: u64| #[trigger]
            is_lost(facts, infos, l, p) && e == errors::drop_error(infos[l as int]);
        let (v, o) = choose|v: u32, o: u32|
            #![trigger facts.drop_of_var_derefs_origin@.contains((v, o))]
            facts.drop_of_var_derefs_origin@.contains((v, o)) && facts.var_dropped_at@.contains(
                (v, p),
            ) && is_last_origin(facts, l, o);
        let k = choose|k: int| 0 <= k < n && facts.drop_of_var_derefs_origin@[k] == (v, o);
        assert(facts.drop_of_var_derefs_origin@[k].0 == v);
        lemma_drop_errors(facts, live, n, (l, p));
        assert(live.contains((l, p)));
        let i = choose|i: int| 0 <= i < errs.len() && errs[i] == (l, p);
        assert(f(i)[0] == e);
        assert(f(i).contains(e));
    }
}

// ---------------------------------------------------------------------------
// What is reported
// ---------------------------------------------------------------------------

/// Where each error is found, before repeats are left out.
proof fn lemma_found(
    facts: PoloniusFacts,
    infos: Seq<LoanInfo>,
    events: Seq<(FrozenPlace, Point, bool, Span)>,
    live: Seq<(u32, u64)>,
    e: BorrowError,
)
    requires
        errors::access_errors(facts, infos, events) is Ok,
    ensures
        gather::gather(errors::frozen_reads(facts, infos, events), events.len() as int) is Ok,
        gather::gather(errors::overlapping_loans(facts, infos), infos.len() as int) is Ok,
        (errors::access_errors(facts, infos, events)->Ok_0 + errors::drop_diagnostics(
            facts,
            infos,
            live,
        )).contains(e) <==> {
            ||| gather::concat(
                errors::frozen_writes(facts, infos, facts.rule_errors()),
                facts.rule_errors().len() as int,
            ).contains(e)
            ||| gather::gather(
                errors::frozen_reads(facts, infos, events),
                events.len() as int,
            )->Ok_0.contains(e)
            ||| gather::gather(
                errors::overlapping_loans(facts, infos),
                infos.len() as int,
            )->Ok_0.contains(e)
            ||| errors::region_errors(facts).contains(e)
            ||| errors::drop_diagnostics(facts, infos, live).contains(e)
        },
{
    let a = gather::concat(
        errors::frozen_writes(facts, infos, facts.rule_errors()),
        facts.rule_errors().len() as int,
    );
    let b = gather::gather(errors::frozen_reads(facts, infos, events), events.len() as int)->Ok_0;
    let c = gather::gather(errors::overlapping_loans(facts, infos), infos.len() as int)->Ok_0;
    let d = errors::region_errors(facts);
    gather::lemma_in_both(a, b, e);
    gather::lemma_in_both(a + b, c, e);
    gather::lemma_in_both(a + b + c, d, e);
    gather::lemma_in_both(a + b + c + d, errors::drop_diagnostics(facts, infos, live), e);
}

proof fn lemma_distinct_within(all: Seq<BorrowError>, n: int, k: int)
    requires
        0 <= n <= all.len(),
        0 <= k < errors::distinct(all, n).len(),
    ensures
        all.contains(errors::distinct(all, n)[k]),
    decreases n,
{
    if n > 0 {
        let d = errors::distinct(all, n - 1);
        if k < d.len() {
            lemma_distinct_within(all, n - 1, k);
        }
    }
}

/// What is found is reported, as itself or as an error that repeats it.
proof fn lemma_reported(
    facts: PoloniusFacts,
    infos: Seq<LoanInfo>,
    events: Seq<(FrozenPlace, Point, bool, Span)>,
    live: Seq<(u32, u64)>,
    errs: Seq<BorrowError>,
    e: BorrowError,
) -> (k: int)
    requires
        errors::diagnostics(facts, infos, events, live) == Ok::<Seq<BorrowError>, PointOverflow>(
            errs,
        ),
        (errors::access_errors(facts, infos, events)->Ok_0 + errors::drop_diagnostics(
            facts,
            infos,
            live,
        )).contains(e),
    ensures
        0 <= k < errs.len(),
        errs[k].same_diagnostic(e),
        (errors::access_errors(facts, infos, events)->Ok_0 + errors::drop_diagnostics(
            facts,
            infos,
            live,
        )).contains(errs[k]),
{
    let all = errors::access_errors(facts, infos, events)->Ok_0 + errors::drop_diagnostics(
        facts,
        infos,
        live,
    );
    let i = choose|i: int| 0 <= i < all.len() && all[i] == e;
    assert(all[i].same_diagnostic(e));
    assert(errors::reported(all, all.len() as int, e));
    errors::law_diagnostics_complete(all, e);
    let k = choose|k: int| 0 <= k < errs.len() && (#[trigger] errs[k]).same_diagnostic(e);
    lemma_distinct_within(all, all.len() as int, k);
    k
}

/// A write to a borrowed place, whatever the loan is, is reported: with the place,
/// the kind and the position of the loan, and none of the other marks.
pub proof fn law_broken_loans_are_reported(
    facts: PoloniusFacts,
    infos: Seq<LoanInfo>,
    events: Seq<(FrozenPlace, Point, bool, Span)>,
    live: Seq<(u32, u64)>,
    errs: Seq<BorrowError>,
    l: u32,
    p: u64,
)
    requires
        errors::diagnostics(facts, infos, events, live) == Ok::<Seq<BorrowError>, PointOverflow>(
            errs,
        ),
        l < infos.len(),
        facts.loan_invalidated_at@.contains((l, p)),
        facts.loan_live(l, p),
        no_loan_made(facts, p),
    ensures
        exists|k: int|
            0 <= k < errs.len() && (#[trigger] errs[k]) == (BorrowError {
                place: infos[l as int].place,
                is_read: false,
                is_exclusive: false,
                is_drop: false,
                loan_kind: Some(infos[l as int].kind),
                span1: None,
                span: infos[l as int].span,
            }),
{
    let e = BorrowError {
        place: infos[l as int].place,
        is_read: false,
        is_exclusive: false,
        is_drop: false,
        loan_kind: Some(infos[l as int].kind),
        span1: None,
        span: infos[l as int].span,
    };
    assert(is_broken(facts, infos, l, p));
    lemma_writes(facts, infos, e);
    lemma_found(facts, infos, events, live, e);
    let k = lemma_reported(facts, infos, events, live, errs, e);
    assert(errs[k] == e);
}

/// Reading what an exclusive loan is of, where the loan is live, is reported.
pub proof fn law_peeks_are_reported(
    facts: PoloniusFacts,
    infos: Seq<LoanInfo>,
    events: Seq<(FrozenPlace, Point, bool, Span)>,
    live: Seq<(u32, u64)>,
    errs: Seq<BorrowError>,
    j: int,
    i: int,
)
    requires
        errors::diagnostics(facts, infos, events, live) == Ok::<Seq<BorrowError>, PointOverflow>(
            errs,
        ),
        0 <= j < events.len(),
        is_peeked(
            facts,
            infos,
            events[j],
            extraction::accessed(events[j].0, events[j].1, infos)->Ok_0,
            i,
        ),
    ensures
        exists|k: int|
            0 <= k < errs.len() && (#[trigger] errs[k]) == (BorrowError {
                place: extraction::accessed(events[j].0, events[j].1, infos)->Ok_0.0,
                is_read: true,
                is_exclusive: false,
                is_drop: false,
                loan_kind: Some(LoanKind::Exclusive),
                span1: None,
                span: events[j].3,
            }),
{
    let e = BorrowError {
        place: extraction::accessed(events[j].0, events[j].1, infos)->Ok_0.0,
        is_read: true,
        is_exclusive: false,
        is_drop: false,
        loan_kind: Some(LoanKind::Exclusive),
        span1: None,
        span: events[j].3,
    };
    lemma_found(facts, infos, events, live, e);
    lemma_reads(facts, infos, events, e);
    let k = lemma_reported(facts, infos, events, live, errs, e);
    assert(errs[k] == e);
}

/// Two loans that meet are reported: the place and the position of the later one,
/// with the position of the earlier one.
pub proof fn law_meeting_loans_are_reported(
    facts: PoloniusFacts,
    infos: Seq<LoanInfo>,
    events: Seq<(FrozenPlace, Point, bool, Span)>,
    live: Seq<(u32, u64)>,
    errs: Seq<BorrowError>,
    i: int,
    j: int,
)
    requires
        errors::diagnostics(facts, infos, events, live) == Ok::<Seq<BorrowError>, PointOverflow>(
            errs,
        ),
        facts.lists_live(live),
        is_pair(facts, infos, i, j),
    ensures
        exists|k: int|
            0 <= k < errs.len() && (#[trigger] errs[k]) == (BorrowError {
                place: infos[j].place,
                is_read: false,
                is_exclusive: true,
                is_drop: false,
                loan_kind: None,
                span1: Some(infos[i].span),
                span: infos[j].span,
            }),
{
    let e = BorrowError {
        place: infos[j].place,
        is_read: false,
        is_exclusive: true,
        is_drop: false,
        loan_kind: None,
        span1: Some(infos[i].span),
        span: infos[j].span,
    };
    lemma_found(facts, infos, events, live, e);
    lemma_pairs(facts, infos, e);
    let k = lemma_reported(facts, infos, events, live, errs, e);
    lemma_found(facts, infos, events, live, errs[k]);
    lemma_drops(facts, infos, live, errs[k]);
    lemma_pairs(facts, infos, errs[k]);
    lemma_writes(facts, infos, errs[k]);
    lemma_reads(facts, infos, events, errs[k]);
    assert(errs[k] == e);
}

/// Dropping a value while a loan of it is live is reported.
pub proof fn law_lost_loans_are_reported(
    facts: PoloniusFacts,
    infos: Seq<LoanInfo>,
    events: Seq<(FrozenPlace, Point, bool, Span)>,
    live: Seq<(u32, u64)>,
    errs: Seq<BorrowError>,
    l: u32,
    p: u64,
)
    requires
        errors::diagnostics(facts, infos, events, live) == Ok::<Seq<BorrowError>, PointOverflow>(
            errs,
        ),
        facts.lists_live(live),
        is_lost(facts, infos, l, p),
    ensures
        exists|k: int|
            0 <= k < errs.len() && (#[trigger] errs[k]) == (BorrowError {
                place: infos[l as int].place,
                is_read: false,
                is_exclusive: false,
                is_drop: true,
                loan_kind: Some(infos[l as int].kind),
                span1: None,
                span: infos[l as int].span,
            }),
{
    let e = BorrowError {
        place: infos[l as int].place,
        is_read: false,
        is_exclusive: false,
        is_drop: true,
        loan_kind: Some(infos[l as int].kind),
        span1: None,
        span: infos[l as int].span,
    };
    lemma_drops(facts, infos, live, e);
    lemma_found(facts, infos, events, live, e);
    let k = lemma_reported(facts, infos, events, live, errs, e);
    lemma_found(facts, infos, events, live, errs[k]);
    lemma_drops(facts, infos, live, errs[k]);
    lemma_pairs(facts, infos, errs[k]);
    lemma_writes(facts, infos, errs[k]);
    lemma_reads(facts, infos, events, errs[k]);
    assert(errs[k] == e);
}

/// A flow between two placeholder origins that is not declared is reported.
pub proof fn law_undeclared_flows_are_reported(
    facts: PoloniusFacts,
    infos: Seq<LoanInfo>,
    events: Seq<(FrozenPlace, Point, bool, Span)>,
    live: Seq<(u32, u64)>,
    errs: Seq<BorrowError>,
    a: u32,
    b: u32,
    p: u64,
)
    requires
        errors::diagnostics(facts, infos, events, live) == Ok::<Seq<BorrowError>, PointOverflow>(
            errs,
        ),
        facts.subset(a, b, p),
        a != b,
        facts.universal_region@.contains(a),
        facts.universal_region@.contains(b),
        !facts.known(a, b),
    ensures
        exists|k: int|
            0 <= k < errs.len() && (#[trigger] errs[k]) == (BorrowError {
                place: FrozenPlace::Root(Symbol(REGION)),
                is_read: false,
                is_exclusive: false,
                is_drop: false,
                loan_kind: None,
                span1: None,
                span: Span { start: 0, end: 0 },
            }),
{
    let e = BorrowError {
        place: FrozenPlace::Root(Symbol(REGION)),
        is_read: false,
        is_exclusive: false,
        is_drop: false,
        loan_kind: None,
        span1: None,
        span: Span { start: 0, end: 0 },
    };
    assert(facts.subset_error(a, b, p));
    assert(errors::region_errors(facts)[0] == e);
    assert(errors::region_errors(facts).contains(e));
    lemma_found(facts, infos, events, live, e);
    let k = lemma_reported(facts, infos, events, live, errs, e);
    assert(errs[k] == e);
}

/// Nothing else is reported: each error is of a broken loan, a read, two loans
/// that meet, a loan that is lost, or an undeclared flow.
pub proof fn law_errors_have_causes(
    facts: PoloniusFacts,
    infos: Seq<LoanInfo>,
    events: Seq<(FrozenPlace, Point, bool, Span)>,
    live: Seq<(u32, u64)>,
    errs: Seq<BorrowError>,
    k: int,
)
    requires
        errors::diagnostics(facts, infos, events, live) == Ok::<Seq<BorrowError>, PointOverflow>(
            errs,
        ),
        facts.lists_live(live),
        0 <= k < errs.len(),
    ensures
        ({
            let e = errs[k];
            if e.is_read {
                &&& !e.is_exclusive && !e.is_drop && e.loan_kind == Some(LoanKind::Exclusive)
                &&& e.span1 is None
                &&& exists|j: int, i: int|
                    0 <= j < events.len() && #[trigger] is_peeked(
                        facts,
                        infos,
                        events[j],
                        extraction::accessed(events[j].0, events[j].1, infos)->Ok_0,
                        i,
                    ) && e.span == events[j].3 && e.place == extraction::accessed(
                        events[j].0,
                        events[j].1,
                        infos,
                    )->Ok_0.0
            } else if e.is_exclusive {
                &&& !e.is_drop && e.loan_kind is None
                &&& exists|i: int, j: int| #[trigger]
                    is_pair(facts, infos, i, j) && e.place == infos[j].place && e.span
                        == infos[j].span && e.span1 == Some(infos[i].span)
            } else if e.is_drop {
                &&& e.span1 is None
                &&& exists|l: u32, p: u64| #[trigger]
                    is_lost(facts, infos, l, p) && e.place == infos[l as int].place && e.span
                        == infos[l as int].span && e.loan_kind == Some(infos[l as int].kind)
            } else if e.loan_kind is Some {
                &&& e.span1 is None
                &&& exists|l: u32, p: u64| #[trigger]
                    is_broken(facts, infos, l, p) && e.place == infos[l as int].place && e.span
                        == infos[l as int].span && e.loan_kind == Some(infos[l as int].kind)
            } else {
                &&& e.place == FrozenPlace::Root(Symbol(REGION))
                &&& e.span1 is None
                &&& exists|a: u32, b: u32, p: u64| #[trigger] facts.subset_error(a, b, p)
            }
        }),
{
    let all = errors::access_errors(facts, infos, events)->Ok_0 + errors::drop_diagnostics(
        facts,
        infos,
        live,
    );
    let e = errs[k];
    lemma_distinct_within(all, all.len() as int, k);
    lemma_found(facts, infos, events, live, e);
    lemma_drops(facts, infos, live, e);
    lemma_pairs(facts, infos, e);
    lemma_writes(facts, infos, e);
    lemma_reads(facts, infos, events, e);
}

} // verus!
