//! What holds of the borrow rules.
use super::facts::PoloniusFacts;
use vstd::prelude::*;

verus! {

/// A loan that is never issued is live nowhere.
pub proof fn law_unissued_loan_is_dead(facts: PoloniusFacts, l: u32, p: u64)
    requires
        forall|i: int|
            0 <= i < facts.loan_issued_at@.len() ==> (#[trigger] facts.loan_issued_at@[i]).0 != l,
    ensures
        !facts.loan_live(l, p),
{
    let s = Set::new(|x: (u32, u32, u64)| x.0 != l);
    assert(facts.loans_closed(s));
    assert forall|o: u32| !#[trigger] facts.contains_loan(l, o, p) by {
        assert(!s.contains((l, o, p)));
    }
}

/// A loan that is ended at every point where it is issued, and wherever it
/// could go from there, is live at no other point.
pub proof fn law_ended_loan_stays(facts: PoloniusFacts, l: u32, ended: Set<u64>, p: u64)
    requires
        forall|i: int|
            0 <= i < facts.loan_issued_at@.len() && (#[trigger] facts.loan_issued_at@[i]).0 == l
                ==> ended.contains(facts.loan_issued_at@[i].2),
        forall|q: u64| #[trigger] ended.contains(q) ==> facts.loan_killed_at@.contains((l, q)),
        !ended.contains(p),
    ensures
        !facts.loan_live(l, p),
{
    let s = Set::new(|x: (u32, u32, u64)| x.0 == l ==> ended.contains(x.2));
    assert(facts.loans_closed(s));
    assert forall|o: u32| !#[trigger] facts.contains_loan(l, o, p) by {
        assert(!s.contains((l, o, p)));
    }
}

/// A loan that is not ended goes along the control flow as long as its
/// origin is live.
pub proof fn law_loans_follow_control_flow(facts: PoloniusFacts, l: u32, o: u32, i: int)
    requires
        0 <= i < facts.cfg_edge@.len(),
        facts.contains_loan(l, o, facts.cfg_edge@[i].0),
        !facts.loan_killed_at@.contains((l, facts.cfg_edge@[i].0)),
        facts.origin_live(o, facts.cfg_edge@[i].1),
    ensures
        facts.contains_loan(l, o, facts.cfg_edge@[i].1),
        facts.loan_live(l, facts.cfg_edge@[i].1),
{
    assert forall|s: Set<(u32, u32, u64)>| #[trigger] facts.loans_closed(s) implies s.contains(
        (l, o, facts.cfg_edge@[i].1),
    ) by {
        assert(s.contains((l, o, facts.cfg_edge@[i].0)));
    }
}

/// Where an input flows into an output that is live, the loans of the input
/// are live.
pub proof fn law_live_output_keeps_input(facts: PoloniusFacts, l: u32, a: u32, b: u32, p: u64)
    requires
        facts.loan_issued_at@.contains((l, a, p)),
        facts.subset_base@.contains((a, b, p)),
        facts.origin_live(b, p),
    ensures
        facts.loan_live(l, p),
{
    let i = choose|i: int|
        0 <= i < facts.loan_issued_at@.len() && facts.loan_issued_at@[i] == (l, a, p);
    let k = choose|k: int|
        0 <= k < facts.subset_base@.len() && facts.subset_base@[k] == (a, b, p);
    assert(facts.subset(a, b, p)) by {
        assert forall|s: Set<(u32, u32, u64)>| #[trigger] facts.subset_closed(s) implies s.contains(
            (a, b, p),
        ) by {
            assert(s.contains(facts.subset_base@[k]));
        }
    }
    assert(facts.contains_loan(l, b, p)) by {
        assert forall|s: Set<(u32, u32, u64)>| #[trigger] facts.loans_closed(s) implies s.contains(
            (l, b, p),
        ) by {
            assert(s.contains(facts.loan_issued_at@[i]));
        }
    }
}

/// The errors are the invalidations of live loans.
pub proof fn law_errors_are_live_invalidations(facts: PoloniusFacts, l: u32, p: u64)
    ensures
        facts.rule_errors().contains((l, p)) <==> facts.loan_invalidated_at@.contains((l, p))
            && facts.loan_live(l, p),
{
    let f = |x: (u32, u64)| facts.loan_live(x.0, x.1);
    let all = facts.loan_invalidated_at@;
    all.filter_lemma(f);
    if facts.rule_errors().contains((l, p)) {
        all.lemma_filter_contains_rev(f, (l, p));
    }
    if all.contains((l, p)) && facts.loan_live(l, p) {
        let k = choose|k: int| 0 <= k < all.len() && all[k] == (l, p);
        assert(all.filter(f).contains(all[k]));
    }
}

/// A declared flow between placeholder origins is no error.
pub proof fn law_declared_flow_is_accepted(facts: PoloniusFacts, k: int, p: u64)
    requires
        0 <= k < facts.known_placeholder_subset@.len(),
    ensures
        !facts.subset_error(
            facts.known_placeholder_subset@[k].0,
            facts.known_placeholder_subset@[k].1,
            p,
        ),
{
    let x = facts.known_placeholder_subset@[k];
    assert(facts.known(x.0, x.1)) by {
        assert forall|s: Set<(u32, u32)>| #[trigger] facts.known_closed(s) implies s.contains(
            (x.0, x.1),
        ) by {
            assert(s.contains(facts.known_placeholder_subset@[k]));
        }
    }
}

/// A placeholder origin is live at every point.
pub proof fn law_placeholders_are_live(facts: PoloniusFacts, o: u32, p: u64)
    requires
        facts.universal_region@.contains(o),
        facts.is_point(p),
    ensures
        facts.origin_live(o, p),
{
}

/// Without flows between origins, none of them is an error.
pub proof fn law_no_flow_no_error(facts: PoloniusFacts, a: u32, b: u32, p: u64)
    requires
        facts.subset_base@.len() == 0,
    ensures
        !facts.subset_error(a, b, p),
{
    let s = Set::<(u32, u32, u64)>::empty();
    assert(facts.subset_closed(s));
    assert(!s.contains((a, b, p)));
}

} // verus!
