//! The borrow rules, evaluated to their least solutions.
use vstd::prelude::*;
use crate::keyset;
use crate::keyset::{holds, KeySet};
use crate::polonius::facts::PoloniusFacts;

verus! {

/// Distinct elements of a finite set are at most as many as the set has.
proof fn lemma_bounded<T>(items: Seq<T>, u: Set<T>)
    requires
        items.no_duplicates(),
        u.finite(),
        forall|i: int| 0 <= i < items.len() ==> u.contains(#[trigger] items[i]),
    ensures
        items.len() <= u.len(),
{
    items.unique_seq_to_set();
    assert(items.to_set().subset_of(u));
    vstd::set_lib::lemma_len_subset(items.to_set(), u);
}

/// The values of a function on a sequence are finitely many, and hold each.
proof fn lemma_values<A, B>(s: Seq<A>, f: spec_fn(A) -> B)
    ensures
        s.map_values(f).to_set().finite(),
        forall|i: int| 0 <= i < s.len() ==> s.map_values(f).to_set().contains(f(#[trigger] s[i])),
{
    vstd::seq_lib::seq_to_set_is_finite(s.map_values(f));
    assert forall|i: int| 0 <= i < s.len() implies s.map_values(f).to_set().contains(
        f(#[trigger] s[i]),
    ) by {
        assert(s.map_values(f)[i] == f(s[i]));
    }
}

/// The variables that are live, with their points.
fn var_liveness(facts: &PoloniusFacts) -> (r: KeySet<(u32, u64)>)
    ensures
        r.wf(),
        forall|v: u32, p: u64| #[trigger] r@.contains((v, p)) <==> facts.var_live(v, p),
{
    let mut live: KeySet<(u32, u64)> = KeySet::new();
    let ghost vars = facts.var_used_at@.map_values(|x: (u32, u64)| x.0).to_set();
    let ghost points = facts.var_used_at@.map_values(|x: (u32, u64)| x.1).to_set().union(
        facts.cfg_edge@.map_values(|e: (u64, u64)| e.0).to_set(),
    );
    let ghost all = keyset::pairs(vars, points);
    proof {
        lemma_values(facts.var_used_at@, |x: (u32, u64)| x.0);
        lemma_values(facts.var_used_at@, |x: (u32, u64)| x.1);
        lemma_values(facts.cfg_edge@, |e: (u64, u64)| e.0);
        keyset::lemma_pairs_finite(vars, points);
    }
    let mut i: usize = 0;
    while i < facts.var_used_at.len()
        invariant
            live.wf(),
            0 <= i <= facts.var_used_at@.len(),
            all == keyset::pairs(vars, points),
            forall|k: int|
                0 <= k < facts.var_used_at@.len() ==> vars.contains(
                    (#[trigger] facts.var_used_at@[k]).0,
                ) && points.contains(facts.var_used_at@[k].1),
            forall|k: int| 0 <= k < i ==> live@.contains(#[trigger] facts.var_used_at@[k]),
            forall|k: int| 0 <= k < live.items@.len() ==> all.contains(#[trigger] live.items@[k]),
            forall|s: Set<(u32, u64)>, k: int|
                #![trigger facts.live_closed(s), live.items@[k]]
                facts.live_closed(s) && 0 <= k < live.items@.len() ==> s.contains(live.items@[k]),
        decreases facts.var_used_at.len() - i,
    {
        live.insert(facts.var_used_at[i]);
        i += 1;
    }
    let mut i: usize = 0;
    proof {
        lemma_bounded(live.items@, all);
    }
    while i < live.items.len()
        invariant
            live.wf(),
            0 <= i <= live.items@.len(),
            live.items@.len() <= all.len(),
            all.finite(),
            all == keyset::pairs(vars, points),
            forall|k: int|
                0 <= k < facts.cfg_edge@.len() ==> points.contains(
                    (#[trigger] facts.cfg_edge@[k]).0,
                ),
            forall|k: int|
                0 <= k < facts.var_used_at@.len() ==> live@.contains(
                    #[trigger] facts.var_used_at@[k],
                ),
            forall|k: int| 0 <= k < live.items@.len() ==> all.contains(#[trigger] live.items@[k]),
            forall|s: Set<(u32, u64)>, k: int|
                #![trigger facts.live_closed(s), live.items@[k]]
                facts.live_closed(s) && 0 <= k < live.items@.len() ==> s.contains(live.items@[k]),
            forall|j: int, k: int|
                #![trigger live.items@[j], facts.cfg_edge@[k]]
                0 <= j < i && 0 <= k < facts.cfg_edge@.len() && facts.cfg_edge@[k].1
                    == live.items@[j].1 ==> live@.contains(
                    (live.items@[j].0, facts.cfg_edge@[k].0),
                ),
        decreases all.len() - i,
    {
        let (v, p) = live.items[i];
        let mut k: usize = 0;
        while k < facts.cfg_edge.len()
            invariant
                live.wf(),
                0 <= i < live.items@.len(),
                live.items@[i as int] == (v, p),
                all.finite(),
                all == keyset::pairs(vars, points),
                0 <= k <= facts.cfg_edge@.len(),
                forall|q: int|
                    0 <= q < facts.cfg_edge@.len() ==> points.contains(
                        (#[trigger] facts.cfg_edge@[q]).0,
                    ),
                forall|q: int|
                    0 <= q < facts.var_used_at@.len() ==> live@.contains(
                        #[trigger] facts.var_used_at@[q],
                    ),
                forall|q: int|
                    0 <= q < live.items@.len() ==> all.contains(#[trigger] live.items@[q]),
                forall|s: Set<(u32, u64)>, q: int|
                    #![trigger facts.live_closed(s), live.items@[q]]
                    facts.live_closed(s) && 0 <= q < live.items@.len() ==> s.contains(
                        live.items@[q],
                    ),
                forall|j: int, q: int|
                    #![trigger live.items@[j], facts.cfg_edge@[q]]
                    0 <= j < i && 0 <= q < facts.cfg_edge@.len() && facts.cfg_edge@[q].1
                        == live.items@[j].1 ==> live@.contains(
                        (live.items@[j].0, facts.cfg_edge@[q].0),
                    ),
                forall|q: int|
                    0 <= q < k && (#[trigger] facts.cfg_edge@[q]).1 == p ==> live@.contains(
                        (v, facts.cfg_edge@[q].0),
                    ),
            decreases facts.cfg_edge.len() - k,
        {
            let (e1, e2) = facts.cfg_edge[k];
            if e2 == p {
                assert forall|s: Set<(u32, u64)>| #[trigger] facts.live_closed(s) implies s.contains(
                    (v, e1),
                ) by {
                    assert(s.contains(live.items@[i as int]));
                    assert(s.contains((v, facts.cfg_edge@[k as int].1)));
                }
                assert(vars.contains(v)) by {
                    assert(all.contains(live.items@[i as int]));
                }
                live.insert((v, e1));
            }
            k += 1;
        }
        i += 1;
        proof {
            lemma_bounded(live.items@, all);
        }
    }
    proof {
        let s = live@;
        assert(facts.live_closed(s)) by {
            assert forall|v: u32, k: int|
                #![trigger s.contains((v, facts.cfg_edge@[k].1))]
                0 <= k < facts.cfg_edge@.len() && s.contains(
                    (v, facts.cfg_edge@[k].1),
                ) implies s.contains((v, facts.cfg_edge@[k].0)) by {
                let j = choose|j: int|
                    0 <= j < live.items@.len() && live.items@[j] == (v, facts.cfg_edge@[k].1);
                assert(live.items@[j].1 == facts.cfg_edge@[k].1);
            }
        }
        assert forall|v: u32, p: u64| #[trigger] live@.contains((v, p)) implies facts.var_live(
            v,
            p,
        ) by {
            let j = choose|j: int| 0 <= j < live.items@.len() && live.items@[j] == (v, p);
            assert forall|t: Set<(u32, u64)>| #[trigger] facts.live_closed(t) implies t.contains(
                (v, p),
            ) by {
                assert(t.contains(live.items@[j]));
            }
        }
    }
    live
}

/// The points of the control flow graph.
fn all_points(facts: &PoloniusFacts) -> (r: KeySet<u64>)
    ensures
        r.wf(),
        forall|p: u64| #[trigger] r@.contains(p) <==> facts.is_point(p),
{
    let mut points: KeySet<u64> = KeySet::new();
    let mut i: usize = 0;
    while i < facts.cfg_edge.len()
        invariant
            points.wf(),
            0 <= i <= facts.cfg_edge@.len(),
            forall|p: u64| #[trigger] points@.contains(p) ==> facts.is_point(p),
            forall|k: int|
                0 <= k < i ==> points@.contains((#[trigger] facts.cfg_edge@[k]).0)
                    && points@.contains(facts.cfg_edge@[k].1),
        decreases facts.cfg_edge.len() - i,
    {
        let (a, b) = facts.cfg_edge[i];
        points.insert(a);
        points.insert(b);
        proof {
            assert(facts.cfg_edge@[i as int].0 == a && facts.cfg_edge@[i as int].1 == b);
            assert(facts.is_point(a) && facts.is_point(b));
        }
        i += 1;
    }
    points
}

/// The origins that are live, with their points.
pub fn origin_liveness(facts: &PoloniusFacts) -> (r: KeySet<(u32, u64)>)
    ensures
        r.wf(),
        forall|o: u32, p: u64| #[trigger] r@.contains((o, p)) <==> facts.origin_live(o, p),
{
    let vars = var_liveness(facts);
    let mut live: KeySet<(u32, u64)> = KeySet::new();
    let mut i: usize = 0;
    while i < vars.items.len()
        invariant
            live.wf(),
            vars.wf(),
            0 <= i <= vars.items@.len(),
            forall|v: u32, p: u64| #[trigger] vars@.contains((v, p)) <==> facts.var_live(v, p),
            forall|o: u32, p: u64| #[trigger] live@.contains((o, p)) ==> facts.origin_live(o, p),
            forall|j: int, k: int|
                #![trigger vars.items@[j], facts.use_of_var_derefs_origin@[k]]
                0 <= j < i && 0 <= k < facts.use_of_var_derefs_origin@.len()
                    && facts.use_of_var_derefs_origin@[k].0 == vars.items@[j].0 ==> live@.contains(
                    (facts.use_of_var_derefs_origin@[k].1, vars.items@[j].1),
                ),
        decreases vars.items.len() - i,
    {
        let (v, p) = vars.items[i];
        let mut k: usize = 0;
        while k < facts.use_of_var_derefs_origin.len()
            invariant
                live.wf(),
                vars.wf(),
                0 <= i < vars.items@.len(),
                vars.items@[i as int] == (v, p),
                0 <= k <= facts.use_of_var_derefs_origin@.len(),
                forall|v: u32, p: u64| #[trigger] vars@.contains((v, p)) <==> facts.var_live(v, p),
                forall|o: u32, p: u64| #[trigger]
                    live@.contains((o, p)) ==> facts.origin_live(o, p),
                forall|j: int, q: int|
                    #![trigger vars.items@[j], facts.use_of_var_derefs_origin@[q]]
                    0 <= j < i && 0 <= q < facts.use_of_var_derefs_origin@.len()
                        && facts.use_of_var_derefs_origin@[q].0 == vars.items@[j].0
                        ==> live@.contains(
                        (facts.use_of_var_derefs_origin@[q].1, vars.items@[j].1),
                    ),
                forall|q: int|
                    0 <= q < k && (#[trigger] facts.use_of_var_derefs_origin@[q]).0 == v
                        ==> live@.contains((facts.use_of_var_derefs_origin@[q].1, p)),
            decreases facts.use_of_var_derefs_origin.len() - k,
        {
            let (u, o) = facts.use_of_var_derefs_origin[k];
            if u == v {
                proof {
                    assert(vars@.contains(vars.items@[i as int]));
                    assert(facts.var_live(v, p));
                    assert(facts.use_of_var_derefs_origin@[k as int] == (v, o));
                    assert(facts.use_of_var_derefs_origin@.contains((v, o)));
                }
                live.insert((o, p));
            }
            k += 1;
        }
        i += 1;
    }
    let points = all_points(facts);
    let mut i: usize = 0;
    while i < facts.universal_region.len()
        invariant
            live.wf(),
            points.wf(),
            0 <= i <= facts.universal_region@.len(),
            forall|p: u64| #[trigger] points@.contains(p) <==> facts.is_point(p),
            forall|v: u32, p: u64| #[trigger] vars@.contains((v, p)) <==> facts.var_live(v, p),
            forall|o: u32, p: u64| #[trigger] live@.contains((o, p)) ==> facts.origin_live(o, p),
            forall|j: int, k: int|
                #![trigger vars.items@[j], facts.use_of_var_derefs_origin@[k]]
                0 <= j < vars.items@.len() && 0 <= k < facts.use_of_var_derefs_origin@.len()
                    && facts.use_of_var_derefs_origin@[k].0 == vars.items@[j].0 ==> live@.contains(
                    (facts.use_of_var_derefs_origin@[k].1, vars.items@[j].1),
                ),
            forall|j: int, p: u64|
                #![trigger facts.universal_region@[j], facts.is_point(p)]
                0 <= j < i && facts.is_point(p) ==> live@.contains((facts.universal_region@[j], p)),
        decreases facts.universal_region.len() - i,
    {
        let o: u32 = facts.universal_region[i];
        let mut k: usize = 0;
        while k < points.items.len()
            invariant
                live.wf(),
                points.wf(),
                0 <= i < facts.universal_region@.len(),
                o == facts.universal_region@[i as int],
                0 <= k <= points.items@.len(),
                forall|p: u64| #[trigger] points@.contains(p) <==> facts.is_point(p),
                forall|v: u32, p: u64| #[trigger] vars@.contains((v, p)) <==> facts.var_live(v, p),
                forall|o: u32, p: u64| #[trigger]
                    live@.contains((o, p)) ==> facts.origin_live(o, p),
                forall|j: int, q: int|
                    #![trigger vars.items@[j], facts.use_of_var_derefs_origin@[q]]
                    0 <= j < vars.items@.len() && 0 <= q < facts.use_of_var_derefs_origin@.len()
                        && facts.use_of_var_derefs_origin@[q].0 == vars.items@[j].0
                        ==> live@.contains(
                        (facts.use_of_var_derefs_origin@[q].1, vars.items@[j].1),
                    ),
                forall|j: int, p: u64|
                    #![trigger facts.universal_region@[j], facts.is_point(p)]
                    0 <= j < i && facts.is_point(p) ==> live@.contains(
                        (facts.universal_region@[j], p),
                    ),
                forall|q: int| 0 <= q < k ==> live@.contains((o, #[trigger] points.items@[q])),
            decreases points.items.len() - k,
        {
            let p: u64 = points.items[k];
            proof {
                assert(points@.contains(points.items@[k as int]));
                assert(facts.universal_region@.contains(o));
            }
            live.insert((o, p));
            k += 1;
        }
        proof {
            assert forall|p: u64| facts.is_point(p) implies #[trigger] live@.contains((o, p)) by {
                assert(points@.contains(p));
                let q = choose|q: int| 0 <= q < points.items@.len() && points.items@[q] == p;
                assert(live@.contains((o, points.items@[q])));
            }
        }
        i += 1;
    }
    proof {
        assert forall|o: u32, p: u64| facts.origin_live(o, p) implies #[trigger] live@.contains(
            (o, p),
        ) by {
            if facts.universal_region@.contains(o) && facts.is_point(p) {
                let j = choose|j: int|
                    0 <= j < facts.universal_region@.len() && facts.universal_region@[j] == o;
                assert(live@.contains((facts.universal_region@[j], p)));
            } else {
                let v = choose|v: u32| #[trigger]
                    facts.var_live(v, p) && facts.use_of_var_derefs_origin@.contains((v, o));
                assert(vars@.contains((v, p)));
                let j = choose|j: int| 0 <= j < vars.items@.len() && vars.items@[j] == (v, p);
                let k = choose|k: int|
                    0 <= k < facts.use_of_var_derefs_origin@.len()
                        && facts.use_of_var_derefs_origin@[k] == (v, o);
                assert(live@.contains(
                    (facts.use_of_var_derefs_origin@[k].1, vars.items@[j].1),
                ));
            }
        }
    }
    live
}


/// The flows between origins, with their points.
fn subset_closure(facts: &PoloniusFacts, origin_live: &KeySet<(u32, u64)>) -> (r: KeySet<
    (u32, u32, u64),
>)
    requires
        origin_live.wf(),
        forall|o: u32, p: u64| #[trigger]
            origin_live@.contains((o, p)) <==> facts.origin_live(o, p),
    ensures
        r.wf(),
        forall|a: u32, b: u32, p: u64| #[trigger] r@.contains((a, b, p)) <==> facts.subset(a, b, p),
{
    let mut sub: KeySet<(u32, u32, u64)> = KeySet::new();
    let ghost origins = facts.subset_base@.map_values(|x: (u32, u32, u64)| x.0).to_set().union(
        facts.subset_base@.map_values(|x: (u32, u32, u64)| x.1).to_set(),
    );
    let ghost points = facts.subset_base@.map_values(|x: (u32, u32, u64)| x.2).to_set().union(
        facts.cfg_edge@.map_values(|e: (u64, u64)| e.1).to_set(),
    );
    let ghost all = keyset::triples(origins, origins, points);
    proof {
        lemma_values(facts.subset_base@, |x: (u32, u32, u64)| x.0);
        lemma_values(facts.subset_base@, |x: (u32, u32, u64)| x.1);
        lemma_values(facts.subset_base@, |x: (u32, u32, u64)| x.2);
        lemma_values(facts.cfg_edge@, |e: (u64, u64)| e.1);
        keyset::lemma_triples_finite(origins, origins, points);
    }
    let mut i: usize = 0;
    while i < facts.subset_base.len()
        invariant
            sub.wf(),
            0 <= i <= facts.subset_base@.len(),
            all == keyset::triples(origins, origins, points),
            forall|k: int|
                0 <= k < facts.subset_base@.len() ==> origins.contains(
                    (#[trigger] facts.subset_base@[k]).0,
                ) && origins.contains(facts.subset_base@[k].1) && points.contains(
                    facts.subset_base@[k].2,
                ),
            forall|k: int| 0 <= k < i ==> sub@.contains(#[trigger] facts.subset_base@[k]),
            forall|k: int| 0 <= k < sub.items@.len() ==> all.contains(#[trigger] sub.items@[k]),
            forall|s: Set<(u32, u32, u64)>, k: int|
                #![trigger facts.subset_closed(s), sub.items@[k]]
                facts.subset_closed(s) && 0 <= k < sub.items@.len() ==> s.contains(sub.items@[k]),
        decreases facts.subset_base.len() - i,
    {
        sub.insert(facts.subset_base[i]);
        i += 1;
    }
    let mut i: usize = 0;
    proof {
        lemma_bounded(sub.items@, all);
    }
    while i < sub.items.len()
        invariant
            sub.wf(),
            origin_live.wf(),
            forall|o: u32, p: u64| #[trigger]
                origin_live@.contains((o, p)) <==> facts.origin_live(o, p),
            0 <= i <= sub.items@.len(),
            sub.items@.len() <= all.len(),
            all.finite(),
            all == keyset::triples(origins, origins, points),
            forall|k: int|
                0 <= k < facts.cfg_edge@.len() ==> points.contains(
                    (#[trigger] facts.cfg_edge@[k]).1,
                ),
            forall|k: int|
                0 <= k < facts.subset_base@.len() ==> sub@.contains(
                    #[trigger] facts.subset_base@[k],
                ),
            forall|k: int| 0 <= k < sub.items@.len() ==> all.contains(#[trigger] sub.items@[k]),
            forall|s: Set<(u32, u32, u64)>, k: int|
                #![trigger facts.subset_closed(s), sub.items@[k]]
                facts.subset_closed(s) && 0 <= k < sub.items@.len() ==> s.contains(sub.items@[k]),
            forall|j: int, k: int|
                #![trigger sub.items@[j], facts.cfg_edge@[k]]
                0 <= j < i && 0 <= k < facts.cfg_edge@.len() && facts.cfg_edge@[k].0
                    == sub.items@[j].2 && facts.origin_live(sub.items@[j].0, facts.cfg_edge@[k].1)
                    && facts.origin_live(sub.items@[j].1, facts.cfg_edge@[k].1) ==> sub@.contains(
                    (sub.items@[j].0, sub.items@[j].1, facts.cfg_edge@[k].1),
                ),
            forall|j: int, k: int|
                #![trigger sub.items@[j], sub.items@[k]]
                0 <= j < i && 0 <= k < i && sub.items@[j].1 == sub.items@[k].0 && sub.items@[j].2
                    == sub.items@[k].2 && sub.items@[j].0 != sub.items@[k].1 ==> sub@.contains(
                    (sub.items@[j].0, sub.items@[k].1, sub.items@[j].2),
                ),
        decreases all.len() - i,
    {
        extend_flow(facts, origin_live, &mut sub, i, Ghost(origins), Ghost(points));
        compose_flow(facts, &mut sub, i, Ghost(origins), Ghost(points));
        i += 1;
        proof {
            lemma_bounded(sub.items@, all);
        }
    }
    proof {
        let s = sub@;
        assert(facts.subset_closed(s)) by {
            assert forall|a: u32, b: u32, c: u32, p: u64|
                #![trigger s.contains((a, b, p)), s.contains((b, c, p))]
                s.contains((a, b, p)) && s.contains((b, c, p)) && a != c implies s.contains(
                (a, c, p),
            ) by {
                let j = choose|j: int| 0 <= j < sub.items@.len() && sub.items@[j] == (a, b, p);
                let k = choose|k: int| 0 <= k < sub.items@.len() && sub.items@[k] == (b, c, p);
                assert(sub.items@[j].1 == sub.items@[k].0);
            }
            assert forall|a: u32, b: u32, k: int|
                #![trigger s.contains((a, b, facts.cfg_edge@[k].0))]
                0 <= k < facts.cfg_edge@.len() && s.contains((a, b, facts.cfg_edge@[k].0))
                    && facts.origin_live(a, facts.cfg_edge@[k].1) && facts.origin_live(
                    b,
                    facts.cfg_edge@[k].1,
                ) implies s.contains((a, b, facts.cfg_edge@[k].1)) by {
                let j = choose|j: int|
                    0 <= j < sub.items@.len() && sub.items@[j] == (a, b, facts.cfg_edge@[k].0);
                assert(sub.items@[j].2 == facts.cfg_edge@[k].0);
            }
        }
        assert forall|a: u32, b: u32, p: u64| #[trigger] sub@.contains((a, b, p)) implies facts.subset(
            a,
            b,
            p,
        ) by {
            let j = choose|j: int| 0 <= j < sub.items@.len() && sub.items@[j] == (a, b, p);
            assert forall|t: Set<(u32, u32, u64)>| #[trigger]
                facts.subset_closed(t) implies t.contains((a, b, p)) by {
                assert(t.contains(sub.items@[j]));
            }
        }
    }
    sub
}

/// Adds what control flow makes of the flow number `i`.
fn extend_flow(
    facts: &PoloniusFacts,
    origin_live: &KeySet<(u32, u64)>,
    sub: &mut KeySet<(u32, u32, u64)>,
    i: usize,
    Ghost(origins): Ghost<Set<u32>>,
    Ghost(points): Ghost<Set<u64>>,
)
    requires
        old(sub).wf(),
        i < old(sub).items@.len(),
        forall|o: u32, p: u64| #[trigger]
            origin_live@.contains((o, p)) <==> facts.origin_live(o, p),
        forall|k: int|
            0 <= k < facts.cfg_edge@.len() ==> points.contains((#[trigger] facts.cfg_edge@[k]).1),
        forall|k: int|
            0 <= k < old(sub).items@.len() ==> keyset::triples(origins, origins, points).contains(
                #[trigger] old(sub).items@[k],
            ),
        forall|s: Set<(u32, u32, u64)>, k: int|
            #![trigger facts.subset_closed(s), old(sub).items@[k]]
            facts.subset_closed(s) && 0 <= k < old(sub).items@.len() ==> s.contains(
                old(sub).items@[k],
            ),
    ensures
        final(sub).wf(),
        old(sub).items@.len() <= final(sub).items@.len(),
        forall|k: int|
            0 <= k < old(sub).items@.len() ==> #[trigger] final(sub).items@[k] == old(
                sub,
            ).items@[k],
        old(sub)@.subset_of(final(sub)@),
        forall|k: int|
            0 <= k < final(sub).items@.len() ==> keyset::triples(origins, origins, points).contains(
                #[trigger] final(sub).items@[k],
            ),
        forall|s: Set<(u32, u32, u64)>, k: int|
            #![trigger facts.subset_closed(s), final(sub).items@[k]]
            facts.subset_closed(s) && 0 <= k < final(sub).items@.len() ==> s.contains(
                final(sub).items@[k],
            ),
        forall|k: int|
            #![trigger facts.cfg_edge@[k]]
            0 <= k < facts.cfg_edge@.len() && facts.cfg_edge@[k].0 == old(sub).items@[i as int].2
                && facts.origin_live(old(sub).items@[i as int].0, facts.cfg_edge@[k].1)
                && facts.origin_live(old(sub).items@[i as int].1, facts.cfg_edge@[k].1)
                ==> final(sub)@.contains(
                (
                    old(sub).items@[i as int].0,
                    old(sub).items@[i as int].1,
                    facts.cfg_edge@[k].1,
                ),
            ),
{
    let (a, b, p) = sub.items[i];
    let ghost all = keyset::triples(origins, origins, points);
    let mut k: usize = 0;
    while k < facts.cfg_edge.len()
        invariant
            sub.wf(),
            i < old(sub).items@.len(),
            old(sub).items@[i as int] == (a, b, p),
            all == keyset::triples(origins, origins, points),
            0 <= k <= facts.cfg_edge@.len(),
            forall|o: u32, p: u64| #[trigger]
                origin_live@.contains((o, p)) <==> facts.origin_live(o, p),
            forall|q: int|
                0 <= q < facts.cfg_edge@.len() ==> points.contains(
                    (#[trigger] facts.cfg_edge@[q]).1,
                ),
            old(sub).items@.len() <= sub.items@.len(),
            forall|q: int|
                0 <= q < old(sub).items@.len() ==> #[trigger] sub.items@[q] == old(sub).items@[q],
            old(sub)@.subset_of(sub@),
            forall|q: int| 0 <= q < sub.items@.len() ==> all.contains(#[trigger] sub.items@[q]),
            forall|s: Set<(u32, u32, u64)>, q: int|
                #![trigger facts.subset_closed(s), sub.items@[q]]
                facts.subset_closed(s) && 0 <= q < sub.items@.len() ==> s.contains(sub.items@[q]),
            forall|q: int|
                #![trigger facts.cfg_edge@[q]]
                0 <= q < k && facts.cfg_edge@[q].0 == p && facts.origin_live(
                    a,
                    facts.cfg_edge@[q].1,
                ) && facts.origin_live(b, facts.cfg_edge@[q].1) ==> sub@.contains(
                    (a, b, facts.cfg_edge@[q].1),
                ),
        decreases facts.cfg_edge.len() - k,
    {
        let (e1, e2) = facts.cfg_edge[k];
        if e1 == p && origin_live.contains(&(a, e2)) && origin_live.contains(&(b, e2)) {
            assert forall|s: Set<(u32, u32, u64)>| #[trigger]
                facts.subset_closed(s) implies s.contains((a, b, e2)) by {
                assert(s.contains(sub.items@[i as int]));
                assert(s.contains((a, b, facts.cfg_edge@[k as int].0)));
            }
            assert(all.contains((a, b, e2))) by {
                assert(all.contains(sub.items@[i as int]));
            }
            sub.insert((a, b, e2));
        }
        k += 1;
    }
}

/// Adds the compositions of the flow number `i` with those up to it.
fn compose_flow(
    facts: &PoloniusFacts,
    sub: &mut KeySet<(u32, u32, u64)>,
    i: usize,
    Ghost(origins): Ghost<Set<u32>>,
    Ghost(points): Ghost<Set<u64>>,
)
    requires
        old(sub).wf(),
        i < old(sub).items@.len(),
        forall|k: int|
            0 <= k < old(sub).items@.len() ==> keyset::triples(origins, origins, points).contains(
                #[trigger] old(sub).items@[k],
            ),
        forall|s: Set<(u32, u32, u64)>, k: int|
            #![trigger facts.subset_closed(s), old(sub).items@[k]]
            facts.subset_closed(s) && 0 <= k < old(sub).items@.len() ==> s.contains(
                old(sub).items@[k],
            ),
    ensures
        final(sub).wf(),
        old(sub).items@.len() <= final(sub).items@.len(),
        forall|k: int|
            0 <= k < old(sub).items@.len() ==> #[trigger] final(sub).items@[k] == old(
                sub,
            ).items@[k],
        old(sub)@.subset_of(final(sub)@),
        forall|k: int|
            0 <= k < final(sub).items@.len() ==> keyset::triples(origins, origins, points).contains(
                #[trigger] final(sub).items@[k],
            ),
        forall|s: Set<(u32, u32, u64)>, k: int|
            #![trigger facts.subset_closed(s), final(sub).items@[k]]
            facts.subset_closed(s) && 0 <= k < final(sub).items@.len() ==> s.contains(
                final(sub).items@[k],
            ),
        forall|k: int|
            #![trigger old(sub).items@[k]]
            0 <= k <= i ==> composed(final(sub)@, old(sub).items@[i as int], old(sub).items@[k])
                && composed(final(sub)@, old(sub).items@[k], old(sub).items@[i as int]),
{
    let (a, b, p) = sub.items[i];
    let ghost all = keyset::triples(origins, origins, points);
    let mut k: usize = 0;
    assert(i < sub.items.len());
    while k <= i
        invariant
            sub.wf(),
            i < usize::MAX,
            i < old(sub).items@.len(),
            old(sub).items@[i as int] == (a, b, p),
            all == keyset::triples(origins, origins, points),
            0 <= k <= i + 1,
            old(sub).items@.len() <= sub.items@.len(),
            forall|q: int|
                0 <= q < old(sub).items@.len() ==> #[trigger] sub.items@[q] == old(sub).items@[q],
            old(sub)@.subset_of(sub@),
            forall|q: int| 0 <= q < sub.items@.len() ==> all.contains(#[trigger] sub.items@[q]),
            forall|s: Set<(u32, u32, u64)>, q: int|
                #![trigger facts.subset_closed(s), sub.items@[q]]
                facts.subset_closed(s) && 0 <= q < sub.items@.len() ==> s.contains(sub.items@[q]),
            forall|q: int|
                #![trigger old(sub).items@[q]]
                0 <= q < k ==> composed(sub@, (a, b, p), old(sub).items@[q]) && composed(
                    sub@,
                    old(sub).items@[q],
                    (a, b, p),
                ),
        decreases i + 1 - k,
    {
        let (c, d, q) = sub.items[k];
        assert(old(sub).items@[k as int] == (c, d, q));
        if q == p && b == c && a != d {
            assert forall|s: Set<(u32, u32, u64)>| #[trigger]
                facts.subset_closed(s) implies s.contains((a, d, p)) by {
                assert(s.contains(sub.items@[i as int]));
                assert(s.contains(sub.items@[k as int]));
            }
            assert(all.contains((a, d, p))) by {
                assert(all.contains(sub.items@[i as int]));
                assert(all.contains(sub.items@[k as int]));
            }
            sub.insert((a, d, p));
        }
        if q == p && d == a && c != b {
            assert forall|s: Set<(u32, u32, u64)>| #[trigger]
                facts.subset_closed(s) implies s.contains((c, b, p)) by {
                assert(s.contains(sub.items@[i as int]));
                assert(s.contains(sub.items@[k as int]));
            }
            assert(all.contains((c, b, p))) by {
                assert(all.contains(sub.items@[i as int]));
                assert(all.contains(sub.items@[k as int]));
            }
            sub.insert((c, b, p));
        }
        k += 1;
    }
}

/// The set holds what follows from one flow and then the other.
spec fn composed(s: Set<(u32, u32, u64)>, x: (u32, u32, u64), y: (u32, u32, u64)) -> bool {
    x.1 == y.0 && x.2 == y.2 && x.0 != y.1 ==> s.contains((x.0, y.1, x.2))
}


/// The point is in the set, or there is no restriction.
spec fn within(w: Option<KeySet<u64>>, p: u64) -> bool {
    w matches Some(s) ==> s@.contains(p)
}

/// With a point of the restriction, the points before it are in it too.
spec fn reaches_back(facts: PoloniusFacts, w: Option<KeySet<u64>>) -> bool {
    forall|k: int|
        0 <= k < facts.cfg_edge@.len() && within(w, (#[trigger] facts.cfg_edge@[k]).1) ==> within(
            w,
            facts.cfg_edge@[k].0,
        )
}

/// Whether the point is in the restriction.
fn is_within(w: &Option<KeySet<u64>>, p: u64) -> (r: bool)
    ensures
        r == within(*w, p),
{
    match w {
        Some(s) => s.contains(&p),
        None => true,
    }
}

/// The loans that origins contain, with their points, at the points of a
/// restriction that reaches back.
fn loan_closure(
    facts: &PoloniusFacts,
    origin_live: &KeySet<(u32, u64)>,
    subset: &KeySet<(u32, u32, u64)>,
    w: &Option<KeySet<u64>>,
) -> (r: KeySet<(u32, u32, u64)>)
    requires
        forall|o: u32, p: u64| #[trigger]
            origin_live@.contains((o, p)) <==> facts.origin_live(o, p),
        forall|a: u32, b: u32, p: u64| #[trigger]
            subset@.contains((a, b, p)) <==> facts.subset(a, b, p),
        reaches_back(*facts, *w),
    ensures
        r.wf(),
        forall|l: u32, o: u32, p: u64| #[trigger]
            r@.contains((l, o, p)) ==> facts.contains_loan(l, o, p),
        forall|l: u32, o: u32, p: u64|
            facts.contains_loan(l, o, p) && within(*w, p) ==> #[trigger] r@.contains((l, o, p)),
{
    let mut con: KeySet<(u32, u32, u64)> = KeySet::new();
    let ghost loans = facts.loan_issued_at@.map_values(|x: (u32, u32, u64)| x.0).to_set();
    let ghost origins = facts.loan_issued_at@.map_values(|x: (u32, u32, u64)| x.1).to_set().union(
        subset.items@.map_values(|x: (u32, u32, u64)| x.1).to_set(),
    );
    let ghost points = facts.loan_issued_at@.map_values(|x: (u32, u32, u64)| x.2).to_set().union(
        facts.cfg_edge@.map_values(|e: (u64, u64)| e.1).to_set(),
    );
    let ghost all = keyset::triples(loans, origins, points);
    proof {
        lemma_values(facts.loan_issued_at@, |x: (u32, u32, u64)| x.0);
        lemma_values(facts.loan_issued_at@, |x: (u32, u32, u64)| x.1);
        lemma_values(subset.items@, |x: (u32, u32, u64)| x.1);
        lemma_values(facts.loan_issued_at@, |x: (u32, u32, u64)| x.2);
        lemma_values(facts.cfg_edge@, |e: (u64, u64)| e.1);
        keyset::lemma_triples_finite(loans, origins, points);
    }
    let mut i: usize = 0;
    while i < facts.loan_issued_at.len()
        invariant
            con.wf(),
            0 <= i <= facts.loan_issued_at@.len(),
            all == keyset::triples(loans, origins, points),
            forall|k: int|
                0 <= k < facts.loan_issued_at@.len() ==> loans.contains(
                    (#[trigger] facts.loan_issued_at@[k]).0,
                ) && origins.contains(facts.loan_issued_at@[k].1) && points.contains(
                    facts.loan_issued_at@[k].2,
                ),
            forall|k: int|
                0 <= k < i && within(*w, (#[trigger] facts.loan_issued_at@[k]).2) ==> con@.contains(
                    facts.loan_issued_at@[k],
                ),
            forall|k: int| 0 <= k < con.items@.len() ==> all.contains(#[trigger] con.items@[k]),
            forall|s: Set<(u32, u32, u64)>, k: int|
                #![trigger facts.loans_closed(s), con.items@[k]]
                facts.loans_closed(s) && 0 <= k < con.items@.len() ==> s.contains(con.items@[k]),
        decreases facts.loan_issued_at.len() - i,
    {
        let x = facts.loan_issued_at[i];
        if is_within(w, x.2) {
            con.insert(x);
        }
        i += 1;
    }
    let mut i: usize = 0;
    proof {
        lemma_bounded(con.items@, all);
    }
    while i < con.items.len()
        invariant
            con.wf(),
            forall|o: u32, p: u64| #[trigger]
                origin_live@.contains((o, p)) <==> facts.origin_live(o, p),
            forall|a: u32, b: u32, p: u64| #[trigger]
                subset@.contains((a, b, p)) <==> facts.subset(a, b, p),
            0 <= i <= con.items@.len(),
            con.items@.len() <= all.len(),
            all.finite(),
            all == keyset::triples(loans, origins, points),
            forall|k: int|
                0 <= k < facts.cfg_edge@.len() ==> points.contains(
                    (#[trigger] facts.cfg_edge@[k]).1,
                ),
            forall|k: int|
                0 <= k < subset.items@.len() ==> origins.contains((#[trigger] subset.items@[k]).1),
            forall|k: int|
                0 <= k < facts.loan_issued_at@.len() && within(
                    *w,
                    (#[trigger] facts.loan_issued_at@[k]).2,
                ) ==> con@.contains(facts.loan_issued_at@[k]),
            forall|k: int| 0 <= k < con.items@.len() ==> all.contains(#[trigger] con.items@[k]),
            forall|s: Set<(u32, u32, u64)>, k: int|
                #![trigger facts.loans_closed(s), con.items@[k]]
                facts.loans_closed(s) && 0 <= k < con.items@.len() ==> s.contains(con.items@[k]),
            forall|j: int, k: int|
                #![trigger con.items@[j], facts.cfg_edge@[k]]
                0 <= j < i && 0 <= k < facts.cfg_edge@.len() && facts.cfg_edge@[k].0
                    == con.items@[j].2 && !facts.loan_killed_at@.contains(
                    (con.items@[j].0, facts.cfg_edge@[k].0),
                ) && facts.origin_live(con.items@[j].1, facts.cfg_edge@[k].1) && within(
                    *w,
                    facts.cfg_edge@[k].1,
                ) ==> con@.contains((con.items@[j].0, con.items@[j].1, facts.cfg_edge@[k].1)),
            forall|j: int, k: int|
                #![trigger con.items@[j], subset.items@[k]]
                0 <= j < i && 0 <= k < subset.items@.len() && subset.items@[k].0 == con.items@[j].1
                    && subset.items@[k].2 == con.items@[j].2 ==> con@.contains(
                    (con.items@[j].0, subset.items@[k].1, con.items@[j].2),
                ),
        decreases all.len() - i,
    {
        let (l, o, p) = con.items[i];
        let mut k: usize = 0;
        while k < facts.cfg_edge.len()
            invariant
                con.wf(),
                i < con.items@.len(),
                con.items@[i as int] == (l, o, p),
                all == keyset::triples(loans, origins, points),
                0 <= k <= facts.cfg_edge@.len(),
                forall|o: u32, p: u64| #[trigger]
                    origin_live@.contains((o, p)) <==> facts.origin_live(o, p),
                forall|q: int|
                    0 <= q < facts.cfg_edge@.len() ==> points.contains(
                        (#[trigger] facts.cfg_edge@[q]).1,
                    ),
                forall|q: int|
                    0 <= q < facts.loan_issued_at@.len() && within(
                        *w,
                        (#[trigger] facts.loan_issued_at@[q]).2,
                    ) ==> con@.contains(facts.loan_issued_at@[q]),
                forall|q: int| 0 <= q < con.items@.len() ==> all.contains(#[trigger] con.items@[q]),
                forall|s: Set<(u32, u32, u64)>, q: int|
                    #![trigger facts.loans_closed(s), con.items@[q]]
                    facts.loans_closed(s) && 0 <= q < con.items@.len() ==> s.contains(
                        con.items@[q],
                    ),
                forall|j: int, q: int|
                    #![trigger con.items@[j], facts.cfg_edge@[q]]
                    0 <= j < i && 0 <= q < facts.cfg_edge@.len() && facts.cfg_edge@[q].0
                        == con.items@[j].2 && !facts.loan_killed_at@.contains(
                        (con.items@[j].0, facts.cfg_edge@[q].0),
                    ) && facts.origin_live(con.items@[j].1, facts.cfg_edge@[q].1) && within(
                        *w,
                        facts.cfg_edge@[q].1,
                    ) ==> con@.contains((con.items@[j].0, con.items@[j].1, facts.cfg_edge@[q].1)),
                forall|j: int, q: int|
                    #![trigger con.items@[j], subset.items@[q]]
                    0 <= j < i && 0 <= q < subset.items@.len() && subset.items@[q].0
                        == con.items@[j].1 && subset.items@[q].2 == con.items@[j].2
                        ==> con@.contains((con.items@[j].0, subset.items@[q].1, con.items@[j].2)),
                forall|q: int|
                    #![trigger facts.cfg_edge@[q]]
                    0 <= q < k && facts.cfg_edge@[q].0 == p && !facts.loan_killed_at@.contains(
                        (l, facts.cfg_edge@[q].0),
                    ) && facts.origin_live(o, facts.cfg_edge@[q].1) && within(
                        *w,
                        facts.cfg_edge@[q].1,
                    ) ==> con@.contains((l, o, facts.cfg_edge@[q].1)),
            decreases facts.cfg_edge.len() - k,
        {
            let (e1, e2) = facts.cfg_edge[k];
            if e1 == p && !holds(&facts.loan_killed_at, &(l, p)) && origin_live.contains(&(o, e2))
                && is_within(w, e2) {
                assert forall|s: Set<(u32, u32, u64)>| #[trigger]
                    facts.loans_closed(s) implies s.contains((l, o, e2)) by {
                    assert(s.contains(con.items@[i as int]));
                    assert(s.contains((l, o, facts.cfg_edge@[k as int].0)));
                }
                assert(all.contains((l, o, e2))) by {
                    assert(all.contains(con.items@[i as int]));
                }
                con.insert((l, o, e2));
            }
            k += 1;
        }
        let mut k: usize = 0;
        while k < subset.items.len()
            invariant
                con.wf(),
                i < con.items@.len(),
                con.items@[i as int] == (l, o, p),
                all == keyset::triples(loans, origins, points),
                0 <= k <= subset.items@.len(),
                forall|a: u32, b: u32, p: u64| #[trigger]
                    subset@.contains((a, b, p)) <==> facts.subset(a, b, p),
                forall|q: int|
                    0 <= q < subset.items@.len() ==> origins.contains(
                        (#[trigger] subset.items@[q]).1,
                    ),
                forall|q: int|
                    0 <= q < facts.loan_issued_at@.len() && within(
                        *w,
                        (#[trigger] facts.loan_issued_at@[q]).2,
                    ) ==> con@.contains(facts.loan_issued_at@[q]),
                forall|q: int| 0 <= q < con.items@.len() ==> all.contains(#[trigger] con.items@[q]),
                forall|s: Set<(u32, u32, u64)>, q: int|
                    #![trigger facts.loans_closed(s), con.items@[q]]
                    facts.loans_closed(s) && 0 <= q < con.items@.len() ==> s.contains(
                        con.items@[q],
                    ),
                forall|j: int, q: int|
                    #![trigger con.items@[j], facts.cfg_edge@[q]]
                    0 <= j <= i && 0 <= q < facts.cfg_edge@.len() && facts.cfg_edge@[q].0
                        == con.items@[j].2 && !facts.loan_killed_at@.contains(
                        (con.items@[j].0, facts.cfg_edge@[q].0),
                    ) && facts.origin_live(con.items@[j].1, facts.cfg_edge@[q].1) && within(
                        *w,
                        facts.cfg_edge@[q].1,
                    ) ==> con@.contains((con.items@[j].0, con.items@[j].1, facts.cfg_edge@[q].1)),
                forall|j: int, q: int|
                    #![trigger con.items@[j], subset.items@[q]]
                    0 <= j < i && 0 <= q < subset.items@.len() && subset.items@[q].0
                        == con.items@[j].1 && subset.items@[q].2 == con.items@[j].2
                        ==> con@.contains((con.items@[j].0, subset.items@[q].1, con.items@[j].2)),
                forall|q: int|
                    #![trigger subset.items@[q]]
                    0 <= q < k && subset.items@[q].0 == o && subset.items@[q].2 == p
                        ==> con@.contains((l, subset.items@[q].1, p)),
            decreases subset.items.len() - k,
        {
            let (a, b, q) = subset.items[k];
            if a == o && q == p {
                assert(facts.subset(o, b, p)) by {
                    assert(subset@.contains(subset.items@[k as int]));
                }
                assert forall|s: Set<(u32, u32, u64)>| #[trigger]
                    facts.loans_closed(s) implies s.contains((l, b, p)) by {
                    assert(s.contains(con.items@[i as int]));
                }
                assert(all.contains((l, b, p))) by {
                    assert(all.contains(con.items@[i as int]));
                    assert(origins.contains(subset.items@[k as int].1));
                }
                con.insert((l, b, p));
            }
            k += 1;
        }
        i += 1;
        proof {
            lemma_bounded(con.items@, all);
        }
    }
    proof {
        assert forall|l: u32, o: u32, p: u64| #[trigger]
            con@.contains((l, o, p)) implies facts.contains_loan(l, o, p) by {
            let j = choose|j: int| 0 <= j < con.items@.len() && con.items@[j] == (l, o, p);
            assert forall|t: Set<(u32, u32, u64)>| #[trigger]
                facts.loans_closed(t) implies t.contains((l, o, p)) by {
                assert(t.contains(con.items@[j]));
            }
        }
        lemma_restricted(*facts, *subset, *w, con);
    }
    con
}

/// What is closed at the points of a restriction that reaches back holds all
/// that the rules give there: with everything elsewhere it is closed.
proof fn lemma_restricted(
    facts: PoloniusFacts,
    subset: KeySet<(u32, u32, u64)>,
    w: Option<KeySet<u64>>,
    con: KeySet<(u32, u32, u64)>,
)
    requires
        forall|a: u32, b: u32, p: u64| #[trigger]
            subset@.contains((a, b, p)) <==> facts.subset(a, b, p),
        reaches_back(facts, w),
        forall|k: int|
            0 <= k < facts.loan_issued_at@.len() && within(
                w,
                (#[trigger] facts.loan_issued_at@[k]).2,
            ) ==> con@.contains(facts.loan_issued_at@[k]),
        forall|j: int, k: int|
            #![trigger con.items@[j], facts.cfg_edge@[k]]
            0 <= j < con.items@.len() && 0 <= k < facts.cfg_edge@.len() && facts.cfg_edge@[k].0
                == con.items@[j].2 && !facts.loan_killed_at@.contains(
                (con.items@[j].0, facts.cfg_edge@[k].0),
            ) && facts.origin_live(con.items@[j].1, facts.cfg_edge@[k].1) && within(
                w,
                facts.cfg_edge@[k].1,
            ) ==> con@.contains((con.items@[j].0, con.items@[j].1, facts.cfg_edge@[k].1)),
        forall|j: int, k: int|
            #![trigger con.items@[j], subset.items@[k]]
            0 <= j < con.items@.len() && 0 <= k < subset.items@.len() && subset.items@[k].0
                == con.items@[j].1 && subset.items@[k].2 == con.items@[j].2 ==> con@.contains(
                (con.items@[j].0, subset.items@[k].1, con.items@[j].2),
            ),
    ensures
        forall|l: u32, o: u32, p: u64|
            facts.contains_loan(l, o, p) && within(w, p) ==> #[trigger] con@.contains((l, o, p)),
{
    let s = Set::new(|x: (u32, u32, u64)| con@.contains(x) || !within(w, x.2));
    assert(facts.loans_closed(s)) by {
        assert forall|l: u32, o: u32, k: int|
            #![trigger s.contains((l, o, facts.cfg_edge@[k].0))]
            0 <= k < facts.cfg_edge@.len() && s.contains((l, o, facts.cfg_edge@[k].0))
                && !facts.loan_killed_at@.contains((l, facts.cfg_edge@[k].0)) && facts.origin_live(
                o,
                facts.cfg_edge@[k].1,
            ) implies s.contains((l, o, facts.cfg_edge@[k].1)) by {
            if within(w, facts.cfg_edge@[k].1) {
                assert(within(w, facts.cfg_edge@[k].0));
                let j = choose|j: int|
                    0 <= j < con.items@.len() && con.items@[j] == (l, o, facts.cfg_edge@[k].0);
                assert(con.items@[j].2 == facts.cfg_edge@[k].0);
            }
        }
        assert forall|l: u32, o: u32, q: u32, p: u64|
            #![trigger s.contains((l, o, p)), facts.subset(o, q, p)]
            s.contains((l, o, p)) && facts.subset(o, q, p) implies s.contains((l, q, p)) by {
            if within(w, p) {
                let j = choose|j: int| 0 <= j < con.items@.len() && con.items@[j] == (l, o, p);
                assert(subset@.contains((o, q, p)));
                let k = choose|k: int|
                    0 <= k < subset.items@.len() && subset.items@[k] == (o, q, p);
                assert(subset.items@[k].0 == con.items@[j].1);
            }
        }
    }
    assert forall|l: u32, o: u32, p: u64|
        facts.contains_loan(l, o, p) && within(w, p) implies #[trigger] con@.contains(
        (l, o, p),
    ) by {
        assert(s.contains((l, o, p)));
    }
}

/// The loans that are live, with their points, among those that a closure
/// holds.
fn live_loans(
    facts: &PoloniusFacts,
    origin_live: &KeySet<(u32, u64)>,
    con: &KeySet<(u32, u32, u64)>,
    w: &Option<KeySet<u64>>,
) -> (r: KeySet<(u32, u64)>)
    requires
        forall|o: u32, p: u64| #[trigger]
            origin_live@.contains((o, p)) <==> facts.origin_live(o, p),
        forall|l: u32, o: u32, p: u64| #[trigger]
            con@.contains((l, o, p)) ==> facts.contains_loan(l, o, p),
        forall|l: u32, o: u32, p: u64|
            facts.contains_loan(l, o, p) && within(*w, p) ==> #[trigger] con@.contains((l, o, p)),
    ensures
        r.wf(),
        forall|l: u32, p: u64| #[trigger] r@.contains((l, p)) ==> facts.loan_live(l, p),
        forall|l: u32, p: u64|
            facts.loan_live(l, p) && within(*w, p) ==> #[trigger] r@.contains((l, p)),
{
    let mut live: KeySet<(u32, u64)> = KeySet::new();
    let mut i: usize = 0;
    while i < con.items.len()
        invariant
            live.wf(),
            0 <= i <= con.items@.len(),
            forall|o: u32, p: u64| #[trigger]
                origin_live@.contains((o, p)) <==> facts.origin_live(o, p),
            forall|l: u32, o: u32, p: u64| #[trigger]
                con@.contains((l, o, p)) ==> facts.contains_loan(l, o, p),
            forall|l: u32, p: u64| #[trigger] live@.contains((l, p)) ==> facts.loan_live(l, p),
            forall|j: int|
                0 <= j < i && facts.origin_live((#[trigger] con.items@[j]).1, con.items@[j].2)
                    ==> live@.contains((con.items@[j].0, con.items@[j].2)),
        decreases con.items.len() - i,
    {
        let (l, o, p) = con.items[i];
        if origin_live.contains(&(o, p)) {
            proof {
                assert(con@.contains(con.items@[i as int]));
                assert(facts.contains_loan(l, o, p));
            }
            live.insert((l, p));
        }
        i += 1;
    }
    proof {
        assert forall|l: u32, p: u64|
            facts.loan_live(l, p) && within(*w, p) implies #[trigger] live@.contains((l, p)) by {
            let o = choose|o: u32| #[trigger]
                facts.contains_loan(l, o, p) && facts.origin_live(o, p);
            assert(con@.contains((l, o, p)));
            let j = choose|j: int| 0 <= j < con.items@.len() && con.items@[j] == (l, o, p);
            assert(live@.contains((con.items@[j].0, con.items@[j].2)));
        }
    }
    live
}

/// The points from which an invalidated point can be reached.
fn relevant_points(facts: &PoloniusFacts) -> (r: KeySet<u64>)
    ensures
        r.wf(),
        reaches_back(*facts, Some(r)),
        forall|k: int|
            0 <= k < facts.loan_invalidated_at@.len() ==> r@.contains(
                (#[trigger] facts.loan_invalidated_at@[k]).1,
            ),
{
    let mut rel: KeySet<u64> = KeySet::new();
    let ghost all = facts.loan_invalidated_at@.map_values(|x: (u32, u64)| x.1).to_set().union(
        facts.cfg_edge@.map_values(|e: (u64, u64)| e.0).to_set(),
    );
    proof {
        lemma_values(facts.loan_invalidated_at@, |x: (u32, u64)| x.1);
        lemma_values(facts.cfg_edge@, |e: (u64, u64)| e.0);
    }
    let mut i: usize = 0;
    while i < facts.loan_invalidated_at.len()
        invariant
            rel.wf(),
            0 <= i <= facts.loan_invalidated_at@.len(),
            forall|k: int|
                0 <= k < facts.loan_invalidated_at@.len() ==> all.contains(
                    (#[trigger] facts.loan_invalidated_at@[k]).1,
                ),
            forall|k: int|
                0 <= k < i ==> rel@.contains((#[trigger] facts.loan_invalidated_at@[k]).1),
            forall|k: int| 0 <= k < rel.items@.len() ==> all.contains(#[trigger] rel.items@[k]),
        decreases facts.loan_invalidated_at.len() - i,
    {
        rel.insert(facts.loan_invalidated_at[i].1);
        i += 1;
    }
    let mut i: usize = 0;
    proof {
        lemma_bounded(rel.items@, all);
    }
    while i < rel.items.len()
        invariant
            rel.wf(),
            0 <= i <= rel.items@.len(),
            rel.items@.len() <= all.len(),
            all.finite(),
            forall|k: int|
                0 <= k < facts.cfg_edge@.len() ==> all.contains((#[trigger] facts.cfg_edge@[k]).0),
            forall|k: int|
                0 <= k < facts.loan_invalidated_at@.len() ==> rel@.contains(
                    (#[trigger] facts.loan_invalidated_at@[k]).1,
                ),
            forall|k: int| 0 <= k < rel.items@.len() ==> all.contains(#[trigger] rel.items@[k]),
            forall|j: int, k: int|
                #![trigger rel.items@[j], facts.cfg_edge@[k]]
                0 <= j < i && 0 <= k < facts.cfg_edge@.len() && facts.cfg_edge@[k].1
                    == rel.items@[j] ==> rel@.contains(facts.cfg_edge@[k].0),
        decreases all.len() - i,
    {
        let p: u64 = rel.items[i];
        let mut k: usize = 0;
        while k < facts.cfg_edge.len()
            invariant
                rel.wf(),
                i < rel.items@.len(),
                rel.items@[i as int] == p,
                0 <= k <= facts.cfg_edge@.len(),
                forall|q: int|
                    0 <= q < facts.cfg_edge@.len() ==> all.contains(
                        (#[trigger] facts.cfg_edge@[q]).0,
                    ),
                forall|q: int|
                    0 <= q < facts.loan_invalidated_at@.len() ==> rel@.contains(
                        (#[trigger] facts.loan_invalidated_at@[q]).1,
                    ),
                forall|q: int| 0 <= q < rel.items@.len() ==> all.contains(#[trigger] rel.items@[q]),
                forall|j: int, q: int|
                    #![trigger rel.items@[j], facts.cfg_edge@[q]]
                    0 <= j < i && 0 <= q < facts.cfg_edge@.len() && facts.cfg_edge@[q].1
                        == rel.items@[j] ==> rel@.contains(facts.cfg_edge@[q].0),
                forall|q: int|
                    0 <= q < k && (#[trigger] facts.cfg_edge@[q]).1 == p ==> rel@.contains(
                        facts.cfg_edge@[q].0,
                    ),
            decreases facts.cfg_edge.len() - k,
        {
            let (e1, e2) = facts.cfg_edge[k];
            if e2 == p {
                assert(all.contains(facts.cfg_edge@[k as int].0));
                rel.insert(e1);
            }
            k += 1;
        }
        i += 1;
        proof {
            lemma_bounded(rel.items@, all);
        }
    }
    proof {
        assert forall|k: int|
            0 <= k < facts.cfg_edge@.len() && within(
                Some(rel),
                (#[trigger] facts.cfg_edge@[k]).1,
            ) implies within(Some(rel), facts.cfg_edge@[k].0) by {
            let j = choose|j: int|
                0 <= j < rel.items@.len() && rel.items@[j] == facts.cfg_edge@[k].1;
            assert(facts.cfg_edge@[k].1 == rel.items@[j]);
        }
    }
    rel
}

/// The loan rules: the invalidations of loans that are live.
pub fn evaluate_rules(facts: &PoloniusFacts) -> (r: Vec<(u32, u64)>)
    ensures
        r@ == facts.rule_errors(),
{
    let origin_live = origin_liveness(facts);
    let relevant = Some(relevant_points(facts));
    let subset = subset_closure(facts, &origin_live);
    let con = loan_closure(facts, &origin_live, &subset, &relevant);
    let live = live_loans(facts, &origin_live, &con, &relevant);
    let mut out: Vec<(u32, u64)> = Vec::new();
    let mut i: usize = 0;
    let ghost pred = |x: (u32, u64)| facts.loan_live(x.0, x.1);
    assert(facts.loan_invalidated_at@.take(0).filter(pred) =~= Seq::empty()) by {
        reveal(Seq::filter);
    }
    while i < facts.loan_invalidated_at.len()
        invariant
            0 <= i <= facts.loan_invalidated_at@.len(),
            relevant is Some,
            pred == (|x: (u32, u64)| facts.loan_live(x.0, x.1)),
            forall|l: u32, p: u64| #[trigger] live@.contains((l, p)) ==> facts.loan_live(l, p),
            forall|l: u32, p: u64|
                facts.loan_live(l, p) && within(relevant, p) ==> #[trigger] live@.contains((l, p)),
            forall|k: int|
                0 <= k < facts.loan_invalidated_at@.len() ==> within(
                    relevant,
                    (#[trigger] facts.loan_invalidated_at@[k]).1,
                ),
            out@ == facts.loan_invalidated_at@.take(i as int).filter(pred),
        decreases facts.loan_invalidated_at.len() - i,
    {
        let x = facts.loan_invalidated_at[i];
        proof {
            lemma_filter_take(facts.loan_invalidated_at@, i as int, pred);
            assert(within(relevant, facts.loan_invalidated_at@[i as int].1));
        }
        if live.contains(&x) {
            out.push(x);
        }
        i += 1;
    }
    assert(facts.loan_invalidated_at@.take(i as int) =~= facts.loan_invalidated_at@);
    out
}

/// Filtering one element more.
pub proof fn lemma_filter_take<A>(s: Seq<A>, i: int, f: spec_fn(A) -> bool)
    requires
        0 <= i < s.len(),
    ensures
        s.take(i + 1).filter(f) == (if f(s[i]) {
            s.take(i).filter(f).push(s[i])
        } else {
            s.take(i).filter(f)
        }),
{
    reveal(Seq::filter);
    let t = s.take(i + 1);
    assert(t.drop_last() =~= s.take(i));
    assert(t.last() == s[i]);
}

/// All the live loans, with their points.
pub fn loan_live_at(facts: &PoloniusFacts) -> (r: KeySet<(u32, u64)>)
    ensures
        r.wf(),
        forall|l: u32, p: u64| #[trigger] r@.contains((l, p)) <==> facts.loan_live(l, p),
        facts.lists_live(r.items@),
{
    let origin_live = origin_liveness(facts);
    let subset = subset_closure(facts, &origin_live);
    let con = loan_closure(facts, &origin_live, &subset, &None);
    let live = live_loans(facts, &origin_live, &con, &None);
    assert forall|l: u32, p: u64| #[trigger] live.items@.contains((l, p)) <==> facts.loan_live(
        l,
        p,
    ) by {
        assert(live@.contains((l, p)) <==> live.items@.contains((l, p)));
    }
    live
}

/// The origin of a loan: that of its last issue fact.
fn loan_origin(facts: &PoloniusFacts, l: u32) -> (r: Option<u32>)
    ensures
        r == facts.origin_of(l, facts.loan_issued_at@.len() as int),
{
    let mut i: usize = facts.loan_issued_at.len();
    while i > 0
        invariant
            0 <= i <= facts.loan_issued_at@.len(),
            facts.origin_of(l, facts.loan_issued_at@.len() as int) == facts.origin_of(
                l,
                i as int,
            ),
        decreases i,
    {
        let (m, o, _) = facts.loan_issued_at[i - 1];
        if m == l {
            return Some(o);
        }
        i -= 1;
    }
    None
}

/// The drop errors: a value is dropped while a loan of its origin is live.
pub fn evaluate_drop_errors(facts: &PoloniusFacts) -> (r: Vec<(u32, u64)>)
    ensures
        exists|live: Seq<(u32, u64)>|
            #![trigger facts.lists_live(live)]
            facts.lists_live(live) && r@ == facts.drop_errors(
                live,
                facts.drop_of_var_derefs_origin@.len() as int,
            ),
{
    let live = loan_live_at(facts);
    let mut errs: Vec<(u32, u64)> = Vec::new();
    let ghost all = live.items@;
    let ghost drops = facts.var_dropped_at@.len() as int;
    let mut i: usize = 0;
    while i < facts.drop_of_var_derefs_origin.len()
        invariant
            0 <= i <= facts.drop_of_var_derefs_origin@.len(),
            all == live.items@,
            drops == facts.var_dropped_at@.len(),
            errs@ == facts.drop_errors(all, i as int),
        decreases facts.drop_of_var_derefs_origin.len() - i,
    {
        let (v, o) = facts.drop_of_var_derefs_origin[i];
        let ghost start = errs@;
        let mut j: usize = 0;
        assert(start + facts.drops_of(all, v, o, 0) =~= start);
        while j < facts.var_dropped_at.len()
            invariant
                0 <= j <= facts.var_dropped_at@.len(),
                all == live.items@,
                errs@ == start + facts.drops_of(all, v, o, j as int),
            decreases facts.var_dropped_at.len() - j,
        {
            let (w, p) = facts.var_dropped_at[j];
            if w == v {
                let ghost mid = errs@;
                let ghost pred = facts.found_by_drop(o, p);
                let mut k: usize = 0;
                assert(mid + all.take(0).filter(pred) =~= mid) by {
                    reveal(Seq::filter);
                }
                while k < live.items.len()
                    invariant
                        0 <= k <= live.items@.len(),
                        all == live.items@,
                        pred == facts.found_by_drop(o, p),
                        errs@ == mid + all.take(k as int).filter(pred),
                    decreases live.items.len() - k,
                {
                    let (l, q) = live.items[k];
                    proof {
                        lemma_filter_take(all, k as int, pred);
                    }
                    if q == p {
                        let found = loan_origin(facts, l);
                        if let Some(f) = found {
                            if f == o {
                                errs.push((l, p));
                            }
                        }
                    }
                    assert(errs@ =~= mid + all.take(k + 1).filter(pred));
                    k += 1;
                }
                assert(all.take(k as int) =~= all);
                assert(errs@ =~= start + facts.drops_of(all, v, o, j + 1));
            } else {
                assert(errs@ =~= start + facts.drops_of(all, v, o, j + 1));
            }
            j += 1;
        }
        i += 1;
    }
    assert(facts.lists_live(all));
    errs
}

/// The declared flows and what follows from them.
fn known_closure(facts: &PoloniusFacts) -> (r: KeySet<(u32, u32)>)
    ensures
        r.wf(),
        forall|a: u32, b: u32| #[trigger] r@.contains((a, b)) <==> facts.known(a, b),
{
    let mut known: KeySet<(u32, u32)> = KeySet::new();
    let ghost base = facts.known_placeholder_subset@;
    let ghost origins = base.map_values(|x: (u32, u32)| x.0).to_set().union(
        base.map_values(|x: (u32, u32)| x.1).to_set(),
    );
    let ghost all = keyset::pairs(origins, origins);
    proof {
        lemma_values(base, |x: (u32, u32)| x.0);
        lemma_values(base, |x: (u32, u32)| x.1);
        keyset::lemma_pairs_finite(origins, origins);
    }
    let mut i: usize = 0;
    while i < facts.known_placeholder_subset.len()
        invariant
            known.wf(),
            base == facts.known_placeholder_subset@,
            0 <= i <= base.len(),
            all == keyset::pairs(origins, origins),
            forall|k: int|
                0 <= k < base.len() ==> origins.contains((#[trigger] base[k]).0)
                    && origins.contains(base[k].1),
            forall|k: int| 0 <= k < i ==> known@.contains(#[trigger] base[k]),
            forall|k: int| 0 <= k < known.items@.len() ==> all.contains(#[trigger] known.items@[k]),
            forall|s: Set<(u32, u32)>, k: int|
                #![trigger facts.known_closed(s), known.items@[k]]
                facts.known_closed(s) && 0 <= k < known.items@.len() ==> s.contains(
                    known.items@[k],
                ),
        decreases facts.known_placeholder_subset.len() - i,
    {
        known.insert(facts.known_placeholder_subset[i]);
        i += 1;
    }
    let mut i: usize = 0;
    proof {
        lemma_bounded(known.items@, all);
    }
    while i < known.items.len()
        invariant
            known.wf(),
            base == facts.known_placeholder_subset@,
            0 <= i <= known.items@.len(),
            known.items@.len() <= all.len(),
            all.finite(),
            all == keyset::pairs(origins, origins),
            forall|k: int|
                0 <= k < base.len() ==> origins.contains((#[trigger] base[k]).0)
                    && origins.contains(base[k].1),
            forall|k: int| 0 <= k < base.len() ==> known@.contains(#[trigger] base[k]),
            forall|k: int| 0 <= k < known.items@.len() ==> all.contains(#[trigger] known.items@[k]),
            forall|s: Set<(u32, u32)>, k: int|
                #![trigger facts.known_closed(s), known.items@[k]]
                facts.known_closed(s) && 0 <= k < known.items@.len() ==> s.contains(
                    known.items@[k],
                ),
            forall|j: int, k: int|
                #![trigger known.items@[j], base[k]]
                0 <= j < i && 0 <= k < base.len() && base[k].0 == known.items@[j].1
                    ==> known@.contains((known.items@[j].0, base[k].1)),
        decreases all.len() - i,
    {
        let (a, b) = known.items[i];
        let mut k: usize = 0;
        while k < facts.known_placeholder_subset.len()
            invariant
                known.wf(),
                base == facts.known_placeholder_subset@,
                i < known.items@.len(),
                known.items@[i as int] == (a, b),
                all == keyset::pairs(origins, origins),
                0 <= k <= base.len(),
                forall|q: int|
                    0 <= q < base.len() ==> origins.contains((#[trigger] base[q]).0)
                        && origins.contains(base[q].1),
                forall|q: int| 0 <= q < base.len() ==> known@.contains(#[trigger] base[q]),
                forall|q: int|
                    0 <= q < known.items@.len() ==> all.contains(#[trigger] known.items@[q]),
                forall|s: Set<(u32, u32)>, q: int|
                    #![trigger facts.known_closed(s), known.items@[q]]
                    facts.known_closed(s) && 0 <= q < known.items@.len() ==> s.contains(
                        known.items@[q],
                    ),
                forall|j: int, q: int|
                    #![trigger known.items@[j], base[q]]
                    0 <= j < i && 0 <= q < base.len() && base[q].0 == known.items@[j].1
                        ==> known@.contains((known.items@[j].0, base[q].1)),
                forall|q: int|
                    0 <= q < k && (#[trigger] base[q]).0 == b ==> known@.contains((a, base[q].1)),
            decreases facts.known_placeholder_subset.len() - k,
        {
            let (c, d) = facts.known_placeholder_subset[k];
            if b == c {
                assert forall|s: Set<(u32, u32)>| #[trigger] facts.known_closed(s) implies s.contains(
                    (a, d),
                ) by {
                    assert(s.contains(known.items@[i as int]));
                    assert(s.contains((a, facts.known_placeholder_subset@[k as int].0)));
                }
                assert(all.contains((a, d))) by {
                    assert(all.contains(known.items@[i as int]));
                    assert(origins.contains(base[k as int].1));
                }
                known.insert((a, d));
            }
            k += 1;
        }
        i += 1;
        proof {
            lemma_bounded(known.items@, all);
        }
    }
    proof {
        let s = known@;
        assert(facts.known_closed(s)) by {
            assert forall|a: u32, k: int|
                #![trigger s.contains((a, facts.known_placeholder_subset@[k].0))]
                0 <= k < facts.known_placeholder_subset@.len() && s.contains(
                    (a, facts.known_placeholder_subset@[k].0),
                ) implies s.contains((a, facts.known_placeholder_subset@[k].1)) by {
                let j = choose|j: int|
                    0 <= j < known.items@.len() && known.items@[j] == (
                        a,
                        facts.known_placeholder_subset@[k].0,
                    );
                assert(base[k].0 == known.items@[j].1);
            }
        }
        assert forall|a: u32, b: u32| #[trigger] known@.contains((a, b)) implies facts.known(
            a,
            b,
        ) by {
            let j = choose|j: int| 0 <= j < known.items@.len() && known.items@[j] == (a, b);
            assert forall|t: Set<(u32, u32)>| #[trigger] facts.known_closed(t) implies t.contains(
                (a, b),
            ) by {
                assert(t.contains(known.items@[j]));
            }
        }
    }
    known
}

/// The undeclared flows between placeholder origins, with their points.
pub fn evaluate_subset_errors(facts: &PoloniusFacts) -> (r: Vec<(u32, u32, u64)>)
    ensures
        r@.no_duplicates(),
        forall|a: u32, b: u32, p: u64| #[trigger]
            r@.contains((a, b, p)) <==> facts.subset_error(a, b, p),
{
    let origin_live = origin_liveness(facts);
    let subset = subset_closure(facts, &origin_live);
    let known = known_closure(facts);
    let mut errs: KeySet<(u32, u32, u64)> = KeySet::new();
    let mut i: usize = 0;
    while i < subset.items.len()
        invariant
            errs.wf(),
            0 <= i <= subset.items@.len(),
            forall|a: u32, b: u32, p: u64| #[trigger]
                subset@.contains((a, b, p)) <==> facts.subset(a, b, p),
            forall|a: u32, b: u32| #[trigger] known@.contains((a, b)) <==> facts.known(a, b),
            forall|a: u32, b: u32, p: u64| #[trigger]
                errs@.contains((a, b, p)) ==> facts.subset_error(a, b, p),
            forall|j: int|
                0 <= j < i && facts.subset_error(
                    (#[trigger] subset.items@[j]).0,
                    subset.items@[j].1,
                    subset.items@[j].2,
                ) ==> errs@.contains(subset.items@[j]),
        decreases subset.items.len() - i,
    {
        let (a, b, p) = subset.items[i];
        assert(subset@.contains(subset.items@[i as int]));
        if a != b && holds(&facts.universal_region, &a) && holds(&facts.universal_region, &b)
            && !known.contains(&(a, b)) {
            errs.insert((a, b, p));
        }
        i += 1;
    }
    proof {
        assert forall|a: u32, b: u32, p: u64| #[trigger]
            errs.items@.contains((a, b, p)) <==> facts.subset_error(a, b, p) by {
            if facts.subset_error(a, b, p) {
                assert(subset@.contains((a, b, p)));
                let j = choose|j: int| 0 <= j < subset.items@.len() && subset.items@[j] == (a, b, p);
                assert(errs@.contains(subset.items@[j]));
            }
            if errs.items@.contains((a, b, p)) {
                assert(errs@.contains((a, b, p)));
            }
        }
    }
    errs.items
}

} // verus!
