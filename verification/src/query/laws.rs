//! Laws of requests, over one call and over several.
use super::cache;
use super::dep_graph::DepNodeIndex;
use super::engine;
use super::engine::{Decision, Engine};
use super::provider;
use super::provider::{QueryProvider, ONLY_WORKER};
use super::vtable::{QueryCycleError, QueryDescriptor};
use crate::keyset::Key;
use std::hash::Hash;
use vstd::prelude::*;

verus! {

/// A copy of a value is the same value.
pub open spec fn copies_exactly<V: Clone>() -> bool {
    forall|a: V, b: V| #[trigger] vstd::pervasive::cloned(a, b) ==> a == b
}

/// What a computation comes to depends on the query, the key and the state of
/// the engine alone, and the fingerprint on the value.
pub open spec fn is_deterministic<K: Key + Clone + Eq + Hash, V: Clone, P: QueryProvider<K, V>>(
    provider: P,
) -> bool {
    &&& forall|q: u64, k: K, b: Engine<K, V>, l: Engine<K, V>, v: V, m: Engine<K, V>, w: V|
        #![trigger provider.computes(q, k, b, l, v), provider.computes(q, k, b, m, w)]
        provider.computes(q, k, b, l, v) && provider.computes(q, k, b, m, w) ==> l == m && v == w
    &&& forall|q: u64, v: V, x: u64, y: u64|
        #![trigger provider.prints(q, v, x), provider.prints(q, v, y)]
        provider.prints(q, v, x) && provider.prints(q, v, y) ==> x == y
}

/// Two requests came to the same.
pub open spec fn same_outcome<K, V>(
    a: Result<V, QueryCycleError<K>>,
    b: Result<V, QueryCycleError<K>>,
) -> bool {
    match (a, b) {
        (Ok(x), Ok(y)) => x == y,
        (Err(x), Err(y)) => x.query_name == y.query_name && x.kind == y.kind && x.stack@
            == y.stack@,
        _ => false,
    }
}

// ---------------------------------------------------------------------------
// One outcome
// ---------------------------------------------------------------------------

proof fn lemma_one_answer<K: Key + Clone + Eq + Hash, V: Clone, P: QueryProvider<K, V>>(
    provider: P,
    before: Engine<K, V>,
    after: Engine<K, V>,
    other: Engine<K, V>,
    q: u64,
    k: K,
    d: QueryDescriptor,
    r: Result<V, QueryCycleError<K>>,
    s: Result<V, QueryCycleError<K>>,
)
    requires
        is_deterministic(provider),
        copies_exactly::<V>(),
        provider::answered(provider, before, after, q, k, d, r),
        provider::answered(provider, before, other, q, k, d, s),
    ensures
        after == other,
        same_outcome(r, s),
{
    let w = ONLY_WORKER;
    let t = before.begun(w, q, k, d);
    let node = before.node_of(q, k);
    if before.registered(q, k, d).decision(w, q, k, d) == Decision::Compute {
        let (l, c, x) = choose|l: Engine<K, V>, c: V, x: u64|
            provider.computes(q, k, t, l, r->Ok_0) && provider.prints(q, r->Ok_0, x)
                && vstd::pervasive::cloned(r->Ok_0, c) && after == #[trigger] l.ended(
                w,
                q,
                k,
                d,
                node,
                c,
                x,
            );
        let (m, e, y) = choose|m: Engine<K, V>, e: V, y: u64|
            provider.computes(q, k, t, m, s->Ok_0) && provider.prints(q, s->Ok_0, y)
                && vstd::pervasive::cloned(s->Ok_0, e) && other == #[trigger] m.ended(
                w,
                q,
                k,
                d,
                node,
                e,
                y,
            );
        assert(l == m && r->Ok_0 == s->Ok_0);
        assert(x == y);
        assert(c == r->Ok_0 && e == s->Ok_0);
    }
}

/// Of the open inputs at most one comes first.
proof fn lemma_one_first<K, V>(s: Engine<K, V>, q: u64, k: K, p: u64, l: K, x: u64, y: K)
    requires
        s.is_sound(),
        s.comes_first(q, k, p, l),
        s.comes_first(q, k, x, y),
    ensures
        p == x,
        l == y,
{
    assert(s.nodes.dom().contains((p, l)) && s.nodes.dom().contains((x, y)));
    assert(s.nodes[(p, l)] == s.nodes[(x, y)]);
    assert((p, l) == (x, y));
}

proof fn lemma_one_refresh<K: Key + Clone + Eq + Hash, V: Clone, P: QueryProvider<K, V>>(
    provider: P,
    before: Engine<K, V>,
    after: Engine<K, V>,
    other: Engine<K, V>,
    q: u64,
    k: K,
    r: Result<V, QueryCycleError<K>>,
    s: Result<V, QueryCycleError<K>>,
)
    requires
        is_deterministic(provider),
        copies_exactly::<V>(),
        before.is_sound(),
        provider::refreshed_once(provider, before, after, q, k, r),
        provider::refreshed_once(provider, before, other, q, k, s),
    ensures
        after == other,
        same_outcome(r, s),
{
    let aside = before.aside(ONLY_WORKER);
    let (p, l, mid) = choose|p: u64, l: K, mid: Engine<K, V>|
        before.comes_first(q, k, p, l) && #[trigger] provider::answered(
            provider,
            aside,
            mid,
            p,
            l,
            before.kinds[p].descriptor,
            r,
        ) && after == mid.turned_back(ONLY_WORKER);
    let (x, y, end) = choose|x: u64, y: K, end: Engine<K, V>|
        before.comes_first(q, k, x, y) && #[trigger] provider::answered(
            provider,
            aside,
            end,
            x,
            y,
            before.kinds[x].descriptor,
            s,
        ) && other == end.turned_back(ONLY_WORKER);
    lemma_one_first(before, q, k, p, l, x, y);
    lemma_one_answer(provider, aside, mid, end, p, l, before.kinds[p].descriptor, r, s);
}

/// The inputs are computed in the same way.
proof fn lemma_one_way<K: Key + Clone + Eq + Hash, V: Clone, P: QueryProvider<K, V>>(
    provider: P,
    states: Seq<Engine<K, V>>,
    results: Seq<Result<V, QueryCycleError<K>>>,
    others: Seq<Engine<K, V>>,
    ends: Seq<Result<V, QueryCycleError<K>>>,
    q: u64,
    k: K,
    i: int,
)
    requires
        is_deterministic(provider),
        copies_exactly::<V>(),
        provider::refreshed(provider, states, results, q, k),
        provider::refreshed(provider, others, ends, q, k),
        states[0] == others[0],
        0 <= i < states.len(),
        i < others.len(),
    ensures
        states[i] == others[i],
        i > 0 ==> same_outcome(results[i - 1], ends[i - 1]),
    decreases i,
{
    if i > 0 {
        lemma_one_way(provider, states, results, others, ends, q, k, i - 1);
        assert(states[i - 1].is_sound());
        assert(provider::refreshed_once(
            provider,
            states[i - 1],
            states[i - 1 + 1],
            q,
            k,
            results[i - 1],
        ));
        assert(provider::refreshed_once(
            provider,
            others[i - 1],
            others[i - 1 + 1],
            q,
            k,
            ends[i - 1],
        ));
        lemma_one_refresh(
            provider,
            states[i - 1],
            states[i],
            others[i],
            q,
            k,
            results[i - 1],
            ends[i - 1],
        );
    }
}

/// One of the two ways does not go further than the other.
proof fn lemma_no_further<K: Key + Clone + Eq + Hash, V: Clone, P: QueryProvider<K, V>>(
    provider: P,
    states: Seq<Engine<K, V>>,
    results: Seq<Result<V, QueryCycleError<K>>>,
    others: Seq<Engine<K, V>>,
    ends: Seq<Result<V, QueryCycleError<K>>>,
    q: u64,
    k: K,
    d: QueryDescriptor,
)
    requires
        is_deterministic(provider),
        copies_exactly::<V>(),
        provider::refreshed(provider, states, results, q, k),
        provider::refreshed(provider, others, ends, q, k),
        states[0] == others[0],
        provider::is_over(states, results, q, k, d),
        d.eval_always ==> ends.len() == 0,
    ensures
        ends.len() <= results.len(),
{
    if results.len() < ends.len() {
        let n = results.len() as int;
        lemma_one_way(provider, states, results, others, ends, q, k, n);
        assert(others[n].graph.next < u32::MAX);
        assert(provider::refreshed_once(provider, others[n], others[n + 1], q, k, ends[n]));
        if n > 0 {
            assert(ends[n - 1] is Ok);
        }
    }
}

/// Where computations are deterministic, a request comes to one thing only: the
/// same result, in the same state.
pub proof fn law_one_outcome<K: Key + Clone + Eq + Hash, V: Clone, P: QueryProvider<K, V>>(
    provider: P,
    before: Engine<K, V>,
    after: Engine<K, V>,
    other: Engine<K, V>,
    q: u64,
    k: K,
    d: QueryDescriptor,
    r: Result<V, QueryCycleError<K>>,
    s: Result<V, QueryCycleError<K>>,
)
    requires
        is_deterministic(provider),
        copies_exactly::<V>(),
        provider::got(provider, before, after, q, k, d, r),
        provider::got(provider, before, other, q, k, d, s),
    ensures
        after == other,
        same_outcome(r, s),
{
    let (states, results) = choose|
        states: Seq<Engine<K, V>>,
        results: Seq<Result<V, QueryCycleError<K>>>,
    |
        #![trigger provider::refreshed(provider, states, results, q, k)]
        provider::refreshed(provider, states, results, q, k) && (d.eval_always ==> results.len()
            == 0) && provider::is_over(states, results, q, k, d) && states[0] == before
            && provider::concluded(provider, states.last(), after, q, k, d, r);
    let (others, ends) = choose|
        others: Seq<Engine<K, V>>,
        ends: Seq<Result<V, QueryCycleError<K>>>,
    |
        #![trigger provider::refreshed(provider, others, ends, q, k)]
        provider::refreshed(provider, others, ends, q, k) && (d.eval_always ==> ends.len() == 0)
            && provider::is_over(others, ends, q, k, d) && others[0] == before
            && provider::concluded(provider, others.last(), other, q, k, d, s);
    lemma_no_further(provider, states, results, others, ends, q, k, d);
    lemma_no_further(provider, others, ends, states, results, q, k, d);
    lemma_one_way(provider, states, results, others, ends, q, k, results.len() as int);
    if states.last().graph.next < u32::MAX {
        lemma_one_answer(provider, states.last(), after, other, q, k, d, r, s);
    }
}

/// Where computations are deterministic, asking whether a query has a value
/// agrees with asking for it: it succeeds where the request does, fails with the
/// same error where that fails, and leaves the same state.
pub proof fn law_ensuring_agrees<K: Key + Clone + Eq + Hash, V: Clone, P: QueryProvider<K, V>>(
    provider: P,
    before: Engine<K, V>,
    after: Engine<K, V>,
    other: Engine<K, V>,
    q: u64,
    k: K,
    d: QueryDescriptor,
    r: Result<V, QueryCycleError<K>>,
    s: Result<(), QueryCycleError<K>>,
)
    requires
        is_deterministic(provider),
        copies_exactly::<V>(),
        provider::got(provider, before, after, q, k, d, r),
        provider::ensured(provider, before, other, q, k, d, s),
    ensures
        after == other,
        r is Ok <==> s is Ok,
        r is Err ==> r->Err_0.query_name == s->Err_0.query_name && r->Err_0.kind == s->Err_0.kind
            && r->Err_0.stack@ == s->Err_0.stack@,
{
    let v = choose|v: Result<V, QueryCycleError<K>>| #[trigger]
        provider::got(provider, before, other, q, k, d, v) && match v {
            Ok(_) => s is Ok,
            Err(e) => s == Err::<(), QueryCycleError<K>>(e),
        };
    law_one_outcome(provider, before, after, other, q, k, d, r, v);
}

// ---------------------------------------------------------------------------
// Requests one after the other
// ---------------------------------------------------------------------------

/// The innermost computation of the only worker is one of this query, and
/// nothing behind it is stale: nothing that it reads or has read is, and nothing
/// of that depends on the computation itself or on what has read it.
pub open spec fn is_fresh_inside<K, V>(s: Engine<K, V>, q: u64, k: K, node: DepNodeIndex) -> bool {
    let tasks = s.tasks_of(ONLY_WORKER);
    &&& s.is_known(q, k)
    &&& s.nodes[(q, k)] == node
    &&& tasks.len() > 0
    &&& tasks.last().node == node
    &&& s.kinds.dom().contains(q) ==> cache::keys_differ(s.kinds[q].items)
    &&& forall|x: DepNodeIndex, y: DepNodeIndex|
        (s.graph.reads_of(node).contains(x) || tasks.last().reads.contains(x))
            && #[trigger] s.graph.reads_through(x, y) ==> y != node && !s.graph.dirty.contains(y)
            && !s.graph.readers_of(node).contains(y)
}

/// The computations of a provider only ask: one that begins with nothing stale
/// behind it ends so.
pub open spec fn only_asks<K: Key + Clone + Eq + Hash, V: Clone, P: QueryProvider<K, V>>(
    provider: P,
) -> bool {
    forall|q: u64, k: K, before: Engine<K, V>, after: Engine<K, V>, v: V| #[trigger]
        provider.computes(q, k, before, after, v) && is_fresh_inside(
            before,
            q,
            k,
            before.nodes[(q, k)],
        ) ==> is_fresh_inside(after, q, k, before.nodes[(q, k)])
}

/// A request finds nothing to be computed first, and where it computes, it
/// begins with nothing stale behind it.
pub open spec fn starts_fresh<K, V>(s: Engine<K, V>, q: u64, k: K, d: QueryDescriptor) -> bool {
    &&& forall|p: u64, l: K| !#[trigger] s.is_open_input(q, k, p, l)
    &&& s.registered(q, k, d).decision(ONLY_WORKER, q, k, d) == Decision::Compute
        ==> is_fresh_inside(s.begun(ONLY_WORKER, q, k, d), q, k, s.node_of(q, k))
}

/// A query that was never asked for, and that nothing refers to, starts fresh.
pub proof fn law_new_query_starts_fresh<K, V>(
    s: Engine<K, V>,
    q: u64,
    k: K,
    d: QueryDescriptor,
)
    requires
        s.is_sound(),
        !s.is_known(q, k),
        !s.has_value(q, k),
        s.graph.next < u32::MAX,
        s.graph.edges.len() <= s.graph.next,
        s.graph.readers.len() <= s.graph.next,
    ensures
        starts_fresh(s, q, k, d),
{
    let t = s.begun(ONLY_WORKER, q, k, d);
    let node = s.node_of(q, k);
    let r = s.registered(q, k, d);
    if r.decision(ONLY_WORKER, q, k, d) == Decision::Compute {
        assert(t.graph == s.graph.allocated());
        assert(t.graph.reads_of(node) =~= Set::<DepNodeIndex>::empty());
        assert(r.kinds == s.kinds);
        assert(r.looked_at(q, k).kinds =~= s.kinds || s.kinds.dom().contains(q));
        assert(t.tasks_of(ONLY_WORKER).last().reads =~= Set::<DepNodeIndex>::empty());
        if s.kinds.dom().contains(q) {
            assert(t.kinds[q].items == s.kinds[q].items);
        }
    }
}

/// A computation that ends well leaves its query fresh.
proof fn lemma_ended_is_fresh<K, V>(
    s: Engine<K, V>,
    q: u64,
    k: K,
    d: QueryDescriptor,
    node: DepNodeIndex,
    v: V,
    fp: u64,
)
    requires
        is_fresh_inside(s, q, k, node),
        !d.eval_always,
    ensures
        ({
            let t = s.ended(ONLY_WORKER, q, k, d, node, v, fp);
            &&& t.is_known(q, k)
            &&& t.nodes[(q, k)] == node
            &&& !t.graph.is_stale(node)
        }),
{
    let t = s.ended(ONLY_WORKER, q, k, d, node, v, fp);
    let task = s.tasks_of(ONLY_WORKER).last();
    let g = s.graph;
    if t.graph.is_stale(node) {
        let path = choose|path: Seq<DepNodeIndex>| t.graph.leads_to_dirty(node, path);
        let m = lemma_last_visit(path, node);
        let tail = path.skip(m);
        assert(tail[0] == node);
        assert(tail.last() == path.last());
        assert(!t.graph.dirty.contains(node));
        assert(tail.len() > 1);
        let rest = tail.skip(1);
        let x = rest[0];
        assert(t.graph.reads_of(path[m]).contains(path[m + 1]));
        assert(x == path[m + 1]);
        assert(g.reads_of(node).contains(x) || task.reads.contains(x));
        assert(g.is_path(rest)) by {
            assert forall|i: int| 0 <= i < rest.len() - 1 implies g.reads_of(
                #[trigger] rest[i],
            ).contains(rest[i + 1]) by {
                assert(rest[i] == path[m + 1 + i] && rest[i + 1] == path[m + 1 + i + 1]);
                assert(t.graph.reads_of(path[m + 1 + i]).contains(path[m + 1 + i + 1]));
                assert(rest[i] != node);
            }
        }
        let y = rest.last();
        assert(y == path.last());
        assert(g.leads_to(x, rest, y));
        assert(g.reads_through(x, y));
        assert(y != node && !g.dirty.contains(y) && !g.readers_of(node).contains(y));
        if task.reads.contains(node) {
            assert(g.leads_to(node, seq![node], node));
            assert(g.reads_through(node, node));
        }
        assert(g.finished(task).readers_of(node).contains(y) ==> g.readers_of(node).contains(y));
        assert(false);
    }
}

/// The last place of a node on a path that begins with it.
proof fn lemma_last_visit(path: Seq<DepNodeIndex>, node: DepNodeIndex) -> (m: int)
    requires
        path.len() > 0,
        path[0] == node,
    ensures
        0 <= m < path.len(),
        path[m] == node,
        forall|i: int| m < i < path.len() ==> #[trigger] path[i] != node,
    decreases path.len(),
{
    if path.last() == node {
        path.len() - 1
    } else {
        let m = lemma_last_visit(path.drop_last(), node);
        assert forall|i: int| m < i < path.len() implies #[trigger] path[i] != node by {
            if i < path.len() - 1 {
                assert(path.drop_last()[i] == path[i]);
            }
        }
        m
    }
}

/// A request that starts fresh and succeeds leaves its query fresh, where the
/// computations of the provider only ask.
pub proof fn law_success_leaves_fresh<
    K: Key + Clone + Eq + Hash,
    V: Clone,
    P: QueryProvider<K, V>,
>(
    provider: P,
    before: Engine<K, V>,
    after: Engine<K, V>,
    q: u64,
    k: K,
    d: QueryDescriptor,
    r: Result<V, QueryCycleError<K>>,
)
    requires
        only_asks(provider),
        starts_fresh(before, q, k, d),
        before.graph.next < u32::MAX,
        provider::got(provider, before, after, q, k, d, r),
        r is Ok,
        !d.eval_always,
    ensures
        after.is_known(q, k),
        !after.graph.is_stale(after.nodes[(q, k)]),
{
    let w = ONLY_WORKER;
    provider::law_fresh_request_is_answered(provider, before, after, q, k, d, r);
    let from = before;
    let s = from.registered(q, k, d);
    let t = from.begun(w, q, k, d);
    let node = from.node_of(q, k);
    if s.decision(w, q, k, d) == Decision::Compute {
        let (left, copy, print) = choose|left: Engine<K, V>, copy: V, print: u64|
            provider.computes(q, k, t, left, r->Ok_0) && provider.prints(q, r->Ok_0, print)
                && vstd::pervasive::cloned(r->Ok_0, copy) && after == #[trigger] left.ended(
                w,
                q,
                k,
                d,
                node,
                copy,
                print,
            );
        assert(t.nodes[(q, k)] == node);
        lemma_ended_is_fresh(left, q, k, d, node, copy, print);
    }
}

/// One value is the copy of the other, or both are copies of a third.
pub open spec fn copied<V: Clone>(a: V, b: V) -> bool {
    exists|c: V|
        (#[trigger] vstd::pervasive::cloned(a, c) || vstd::pervasive::cloned(c, a))
            && vstd::pervasive::cloned(c, b)
}

/// The value that a request gave is the one that it left to be found, up to a
/// copy.
proof fn lemma_left_value<K: Key + Clone + Eq + Hash, V: Clone, P: QueryProvider<K, V>>(
    provider: P,
    before: Engine<K, V>,
    after: Engine<K, V>,
    q: u64,
    k: K,
    d: QueryDescriptor,
    r: Result<V, QueryCycleError<K>>,
)
    requires
        provider::got(provider, before, after, q, k, d, r),
        r is Ok,
        !d.eval_always,
        after.is_sound(),
    ensures
        after.has_value(q, k),
        vstd::pervasive::cloned(r->Ok_0, after.value(q, k)) || vstd::pervasive::cloned(
            after.value(q, k),
            r->Ok_0,
        ),
{
    provider::law_success_leaves_value(provider, before, after, q, k, d, r);
    let w = ONLY_WORKER;
    let (states, results) = choose|
        states: Seq<Engine<K, V>>,
        results: Seq<Result<V, QueryCycleError<K>>>,
    |
        #![trigger provider::refreshed(provider, states, results, q, k)]
        provider::refreshed(provider, states, results, q, k) && (d.eval_always ==> results.len()
            == 0) && provider::is_over(states, results, q, k, d) && states[0] == before
            && provider::concluded(provider, states.last(), after, q, k, d, r);
    let from = states.last();
    assert(states[states.len() - 1].is_sound());
    let s = from.registered(q, k, d);
    let node = from.node_of(q, k);
    let items = after.kinds[q].items;
    let p = cache::place(items, k);
    assert(0 <= p < items.len() && items[p].0 == k);
    if s.decision(w, q, k, d) == Decision::Hit {
        cache::law_looking_keeps_entries(s.kinds[q].items, k, k);
        assert(after.value(q, k) == s.value(q, k));
    } else {
        let (left, copy, print) = choose|left: Engine<K, V>, copy: V, print: u64|
            provider.computes(q, k, from.begun(w, q, k, d), left, r->Ok_0) && provider.prints(
                q,
                r->Ok_0,
                print,
            ) && vstd::pervasive::cloned(r->Ok_0, copy) && after == #[trigger] left.ended(
                w,
                q,
                k,
                d,
                node,
                copy,
                print,
            );
        assert(items[0] == (k, copy));
        if p != 0 {
            assert(items[0].0 != items[p].0);
        }
    }
}

/// A request after one that succeeded and left nothing stale gives that value
/// again, up to a copy, and computes nothing.
pub proof fn law_repeated_request<K: Key + Clone + Eq + Hash, V: Clone, P: QueryProvider<K, V>>(
    provider: P,
    before: Engine<K, V>,
    between: Engine<K, V>,
    after: Engine<K, V>,
    q: u64,
    k: K,
    d: QueryDescriptor,
    r: Result<V, QueryCycleError<K>>,
    s: Result<V, QueryCycleError<K>>,
)
    requires
        provider::got(provider, before, between, q, k, d, r),
        r is Ok,
        provider::got(provider, between, after, q, k, d, s),
        !d.eval_always,
        between.is_sound(),
        between.graph.next < u32::MAX,
        (only_asks(provider) && starts_fresh(before, q, k, d) && before.graph.next < u32::MAX) || (
        between.is_known(q, k) && !between.graph.is_stale(between.nodes[(q, k)])),
    ensures
        s is Ok,
        copied(r->Ok_0, s->Ok_0),
        copies_exactly::<V>() ==> s->Ok_0 == r->Ok_0,
        after == between.registered(q, k, d).looked_at(q, k).read_by(
            ONLY_WORKER,
            between.nodes[(q, k)],
        ),
{
    lemma_left_value(provider, before, between, q, k, d, r);
    if only_asks(provider) && starts_fresh(before, q, k, d) && before.graph.next < u32::MAX {
        law_success_leaves_fresh(provider, before, between, q, k, d, r);
    }
    provider::law_found_again(provider, between, after, q, k, d, s);
    let c = between.value(q, k);
    assert(vstd::pervasive::cloned(r->Ok_0, c) || vstd::pervasive::cloned(c, r->Ok_0));
}

/// After asking whether a query has a value, and it has, a request gives the
/// value without a computation.
pub proof fn law_ensured_is_found<K: Key + Clone + Eq + Hash, V: Clone, P: QueryProvider<K, V>>(
    provider: P,
    before: Engine<K, V>,
    between: Engine<K, V>,
    after: Engine<K, V>,
    q: u64,
    k: K,
    d: QueryDescriptor,
    r: Result<(), QueryCycleError<K>>,
    s: Result<V, QueryCycleError<K>>,
)
    requires
        provider::ensured(provider, before, between, q, k, d, r),
        r is Ok,
        provider::got(provider, between, after, q, k, d, s),
        !d.eval_always,
        between.is_sound(),
        between.graph.next < u32::MAX,
        (only_asks(provider) && starts_fresh(before, q, k, d) && before.graph.next < u32::MAX) || (
        between.is_known(q, k) && !between.graph.is_stale(between.nodes[(q, k)])),
    ensures
        s is Ok,
        vstd::pervasive::cloned(between.value(q, k), s->Ok_0),
        after == between.registered(q, k, d).looked_at(q, k).read_by(
            ONLY_WORKER,
            between.nodes[(q, k)],
        ),
{
    let v = choose|v: Result<V, QueryCycleError<K>>| #[trigger]
        provider::got(provider, before, between, q, k, d, v) && match v {
            Ok(_) => r is Ok,
            Err(e) => r == Err::<(), QueryCycleError<K>>(e),
        };
    lemma_left_value(provider, before, between, q, k, d, v);
    if only_asks(provider) && starts_fresh(before, q, k, d) && before.graph.next < u32::MAX {
        law_success_leaves_fresh(provider, before, between, q, k, d, v);
    }
    provider::law_found_again(provider, between, after, q, k, d, s);
}

// ---------------------------------------------------------------------------
// Invalidation
// ---------------------------------------------------------------------------

/// The request after an invalidation computes the query, once, and gives what
/// was computed, unless the query is being computed, has failed or is too deep.
pub proof fn law_invalidated_is_computed_once<
    K: Key + Clone + Eq + Hash,
    V: Clone,
    P: QueryProvider<K, V>,
>(
    provider: P,
    before: Engine<K, V>,
    after: Engine<K, V>,
    q: u64,
    k: K,
    d: QueryDescriptor,
    r: Result<V, QueryCycleError<K>>,
)
    requires
        before.is_known(q, k),
        before.graph.next < u32::MAX,
        !before.stack(q, ONLY_WORKER).contains(k),
        !before.running.dom().contains((q, k)),
        before.own_decision(ONLY_WORKER, q, d) == Decision::Compute,
        provider::got(provider, before.invalidated(q, k), after, q, k, d, r),
    ensures
        r is Ok,
        provider::computed(
            provider,
            before.invalidated(q, k).begun(ONLY_WORKER, q, k, d),
            after,
            q,
            k,
            d,
            before.nodes[(q, k)],
            r->Ok_0,
        ),
{
    let s = before.invalidated(q, k);
    let node = before.nodes[(q, k)];
    assert(s.graph.dirty.contains(node));
    assert forall|p: u64, l: K| !#[trigger] s.is_open_input(q, k, p, l) by {}
    provider::law_fresh_request_is_answered(provider, s, after, q, k, d, r);
    let t = s.registered(q, k, d);
    engine::law_invalidated_is_computed_again(before, q, k, ONLY_WORKER, d);
    assert(t.graph.leads_to_dirty(node, seq![node]));
    assert(t.stack(q, ONLY_WORKER) == before.stack(q, ONLY_WORKER));
    assert(t.decision(ONLY_WORKER, q, k, d) == Decision::Compute);
}

/// A request for another query, whose value is there, fresh, and does not
/// depend on the one that was invalidated, is answered from the cache.
pub proof fn law_invalidation_leaves_others<
    K: Key + Clone + Eq + Hash,
    V: Clone,
    P: QueryProvider<K, V>,
>(
    provider: P,
    before: Engine<K, V>,
    after: Engine<K, V>,
    q: u64,
    k: K,
    p: u64,
    l: K,
    d: QueryDescriptor,
    r: Result<V, QueryCycleError<K>>,
)
    requires
        before.is_sound(),
        before.graph.next < u32::MAX,
        before.is_known(q, k),
        before.is_known(p, l),
        (p, l) != (q, k),
        before.has_value(p, l),
        !before.graph.is_stale(before.nodes[(p, l)]),
        !before.graph.reads_through(before.nodes[(p, l)], before.nodes[(q, k)]),
        !d.eval_always,
        provider::got(provider, before.invalidated(q, k), after, p, l, d, r),
    ensures
        r is Ok,
        vstd::pervasive::cloned(before.value(p, l), r->Ok_0),
        after == before.invalidated(q, k).registered(p, l, d).looked_at(p, l).read_by(
            ONLY_WORKER,
            before.nodes[(p, l)],
        ),
{
    let s = before.invalidated(q, k);
    assert(before.decision(ONLY_WORKER, p, l, d) == Decision::Hit);
    engine::law_invalidation_spares_others(before, q, k, p, l, ONLY_WORKER, d);
    provider::law_found_again(provider, s, after, p, l, d, r);
}

/// Two queries were asked for and had values, one was invalidated: it is
/// computed once more, and the other, which does not depend on it, is answered
/// from the cache with the value that it had.
pub proof fn law_invalidation_over_requests<
    K: Key + Clone + Eq + Hash,
    V: Clone,
    P: QueryProvider<K, V>,
>(
    provider: P,
    before: Engine<K, V>,
    between: Engine<K, V>,
    after: Engine<K, V>,
    again: Engine<K, V>,
    q: u64,
    k: K,
    p: u64,
    l: K,
    d: QueryDescriptor,
    e: QueryDescriptor,
    first: Result<V, QueryCycleError<K>>,
    second: Result<V, QueryCycleError<K>>,
    r: Result<V, QueryCycleError<K>>,
)
    requires
        // The second query is asked for.
        provider::got(provider, before, between, p, l, e, first),
        first is Ok,
        !e.eval_always,
        between.is_sound(),
        between.graph.next < u32::MAX,
        (only_asks(provider) && starts_fresh(before, p, l, e) && before.graph.next < u32::MAX) || (
        between.is_known(p, l) && !between.graph.is_stale(between.nodes[(p, l)])),
        // The first one is known, and the second does not depend on it.
        between.is_known(q, k),
        (p, l) != (q, k),
        !between.graph.reads_through(between.nodes[(p, l)], between.nodes[(q, k)]),
        // The first is invalidated; nothing computes it.
        !between.stack(q, ONLY_WORKER).contains(k),
        !between.running.dom().contains((q, k)),
        between.own_decision(ONLY_WORKER, q, d) == Decision::Compute,
        provider::got(provider, between.invalidated(q, k), after, q, k, d, r),
        provider::got(provider, between.invalidated(q, k), again, p, l, e, second),
    ensures
        r is Ok,
        provider::computed(
            provider,
            between.invalidated(q, k).begun(ONLY_WORKER, q, k, d),
            after,
            q,
            k,
            d,
            between.nodes[(q, k)],
            r->Ok_0,
        ),
        second is Ok,
        copied(first->Ok_0, second->Ok_0),
        again == between.invalidated(q, k).registered(p, l, e).looked_at(p, l).read_by(
            ONLY_WORKER,
            between.nodes[(p, l)],
        ),
{
    if only_asks(provider) && starts_fresh(before, p, l, e) && before.graph.next < u32::MAX {
        law_success_leaves_fresh(provider, before, between, p, l, e, first);
    }
    lemma_left_value(provider, before, between, p, l, e, first);
    law_invalidated_is_computed_once(provider, between, after, q, k, d, r);
    law_invalidation_leaves_others(provider, between, again, q, k, p, l, e, second);
    let c = between.value(p, l);
    assert(vstd::pervasive::cloned(first->Ok_0, c) || vstd::pervasive::cloned(c, first->Ok_0));
}

/// Invalidating a query that was never asked for changes nothing.
pub proof fn law_invalidating_the_unknown<K, V>(s: Engine<K, V>, q: u64, k: K)
    requires
        !s.is_known(q, k),
        !s.has_value(q, k),
    ensures
        s.invalidated(q, k) == s,
{
    if s.kinds.dom().contains(q) {
        assert(s.invalidated(q, k).kinds =~= s.kinds);
    }
}

} // verus!
