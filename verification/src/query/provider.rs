//! Computing queries on demand.
use super::cache;
use super::dep_graph::DepNodeIndex;
use super::engine::{Decision, Engine};
use super::system::{IntoQueryKey, QuerySystem, Step};
use super::vtable;
use super::vtable::{CycleKind, QueryCycleError, QueryDescriptor};
use crate::keyset::Key;
use std::hash::Hash;
use vstd::prelude::*;

verus! {

/// The worker that asks where there is only one.
pub const ONLY_WORKER: u64 = 0;

/// A kind of query.
#[derive(Clone, Copy, Debug)]
pub struct Query {
    /// The number of the kind.
    pub id: u64,
    pub descriptor: QueryDescriptor,
}

/// How the values of queries are computed. A computation may ask the engine
/// for the values of other queries. What a computation may come to is for the
/// provider to say; nothing is said where it says nothing.
pub trait QueryProvider<K: Key + Clone + Eq + Hash, V: Clone>: Sized {
    /// The value may come of a computation that leads from one state of the
    /// engine to another.
    open spec fn computes(
        &self,
        q: u64,
        key: K,
        before: Engine<K, V>,
        after: Engine<K, V>,
        value: V,
    ) -> bool {
        true
    }

    /// The number may be the fingerprint of the value.
    open spec fn prints(&self, q: u64, value: V, print: u64) -> bool {
        true
    }

    fn compute(&self, q: u64, key: &K, system: &mut QuerySystem<K, V>) -> (r: V)
        requires
            old(system).wf(),
        ensures
            final(system).wf(),
            self.computes(q, *key, old(system)@, final(system)@, r),
    ;

    /// A number that stays the same where the value means the same.
    fn fingerprint(&self, q: u64, value: &V) -> (r: u64)
        ensures
            self.prints(q, *value, r),
    ;
}

/// The keys that an error shows.
pub open spec fn shown_stack<K, V>(s: Engine<K, V>, w: u64, q: u64, k: K, kind: CycleKind) -> Seq<
    K,
> {
    match kind {
        CycleKind::Cycle => s.stack(q, w).push(k),
        CycleKind::DepthLimit => s.stack(q, w),
        CycleKind::WaitCycle => s.stack(q, w).push(k),
        _ => seq![k],
    }
}

/// What comes of a request of the only worker: the cached value, where it is
/// fresh; an error, where the query cannot be computed; else a value, which
/// is stored in the state that the computation left.
pub open spec fn answered<K: Key + Clone + Eq + Hash, V: Clone, P: QueryProvider<K, V>>(
    provider: P,
    before: Engine<K, V>,
    after: Engine<K, V>,
    q: u64,
    k: K,
    d: QueryDescriptor,
    r: Result<V, QueryCycleError<K>>,
) -> bool {
    let w = ONLY_WORKER;
    let s = before.registered(q, k, d);
    let t = before.begun(w, q, k, d);
    match s.decision(w, q, k, d) {
        Decision::Hit => r is Ok && vstd::pervasive::cloned(s.value(q, k), r->Ok_0) && after == t,
        Decision::Fail(kind) => r is Err && r->Err_0.query_name == d.name && r->Err_0.kind == kind
            && r->Err_0.stack@ == shown_stack(s, w, q, k, kind) && after == t,
        Decision::Wait(_) => r is Err && r->Err_0.query_name == d.name && r->Err_0.kind
            == CycleKind::NotFound && r->Err_0.stack@ == seq![k] && after == (Engine {
            waits: t.waits.remove(w),
            ..t
        }),
        Decision::Compute => r is Ok && computed(
            provider,
            t,
            after,
            q,
            k,
            d,
            before.node_of(q, k),
            r->Ok_0,
        ),
    }
}

/// The provider has computed the value for the query and the key from one
/// state, and the other is that in which it left the engine, with a copy of
/// the value stored and its fingerprint recorded.
pub open spec fn computed<K: Key + Clone + Eq + Hash, V: Clone, P: QueryProvider<K, V>>(
    provider: P,
    begun: Engine<K, V>,
    after: Engine<K, V>,
    q: u64,
    k: K,
    d: QueryDescriptor,
    node: DepNodeIndex,
    v: V,
) -> bool {
    exists|left: Engine<K, V>, copy: V, print: u64|
        provider.computes(q, k, begun, left, v) && provider.prints(q, v, print)
            && vstd::pervasive::cloned(v, copy) && after == #[trigger] left.ended(
            ONLY_WORKER,
            q,
            k,
            d,
            node,
            copy,
            print,
        )
}

/// One query that the value of another depends on has been computed, aside.
pub open spec fn refreshed_once<K: Key + Clone + Eq + Hash, V: Clone, P: QueryProvider<K, V>>(
    provider: P,
    before: Engine<K, V>,
    after: Engine<K, V>,
    q: u64,
    k: K,
    r: Result<V, QueryCycleError<K>>,
) -> bool {
    exists|p: u64, l: K, mid: Engine<K, V>|
        before.comes_first(q, k, p, l) && #[trigger] answered(
            provider,
            before.aside(ONLY_WORKER),
            mid,
            p,
            l,
            before.kinds[p].descriptor,
            r,
        ) && after == mid.turned_back(ONLY_WORKER)
}

/// What the value of a query depends on has been computed, one after the
/// other, until one had no value.
pub open spec fn refreshed<K: Key + Clone + Eq + Hash, V: Clone, P: QueryProvider<K, V>>(
    provider: P,
    states: Seq<Engine<K, V>>,
    results: Seq<Result<V, QueryCycleError<K>>>,
    q: u64,
    k: K,
) -> bool {
    &&& states.len() == results.len() + 1
    &&& results.len() <= u32::MAX
    &&& forall|i: int| 0 <= i < states.len() ==> (#[trigger] states[i]).is_sound()
    &&& forall|i: int|
        0 <= i < results.len() ==> (#[trigger] states[i]).graph.next < u32::MAX
    &&& forall|i: int|
        0 <= i < results.len() ==> refreshed_once(
            provider,
            states[i],
            states[i + 1],
            q,
            k,
            #[trigger] results[i],
        )
    &&& forall|i: int| 0 <= i < results.len() - 1 ==> (#[trigger] results[i]) is Ok
}

/// Nothing more is to be computed first: there is nothing, or what came last
/// had no value, or there are no numbers left. A query that is always computed
/// needs nothing first.
pub open spec fn is_over<K: Key + Clone + Eq + Hash, V: Clone>(
    states: Seq<Engine<K, V>>,
    results: Seq<Result<V, QueryCycleError<K>>>,
    q: u64,
    k: K,
    d: QueryDescriptor,
) -> bool {
    ||| d.eval_always && results.len() == 0
    ||| forall|p: u64, l: K| !#[trigger] states.last().is_open_input(q, k, p, l)
    ||| results.len() > 0 && results.last() is Err
    ||| results.len() == u32::MAX
    ||| states.last().graph.next == u32::MAX
}

/// What comes of a request once what it depends on has been computed: the
/// answer, or an error where computations can no longer be numbered.
pub open spec fn concluded<K: Key + Clone + Eq + Hash, V: Clone, P: QueryProvider<K, V>>(
    provider: P,
    before: Engine<K, V>,
    after: Engine<K, V>,
    q: u64,
    k: K,
    d: QueryDescriptor,
    r: Result<V, QueryCycleError<K>>,
) -> bool {
    if before.graph.next == u32::MAX {
        r is Err && r->Err_0.query_name == d.name && r->Err_0.kind == CycleKind::NotFound
            && r->Err_0.stack@ == seq![k] && after == before
    } else {
        answered(provider, before, after, q, k, d, r)
    }
}

/// What comes of a request of the only worker: what the value depends on is
/// computed where it is dirty, and then the request is answered.
pub open spec fn got<K: Key + Clone + Eq + Hash, V: Clone, P: QueryProvider<K, V>>(
    provider: P,
    before: Engine<K, V>,
    after: Engine<K, V>,
    q: u64,
    k: K,
    d: QueryDescriptor,
    r: Result<V, QueryCycleError<K>>,
) -> bool {
    exists|states: Seq<Engine<K, V>>, results: Seq<Result<V, QueryCycleError<K>>>|
        #![trigger refreshed(provider, states, results, q, k)]
        refreshed(provider, states, results, q, k) && (d.eval_always ==> results.len() == 0)
            && is_over(states, results, q, k, d) && states[0] == before && concluded(
            provider,
            states.last(),
            after,
            q,
            k,
            d,
            r,
        )
}

/// What comes of asking whether a query has a value: what comes of a request,
/// without the value.
pub open spec fn ensured<K: Key + Clone + Eq + Hash, V: Clone, P: QueryProvider<K, V>>(
    provider: P,
    before: Engine<K, V>,
    after: Engine<K, V>,
    q: u64,
    k: K,
    d: QueryDescriptor,
    r: Result<(), QueryCycleError<K>>,
) -> bool {
    exists|v: Result<V, QueryCycleError<K>>| #[trigger]
        got(provider, before, after, q, k, d, v) && match v {
            Ok(_) => r is Ok,
            Err(e) => r == Err::<(), QueryCycleError<K>>(e),
        }
}

/// Requests one after the other, each in the state that the one before it left.
pub open spec fn answered_in_turn<K: Key + Clone + Eq + Hash, V: Clone, P: QueryProvider<K, V>>(
    provider: P,
    states: Seq<Engine<K, V>>,
    q: u64,
    keys: Seq<K>,
    d: QueryDescriptor,
    r: Seq<Result<V, QueryCycleError<K>>>,
) -> bool {
    &&& states.len() == r.len() + 1
    &&& r.len() <= keys.len()
    &&& forall|i: int|
        0 <= i < r.len() ==> got(
            provider,
            states[i],
            states[i + 1],
            q,
            keys[i],
            d,
            #[trigger] r[i],
        )
}

/// The requests for some keys lead from one state to another.
pub open spec fn answered_all<K: Key + Clone + Eq + Hash, V: Clone, P: QueryProvider<K, V>>(
    provider: P,
    before: Engine<K, V>,
    after: Engine<K, V>,
    q: u64,
    keys: Seq<K>,
    d: QueryDescriptor,
    r: Seq<Result<V, QueryCycleError<K>>>,
) -> bool {
    exists|states: Seq<Engine<K, V>>| #[trigger]
        answered_in_turn(provider, states, q, keys, d, r) && states[0] == before && states.last() == after
}

impl<K: Key + Clone + Eq + Hash, V: Clone> QuerySystem<K, V> {
    /// The value of a query: cached, where nothing that it depends on is
    /// dirty, or computed.
    fn answer<P: QueryProvider<K, V>>(&mut self, q: Query, key: K, provider: &P) -> (r: Result<
        V,
        QueryCycleError<K>,
    >)
        requires
            old(self).wf(),
            old(self)@.graph.next < u32::MAX,
        ensures
            final(self).wf(),
            answered(
                *provider,
                old(self)@,
                final(self)@,
                q.id,
                key,
                q.descriptor,
                r,
            ),
    {
        let d = q.descriptor;
        match self.begin(ONLY_WORKER, q.id, &key, d) {
            Step::Cached(v) => Ok(v),
            Step::Failed(e) => Err(e),
            Step::Wait(_) => {
                self.stop_waiting(ONLY_WORKER);
                let mut stack: Vec<K> = Vec::new();
                stack.push(key.twin());
                assert(stack@ =~= seq![key]);
                Err(QueryCycleError { query_name: d.name, kind: CycleKind::NotFound, stack })
            },
            Step::Compute(node) => {
                let value = provider.compute(q.id, &key, self);
                let fp: u64 = provider.fingerprint(q.id, &value);
                let copy = value.clone();
                assert(vstd::pervasive::cloned(value, copy));
                let ghost left = self@;
                let _ = self.finish(ONLY_WORKER, q.id, key, d, node, copy, fp);
                assert(provider.prints(q.id, value, fp));
                assert(self@ == left.ended(ONLY_WORKER, q.id, key, d, node, copy, fp));
                Ok(value)
            },
        }
    }

    /// The value of a query: cached, where nothing that it depends on has
    /// changed, or computed. What it depends on and what is dirty is computed
    /// first, to see whether it has changed.
    pub fn get<P: QueryProvider<K, V>, I: IntoQueryKey<K>>(&mut self, q: Query, key: I, provider: &P) -> (r:
        Result<V, QueryCycleError<K>>)
        requires
            old(self).wf(),
            old(self)@.graph.next < u32::MAX,
        ensures
            final(self).wf(),
            got(
                *provider,
                old(self)@,
                final(self)@,
                q.id,
                key.query_key(),
                q.descriptor,
                r,
            ),
    {
        let key: K = key.into_query_key();
        let d = q.descriptor;
        let ghost k = key;
        let ghost mut states: Seq<Engine<K, V>> = seq![self@];
        let ghost mut results: Seq<Result<V, QueryCycleError<K>>> = Seq::empty();
        let mut going = !d.eval_always;
        let mut left: u32 = u32::MAX;
        proof {
            self.lemma_sound();
        }
        while going && left > 0 && self.has_room()
            invariant
                self.wf(),
                d == q.descriptor,
                key == k,
                states[0] == old(self)@,
                states.last() == self@,
                old(self)@.graph.next < u32::MAX,
                refreshed(*provider, states, results, q.id, k),
                results.len() > 0 ==> !d.eval_always,
                results.len() == u32::MAX - left || !going,
                going ==> !d.eval_always && (results.len() > 0 ==> results.last() is Ok),
                !going ==> is_over(states, results, q.id, k, d),
            decreases left,
        {
            match self.first_input(q.id, &key) {
                Some((p, l, pd)) => {
                    let ghost before = self@;
                    self.step_aside(ONLY_WORKER);
                    let ghost asked = l;
                    let r = self.answer(Query { id: p, descriptor: pd }, l, provider);
                    let ghost after = self@;
                    self.step_back(ONLY_WORKER);
                    going = r.is_ok();
                    proof {
                        self.lemma_sound();
                        assert(answered(*provider, before.aside(ONLY_WORKER), after, p, asked, pd, r));
                        assert(refreshed_once(*provider, before, self@, q.id, k, r));
                        let more = states.push(self@);
                        let all = results.push(r);
                        assert forall|i: int| 0 <= i < all.len() implies refreshed_once(
                            *provider,
                            more[i],
                            more[i + 1],
                            q.id,
                            k,
                            #[trigger] all[i],
                        ) by {
                            if i < results.len() {
                                assert(all[i] == results[i]);
                            }
                        }
                        assert forall|i: int| 0 <= i < all.len() - 1 implies (#[trigger] all[i]) is Ok by {
                            if i < results.len() - 1 {
                                assert(results[i] is Ok);
                            }
                        }
                        states = more;
                        results = all;
                    }
                },
                None => {
                    going = false;
                },
            }
            left = left - 1;
        }
        assert(is_over(states, results, q.id, k, d));
        let ghost last = self@;
        if !self.has_room() {
            let mut stack: Vec<K> = Vec::new();
            stack.push(key.twin());
            assert(stack@ =~= seq![k]);
            assert(concluded(*provider, last, self@, q.id, k, d, Err::<V, QueryCycleError<K>>(
                QueryCycleError { query_name: d.name, kind: CycleKind::NotFound, stack },
            )));
            return Err(QueryCycleError { query_name: d.name, kind: CycleKind::NotFound, stack });
        }
        let r = self.answer(q, key, provider);
        assert(concluded(*provider, last, self@, q.id, k, d, r));
        r
    }

    /// The values of several queries, in the order of the keys. It ends early
    /// only where the computations can no longer be numbered.
    pub fn par_get<P: QueryProvider<K, V>>(&mut self, q: Query, keys: &Vec<K>, provider: &P) -> (r: Vec<
        Result<V, QueryCycleError<K>>,
    >)
        requires
            old(self).wf(),
        ensures
            final(self).wf(),
            answered_all(
                *provider,
                old(self)@,
                final(self)@,
                q.id,
                keys@,
                q.descriptor,
                r@,
            ),
            r@.len() < keys@.len() ==> final(self)@.graph.next == u32::MAX,
    {
        let mut out: Vec<Result<V, QueryCycleError<K>>> = Vec::new();
        let ghost d = q.descriptor;
        let ghost mut states: Seq<Engine<K, V>> = seq![self@];
        for i in 0..keys.len()
            invariant
                self.wf(),
                answered_in_turn(*provider, states, q.id, keys@, d, out@),
                out@.len() == i,
                states[0] == old(self)@,
                states.last() == self@,
                d == q.descriptor,
        {
            if !self.has_room() {
                assert(answered_in_turn(*provider, states, q.id, keys@, d, out@));
                return out;
            }
            let ghost before = out@;
            let v = self.get(q, keys[i].twin(), provider);
            out.push(v);
            proof {
                let more = states.push(self@);
                assert forall|j: int| 0 <= j < out@.len() implies got(
                    *provider,
                    more[j],
                    more[j + 1],
                    q.id,
                    keys@[j],
                    d,
                    #[trigger] out@[j],
                ) by {
                    if j < i {
                        assert(before[j] == out@[j]);
                    }
                }
                states = more;
            }
        }
        assert(answered_in_turn(*provider, states, q.id, keys@, d, out@));
        out
    }

    /// Whether a query has a value; the value is computed and cached, and not
    /// handed out.
    pub fn ensure_ok<P: QueryProvider<K, V>, I: IntoQueryKey<K>>(
        &mut self,
        q: Query,
        key: I,
        provider: &P,
    ) -> (r: Result<(), QueryCycleError<K>>)
        requires
            old(self).wf(),
            old(self)@.graph.next < u32::MAX,
        ensures
            final(self).wf(),
            ensured(
                *provider,
                old(self)@,
                final(self)@,
                q.id,
                key.query_key(),
                q.descriptor,
                r,
            ),
    {
        let v = self.get(q, key, provider);
        match v {
            Ok(_) => Ok(()),
            Err(e) => Err(e),
        }
    }
}

/// The value of a query, from a provider.
pub fn query_get<K: Key + Clone + Eq + Hash, V: Clone, P: QueryProvider<K, V>, I: IntoQueryKey<K>>(
    provider: &P,
    system: &mut QuerySystem<K, V>,
    q: Query,
    key: I,
) -> (r: Result<V, QueryCycleError<K>>)
    requires
        old(system).wf(),
        old(system)@.graph.next < u32::MAX,
    ensures
        final(system).wf(),
        got(
            *provider,
            old(system)@,
            final(system)@,
            q.id,
            key.query_key(),
            q.descriptor,
            r,
        ),
{
    system.get(q, key, provider)
}

/// The engine and a provider together.
#[verifier::reject_recursive_types(K)]
#[verifier::reject_recursive_types(V)]
pub struct QueryHandle<'a, K: Key, V, P> {
    pub system: &'a mut QuerySystem<K, V>,
    pub provider: &'a P,
}

impl<'a, K: Key + Clone + Eq + Hash, V: Clone, P: QueryProvider<K, V>> QueryHandle<'a, K, V, P> {
    pub fn new(system: &'a mut QuerySystem<K, V>, provider: &'a P) -> (r: Self)
        ensures
            *r.system == *old(system),
            *r.provider == *provider,
            *final(r.system) == *final(system),
    {
        QueryHandle { system, provider }
    }

    /// The value of a query.
    pub fn get<I: IntoQueryKey<K>>(&mut self, q: Query, key: I) -> (r: Result<
        V,
        QueryCycleError<K>,
    >)
        requires
            old(self).system.wf(),
            old(self).system@.graph.next < u32::MAX,
        ensures
            final(self).system.wf(),
            *final(self).provider == *old(self).provider,
            got(
                *old(self).provider,
                old(self).system@,
                final(self).system@,
                q.id,
                key.query_key(),
                q.descriptor,
                r,
            ),
    {
        self.system.get(q, key, self.provider)
    }

    /// Whether a query has a value.
    pub fn ensure_ok<I: IntoQueryKey<K>>(&mut self, q: Query, key: I) -> (r: Result<
        (),
        QueryCycleError<K>,
    >)
        requires
            old(self).system.wf(),
            old(self).system@.graph.next < u32::MAX,
        ensures
            final(self).system.wf(),
            *final(self).provider == *old(self).provider,
            ensured(
                *old(self).provider,
                old(self).system@,
                final(self).system@,
                q.id,
                key.query_key(),
                q.descriptor,
                r,
            ),
    {
        let v = self.get(q, key);
        match v {
            Ok(_) => Ok(()),
            Err(e) => Err(e),
        }
    }
}

// ---------------------------------------------------------------------------
// Laws
// ---------------------------------------------------------------------------

/// Where nothing that a value depends on is dirty, or the query is always
/// computed, a request is answered at once.
pub proof fn law_fresh_request_is_answered<
    K: Key + Clone + Eq + Hash,
    V: Clone,
    P: QueryProvider<K, V>,
>(
    provider: P,
    before: Engine<K, V>,
    after: Engine<K, V>,
    q: u64,
    k: K,
    d: QueryDescriptor,
    r: Result<V, QueryCycleError<K>>,
)
    requires
        got(provider, before, after, q, k, d, r),
        before.graph.next < u32::MAX,
        d.eval_always || (forall|p: u64, l: K| !#[trigger] before.is_open_input(q, k, p, l)),
    ensures
        answered(provider, before, after, q, k, d, r),
{
    let (states, results) = choose|
        states: Seq<Engine<K, V>>,
        results: Seq<Result<V, QueryCycleError<K>>>,
    |
        #![trigger refreshed(provider, states, results, q, k)]
        refreshed(provider, states, results, q, k) && (d.eval_always ==> results.len() == 0)
            && is_over(states, results, q, k, d) && states[0] == before && concluded(
            provider,
            states.last(),
            after,
            q,
            k,
            d,
            r,
        );
    if results.len() > 0 {
        assert(refreshed_once(provider, states[0], states[1], q, k, results[0]));
    }
}

/// A request for a query that is always computed has the value that the
/// provider computes, and hands the provider the query and the key.
pub proof fn law_always_computed<K: Key + Clone + Eq + Hash, V: Clone, P: QueryProvider<K, V>>(
    provider: P,
    before: Engine<K, V>,
    after: Engine<K, V>,
    q: u64,
    k: K,
    d: QueryDescriptor,
    v: V,
)
    requires
        got(provider, before, after, q, k, d, Ok::<V, QueryCycleError<K>>(v)),
        before.graph.next < u32::MAX,
        d.eval_always,
    ensures
        computed(
            provider,
            before.begun(ONLY_WORKER, q, k, d),
            after,
            q,
            k,
            d,
            before.node_of(q, k),
            v,
        ),
{
    law_fresh_request_is_answered(
        provider,
        before,
        after,
        q,
        k,
        d,
        Ok::<V, QueryCycleError<K>>(v),
    );
}

/// A request that succeeds leaves a value to be found.
pub proof fn law_success_leaves_value<
    K: Key + Clone + Eq + Hash,
    V: Clone,
    P: QueryProvider<K, V>,
>(
    provider: P,
    before: Engine<K, V>,
    after: Engine<K, V>,
    q: u64,
    k: K,
    d: QueryDescriptor,
    r: Result<V, QueryCycleError<K>>,
)
    requires
        got(provider, before, after, q, k, d, r),
        r is Ok,
        !d.eval_always,
    ensures
        after.has_value(q, k),
{
    let (states, results) = choose|
        states: Seq<Engine<K, V>>,
        results: Seq<Result<V, QueryCycleError<K>>>,
    |
        #![trigger refreshed(provider, states, results, q, k)]
        refreshed(provider, states, results, q, k) && (d.eval_always ==> results.len() == 0)
            && is_over(states, results, q, k, d) && states[0] == before && concluded(
            provider,
            states.last(),
            after,
            q,
            k,
            d,
            r,
        );
    let from = states.last();
    let s = from.registered(q, k, d);
    match s.decision(ONLY_WORKER, q, k, d) {
        Decision::Hit => {
            let items = s.kinds[q].items;
            let seen = cache::looked_at(items, k);
            let p = cache::place(items, k);
            assert(0 <= p < items.len() && items[p].0 == k);
            assert(seen[0] == items[p]);
            assert(after.kinds[q].items == seen);
        },
        _ => {
            let (left, copy, print) = choose|left: Engine<K, V>, copy: V, print: u64|
                provider.computes(q, k, from.begun(ONLY_WORKER, q, k, d), left, r->Ok_0)
                    && provider.prints(q, r->Ok_0, print) && vstd::pervasive::cloned(
                    r->Ok_0,
                    copy,
                ) && after == #[trigger] left.ended(
                    ONLY_WORKER,
                    q,
                    k,
                    d,
                    from.node_of(q, k),
                    copy,
                    print,
                );
            let kind = left.left(ONLY_WORKER, q, from.node_of(q, k)).kind(q, d);
            let items = cache::stored(kind.items, k, copy, kind.capacity);
            assert(items[0] == (k, copy));
            assert(after.kinds[q].items == items);
        },
    }
}

/// A query that asks for itself while it is computed gets the error of a
/// cycle, with the keys that led to it, and nothing is computed.
pub proof fn law_asking_for_itself_is_an_error<
    K: Key + Clone + Eq + Hash,
    V: Clone,
    P: QueryProvider<K, V>,
>(
    provider: P,
    before: Engine<K, V>,
    after: Engine<K, V>,
    q: u64,
    k: K,
    d: QueryDescriptor,
    r: Result<V, QueryCycleError<K>>,
)
    requires
        before.registered(q, k, d).decision(ONLY_WORKER, q, k, d) == Decision::Compute,
        before.graph.next < u32::MAX - 1,
        forall|p: u64, l: K| !#[trigger] before.is_open_input(q, k, p, l),
        before.has_value(q, k) ==> before.is_known(q, k),
        got(provider, before.begun(ONLY_WORKER, q, k, d), after, q, k, d, r),
    ensures
        r is Err,
        r->Err_0.kind == CycleKind::Cycle,
        r->Err_0.query_name == d.name,
        r->Err_0.stack@ == before.stack(q, ONLY_WORKER).push(k).push(k),
        after == before.begun(ONLY_WORKER, q, k, d).begun(ONLY_WORKER, q, k, d),
{
    let w = ONLY_WORKER;
    let s = before.registered(q, k, d);
    let t = before.begun(w, q, k, d);
    let kind = s.kind(q, d);
    vtable::law_entering_pushes(kind.active, w, k, w);
    assert(t.stack(q, w) == before.stack(q, w).push(k));
    assert(t.stack(q, w)[before.stack(q, w).len() as int] == k);
    assert(t.registered(q, k, d) == t) by {
        assert(t.names.dom().contains(q));
    }
    assert(t.has_value(q, k) == before.has_value(q, k)) by {
        lemma_looking_keeps(s, q, k);
    }
    if !d.eval_always {
        assert forall|p: u64, l: K| !#[trigger] t.is_open_input(q, k, p, l) by {
            if t.is_open_input(q, k, p, l) {
                assert(before.is_known(q, k));
                assert(!before.is_open_input(q, k, p, l));
            }
        }
    }
    law_fresh_request_is_answered(provider, t, after, q, k, d, r);
}

/// Looking for a value neither adds nor drops one.
proof fn lemma_looking_keeps<K, V>(s: Engine<K, V>, q: u64, k: K)
    ensures
        s.looked_at(q, k).has_value(q, k) == s.has_value(q, k),
{
    if s.has_value(q, k) {
        let items = s.kinds[q].items;
        let p = cache::place(items, k);
        assert(0 <= p < items.len() && items[p].0 == k);
        assert(cache::looked_at(items, k)[0] == items[p]);
    }
}

/// What one request has left to be found the next one is given, without a
/// computation, as long as nothing that it depends on is dirty.
pub proof fn law_found_again<K: Key + Clone + Eq + Hash, V: Clone, P: QueryProvider<K, V>>(
    provider: P,
    before: Engine<K, V>,
    after: Engine<K, V>,
    q: u64,
    k: K,
    d: QueryDescriptor,
    r: Result<V, QueryCycleError<K>>,
)
    requires
        before.is_known(q, k),
        before.has_value(q, k),
        !before.graph.is_stale(before.nodes[(q, k)]),
        before.graph.next < u32::MAX,
        !d.eval_always,
        got(provider, before, after, q, k, d, r),
    ensures
        r is Ok,
        vstd::pervasive::cloned(before.value(q, k), r->Ok_0),
        after == before.registered(q, k, d).looked_at(q, k).read_by(
            ONLY_WORKER,
            before.nodes[(q, k)],
        ),
{
    let node = before.nodes[(q, k)];
    assert forall|p: u64, l: K| !#[trigger] before.is_open_input(q, k, p, l) by {
        if before.is_open_input(q, k, p, l) {
            let other = before.nodes[(p, l)];
            let path = choose|path: Seq<DepNodeIndex>| before.graph.leads_to(node, path, other);
            assert(before.graph.leads_to_dirty(node, path));
        }
    }
    law_fresh_request_is_answered(provider, before, after, q, k, d, r);
}

} // verus!
