//! The query engine.
use super::assoc;
use super::assoc::Table;
use super::cache;
use super::cache::QueryCacheType;
use super::dep_graph::{DepGraph, DepNodeIndex, Task, TaskStack};
use super::engine;
use super::engine::{Decision, Engine, Run};
use super::job;
use super::job::{JobCounter, Latch, QueryJob, QueryJobId, QueryWaiter};
use super::vtable;
use super::vtable::{
    CycleKind, Kind, QueryCycleError, QueryDescriptor, QueryVTable,
};
use crate::keyset::Key;
use crate::types::DefId;
use std::hash::Hash;
use vstd::prelude::*;
use vstd::std_specs::hash;

verus! {

/// What stands for a key.
pub trait IntoQueryKey<K>: Sized {
    spec fn query_key(self) -> K;

    fn into_query_key(self) -> (r: K)
        ensures
            r == self.query_key(),
    ;
}

/// A key stands for itself.
impl<K> IntoQueryKey<K> for K {
    open spec fn query_key(self) -> K {
        self
    }

    fn into_query_key(self) -> (r: K) {
        self
    }
}

/// A number stands for the definition with that number.
impl IntoQueryKey<DefId> for u64 {
    open spec fn query_key(self) -> DefId {
        DefId(self)
    }

    fn into_query_key(self) -> (r: DefId) {
        DefId(self)
    }
}

/// A computation that is not over, or that has failed.
#[derive(Debug)]
pub enum ActiveKeyStatus {
    Started(QueryJob),
    Failed,
}

impl ActiveKeyStatus {
    pub open spec fn wf(self) -> bool {
        match self {
            ActiveKeyStatus::Started(job) => job.latch@ is Running,
            ActiveKeyStatus::Failed => true,
        }
    }

    pub open spec fn model(self) -> Run {
        match self {
            ActiveKeyStatus::Started(job) => Run::Started {
                id: job.id.0,
                node: job.dep_node,
                owner: job.owner,
                waiters: match job.latch@ {
                    Latch::Running(s) => s,
                    _ => Seq::empty(),
                },
            },
            ActiveKeyStatus::Failed => Run::Failed,
        }
    }
}

/// What a worker does next about a query.
#[derive(Debug)]
pub enum Step<K, V> {
    /// It has the value.
    Cached(V),
    /// It gives up.
    Failed(QueryCycleError<K>),
    /// It waits until the computation of another worker is over.
    Wait(QueryJobId),
    /// It computes the value.
    Compute(DepNodeIndex),
}

/// The queries.
#[verifier::reject_recursive_types(K)]
#[verifier::reject_recursive_types(V)]
pub struct QuerySystem<K: Key, V> {
    vtables: Table<u64, QueryVTable<K, V>>,
    dep_graph: DepGraph,
    node_map: Table<(u64, K), DepNodeIndex>,
    query_names: Table<u64, &'static str>,
    active_keys: Table<(u64, K), ActiveKeyStatus>,
    tasks: Table<u64, TaskStack>,
    waits: Table<u64, u64>,
    jobs: JobCounter,
}

/// The kinds of queries.
pub open spec fn kinds_of<K: Key + Clone + Eq + Hash, V>(
    m: Map<u64, QueryVTable<K, V>>,
) -> Map<u64, Kind<K, V>> {
    Map::new(|q: u64| m.dom().contains(q), |q: u64| m[q].model())
}

/// The running computations.
pub open spec fn runs_of<K>(m: Map<(u64, K), ActiveKeyStatus>) -> Map<(u64, K), Run> {
    Map::new(|x: (u64, K)| m.dom().contains(x), |x: (u64, K)| m[x].model())
}

/// The computations of the workers.
pub open spec fn stacks_of(m: Map<u64, TaskStack>) -> Map<u64, Seq<Task>> {
    Map::new(|w: u64| m.dom().contains(w), |w: u64| m[w]@)
}

/// The computations have numbers that a graph can hold.
pub open spec fn small(tasks: Seq<Task>) -> bool {
    forall|i: int| 0 <= i < tasks.len() ==> (#[trigger] tasks[i]).node.0 < u32::MAX
}

proof fn lemma_kind_put<K: Key + Clone + Eq + Hash, V>(
    m: Map<u64, QueryVTable<K, V>>,
    q: u64,
    t: QueryVTable<K, V>,
)
    ensures
        kinds_of(m.insert(q, t)) == kinds_of(m).insert(q, t.model()),
        kinds_of(m.remove(q).insert(q, t)) == kinds_of(m).insert(q, t.model()),
{
    assert(kinds_of(m.insert(q, t)) =~= kinds_of(m).insert(q, t.model()));
    assert(kinds_of(m.remove(q).insert(q, t)) =~= kinds_of(m).insert(q, t.model()));
}

proof fn lemma_run_put<K>(m: Map<(u64, K), ActiveKeyStatus>, x: (u64, K), s: ActiveKeyStatus)
    ensures
        runs_of(m.insert(x, s)) == runs_of(m).insert(x, s.model()),
        runs_of(m.remove(x).insert(x, s)) == runs_of(m).insert(x, s.model()),
        runs_of(m.remove(x)) == runs_of(m).remove(x),
{
    assert(runs_of(m.insert(x, s)) =~= runs_of(m).insert(x, s.model()));
    assert(runs_of(m.remove(x).insert(x, s)) =~= runs_of(m).insert(x, s.model()));
    assert(runs_of(m.remove(x)) =~= runs_of(m).remove(x));
}

proof fn lemma_stack_put(m: Map<u64, TaskStack>, w: u64, t: TaskStack)
    ensures
        stacks_of(m.remove(w).insert(w, t)) == stacks_of(m).insert(w, t@),
{
    assert(stacks_of(m.remove(w).insert(w, t)) =~= stacks_of(m).insert(w, t@));
}

/// The computations of the queries have numbers below `next`, each its own.
#[verifier::opaque]
spec fn numbered<K>(nodes: Map<(u64, K), DepNodeIndex>, next: u32) -> bool {
    &&& forall|x: (u64, K)| #[trigger] nodes.dom().contains(x) ==> nodes[x].0 < next
    &&& forall|x: (u64, K), y: (u64, K)| #[trigger]
        nodes.dom().contains(x) && #[trigger] nodes.dom().contains(y) && nodes[x] == nodes[y] ==> x
            == y
}

proof fn lemma_none_numbered<K>(nodes: Map<(u64, K), DepNodeIndex>, next: u32)
    requires
        nodes == Map::<(u64, K), DepNodeIndex>::empty(),
    ensures
        numbered(nodes, next),
{
    reveal(numbered);
}

proof fn lemma_next_numbered<K>(nodes: Map<(u64, K), DepNodeIndex>, next: u32, x: (u64, K))
    requires
        numbered(nodes, next),
        next < u32::MAX,
    ensures
        numbered(nodes.insert(x, DepNodeIndex(next)), (next + 1) as u32),
{
    reveal(numbered);
}

proof fn lemma_number<K>(nodes: Map<(u64, K), DepNodeIndex>, next: u32, x: (u64, K))
    requires
        numbered(nodes, next),
        nodes.dom().contains(x),
    ensures
        nodes[x].0 < next,
{
    reveal(numbered);
}

impl<K: Key + Clone + Eq + Hash, V> View for QuerySystem<K, V> {
    type V = Engine<K, V>;

    closed spec fn view(&self) -> Engine<K, V> {
        Engine {
            graph: self.dep_graph@,
            nodes: self.node_map@,
            names: self.query_names@,
            kinds: kinds_of(self.vtables@),
            running: runs_of(self.active_keys@),
            tasks: stacks_of(self.tasks@),
            waits: self.waits@,
            next_job: self.jobs.number(),
        }
    }
}

impl<K: Key + Clone + Eq + Hash, V: Clone> QuerySystem<K, V> {
    pub closed spec fn wf(&self) -> bool {
        &&& hash::obeys_key_model::<K>()
        &&& cache::clones_exactly::<K>()
        &&& self.vtables.wf()
        &&& self.dep_graph.wf()
        &&& self.node_map.wf()
        &&& self.query_names.wf()
        &&& self.active_keys.wf()
        &&& self.tasks.wf()
        &&& self.waits.wf()
        &&& forall|q: u64| #[trigger]
            self.vtables@.dom().contains(q) ==> self.vtables@[q].wf()
        &&& forall|x: (u64, K)| #[trigger]
            self.active_keys@.dom().contains(x) ==> self.active_keys@[x].wf()
        &&& forall|w: u64| #[trigger]
            self.tasks@.dom().contains(w) ==> small(self.tasks@[w]@)
        &&& numbered(self.node_map@, self.dep_graph@.next)
        &&& engine::settled(self.waits@)
    }

    /// What always holds of the queries.
    pub proof fn lemma_sound(&self)
        requires
            self.wf(),
        ensures
            self@.is_sound(),
    {
        reveal(numbered);
        assert forall|q: u64| #[trigger] self@.kinds.dom().contains(q) implies cache::keys_differ(
            self@.kinds[q].items,
        ) by {
            assert(self.vtables@.dom().contains(q));
            self.vtables@[q].cache.lemma_keys_differ();
        }
    }

    pub fn new() -> (r: Self)
        requires
            hash::obeys_key_model::<K>(),
            cache::clones_exactly::<K>(),
        ensures
            r.wf(),
            r@ == Engine::<K, V>::none(),
    {
        let r = QuerySystem {
            vtables: Table::new(),
            dep_graph: DepGraph::new(),
            node_map: Table::new(),
            query_names: Table::new(),
            active_keys: Table::new(),
            tasks: Table::new(),
            waits: Table::new(),
            jobs: JobCounter::new(),
        };
        proof {
            assert forall|x: u64| #[trigger] engine::chain_ends(r.waits@, x) by {
                assert(engine::ends(r.waits@, x, 0));
            }
            assert(kinds_of(r.vtables@) =~= Map::<u64, Kind<K, V>>::empty());
            assert(runs_of(r.active_keys@) =~= Map::<(u64, K), Run>::empty());
            assert(stacks_of(r.tasks@) =~= Map::<u64, Seq<Task>>::empty());
            lemma_none_numbered(r.node_map@, r.dep_graph@.next);
        }
        r
    }

    /// Gives the query a name and a computation.
    fn register(&mut self, q: u64, key: &K, d: QueryDescriptor) -> (r: DepNodeIndex)
        requires
            old(self).wf(),
            old(self)@.graph.next < u32::MAX,
        ensures
            final(self).wf(),
            final(self)@ == old(self)@.registered(q, *key, d),
            r == old(self)@.node_of(q, *key),
            r.0 < u32::MAX,
    {
        if self.query_names.get(&q).is_none() {
            self.query_names.put(q, d.name);
        }
        let found: Option<DepNodeIndex> = match self.node_map.get(&(q, key.twin())) {
            Some(n) => Some(*n),
            None => None,
        };
        match found {
            Some(n) => {
                proof {
                    lemma_number(self.node_map@, self.dep_graph@.next, (q, *key));
                }
                n
            },
            None => {
                proof {
                    lemma_next_numbered(self.node_map@, self.dep_graph@.next, (q, *key));
                }
                let n = self.dep_graph.allocate_node_index();
                self.node_map.put((q, key.twin()), n);
                n
            },
        }
    }

    /// Looks for a cached value.
    fn look(&mut self, q: u64, key: &K) -> (r: Option<V>)
        requires
            old(self).wf(),
        ensures
            final(self).wf(),
            final(self)@ == old(self)@.looked_at(q, *key),
            match r {
                Some(v) => old(self)@.has_value(q, *key) && vstd::pervasive::cloned(
                    old(self)@.value(q, *key),
                    v,
                ),
                None => !old(self)@.has_value(q, *key),
            },
    {
        match self.vtables.take(&q) {
            Some(t) => {
                let mut t = t;
                let r = t.cache.lookup(key);
                proof {
                    lemma_kind_put(old(self).vtables@, q, t);
                }
                self.vtables.put(q, t);
                r
            },
            None => {
                assert(self.vtables@ =~= old(self).vtables@);
                None
            },
        }
    }

    /// Records that the innermost computation of a worker reads another.
    fn read_for(&mut self, worker: u64, node: DepNodeIndex)
        requires
            old(self).wf(),
        ensures
            final(self).wf(),
            final(self)@ == old(self)@.read_by(worker, node),
    {
        let mut stack = match self.tasks.take(&worker) {
            Some(s) => s,
            None => TaskStack::new(),
        };
        assert(stack@ == old(self)@.tasks_of(worker));
        assert(small(stack@));
        stack.read(node);
        assert(small(stack@));
        proof {
            lemma_stack_put(old(self).tasks@, worker, stack);
        }
        self.tasks.put(worker, stack);
    }

    /// The worker `owner` waits, through others, for `w`, or is `w`.
    fn closes(&self, owner: u64, w: u64) -> (r: bool)
        requires
            self.wf(),
        ensures
            r == engine::waits_for(self@.waits, owner, w),
    {
        let ghost waits = self.waits@;
        let mut x: u64 = owner;
        assert(engine::chain_ends(waits, owner));
        let ghost mut left: nat = choose|n: nat| engine::ends(waits, owner, n);
        loop
            invariant
                self.wf(),
                waits == self.waits@,
                engine::ends(waits, x, left),
                engine::waits_for(waits, x, w) <==> engine::waits_for(waits, owner, w),
            decreases left,
        {
            if x == w {
                assert(engine::reaches(waits, x, w, 0));
                return true;
            }
            let next: Option<u64> = match self.waits.get(&x) {
                Some(y) => Some(*y),
                None => None,
            };
            match next {
                Some(y) => {
                    proof {
                        if engine::waits_for(waits, y, w) {
                            let n = choose|n: nat| engine::reaches(waits, y, w, n);
                            assert(engine::reaches(waits, x, w, n + 1));
                        }
                        if engine::waits_for(waits, x, w) {
                            let n = choose|n: nat| engine::reaches(waits, x, w, n);
                            assert(engine::reaches(waits, y, w, (n - 1) as nat));
                        }
                        left = (left - 1) as nat;
                    }
                    x = y;
                },
                None => {
                    proof {
                        if engine::waits_for(waits, x, w) {
                            let n = choose|n: nat| engine::reaches(waits, x, w, n);
                            assert(false);
                        }
                    }
                    return false;
                },
            }
        }
    }

    /// A worker comes to wait for a query that another computes.
    fn add_waiter(&mut self, worker: u64, q: u64, key: &K) -> (r: QueryJobId)
        requires
            old(self).wf(),
            old(self)@.running.dom().contains((q, *key)),
            old(self)@.running[(q, *key)] matches Run::Started { id, node, owner, waiters }
                && !engine::waits_for(old(self)@.waits, owner, worker),
        ensures
            final(self).wf(),
            final(self)@ == old(self)@.waiting(worker, q, *key),
            old(self)@.running[(q, *key)] matches Run::Started { id, node, owner, waiters } && r.0
                == id,
    {
        let x = (q, key.twin());
        match self.active_keys.take(&x) {
            Some(ActiveKeyStatus::Started(job)) => {
                let mut job = job;
                let id = job.id;
                let owner: u64 = job.owner;
                let _ = job.latch.wait_on(worker);
                proof {
                    engine::law_waiting_does_not_wedge(self.waits@, worker, owner);
                    lemma_run_put(
                        old(self).active_keys@,
                        x,
                        ActiveKeyStatus::Started(job),
                    );
                }
                self.active_keys.put(x, ActiveKeyStatus::Started(job));
                self.waits.put(worker, owner);
                id
            },
            _ => {
                assert(false);
                QueryJobId(0)
            },
        }
    }

    /// A worker begins to compute a query, unless it is too deep.
    fn start(&mut self, worker: u64, q: u64, key: &K, d: QueryDescriptor, node: DepNodeIndex) -> (r:
        Result<(), QueryCycleError<K>>)
        requires
            old(self).wf(),
            node.0 < u32::MAX,
            !old(self)@.stack(q, worker).contains(*key),
        ensures
            final(self).wf(),
            match r {
                Ok(_) => old(self)@.own_decision(worker, q, d) == Decision::Compute && final(self)@
                    == old(self)@.computing(worker, q, *key, d, node),
                Err(e) => old(self)@.own_decision(worker, q, d) == Decision::Fail(
                    CycleKind::DepthLimit,
                ) && final(self)@ == old(self)@ && e.query_name == d.name && e.kind
                    == CycleKind::DepthLimit && e.stack@ == old(self)@.stack(q, worker),
            },
    {
        let mut t = match self.vtables.take(&q) {
            Some(t) => t,
            None => QueryVTable::new(d),
        };
        assert(t.model() == old(self)@.kind(q, d));
        let entered = t.enter(worker, key);
        proof {
            lemma_kind_put(old(self).vtables@, q, t);
        }
        self.vtables.put(q, t);
        if let Err(e) = entered {
            assert(self@.kinds =~= old(self)@.kinds);
            return Err(QueryCycleError { query_name: d.name, kind: e.kind, stack: e.stack });
        }
        if !d.eval_always {
            let job = QueryJob::new(node, worker, &mut self.jobs);
            let x = (q, key.twin());
            proof {
                lemma_run_put(self.active_keys@, x, ActiveKeyStatus::Started(job));
            }
            self.active_keys.put(x, ActiveKeyStatus::Started(job));
        }
        let mut stack = match self.tasks.take(&worker) {
            Some(s) => s,
            None => TaskStack::new(),
        };
        assert(stack@ == old(self)@.tasks_of(worker));
        assert(small(stack@));
        stack.start_task(node);
        assert(small(stack@));
        proof {
            lemma_stack_put(old(self).tasks@, worker, stack);
        }
        self.tasks.put(worker, stack);
        Ok(())
    }

    /// The keys that a worker computes for one kind of query.
    fn stack_for(&self, q: u64, worker: u64) -> (r: Vec<K>)
        requires
            self.wf(),
        ensures
            r@ == self@.stack(q, worker),
    {
        match self.vtables.get(&q) {
            Some(t) => t.stack(worker),
            None => Vec::new(),
        }
    }

    /// What runs, or has failed, for a query.
    fn status(&self, q: u64, key: &K) -> (r: Option<Option<u64>>)
        requires
            self.wf(),
        ensures
            match r {
                None => !self@.running.dom().contains((q, *key)),
                Some(None) => self@.running.dom().contains((q, *key)) && self@.running[(q, *key)]
                    is Failed,
                Some(Some(o)) => self@.running.dom().contains((q, *key)) && (
                self@.running[(q, *key)] matches Run::Started { id, node, owner, waiters } && owner
                    == o),
            },
    {
        match self.active_keys.get(&(q, key.twin())) {
            None => None,
            Some(ActiveKeyStatus::Failed) => Some(None),
            Some(ActiveKeyStatus::Started(job)) => Some(Some(job.owner)),
        }
    }

    /// Whether there is a cached value; that is no use of it.
    fn is_cached(&self, q: u64, key: &K) -> (r: bool)
        requires
            self.wf(),
        ensures
            r == self@.has_value(q, *key),
    {
        match self.vtables.get(&q) {
            Some(t) => t.cache.has_key(key),
            None => false,
        }
    }

    /// The query that is to be computed before it is known whether a cached
    /// value still holds, and what is said of it; nothing, where there is none.
    pub fn first_input(&self, q: u64, key: &K) -> (r: Option<(u64, K, QueryDescriptor)>)
        requires
            self.wf(),
        ensures
            match r {
                Some((p, l, d)) => self@.comes_first(q, *key, p, l) && d
                    == self@.kinds[p].descriptor,
                None => forall|p: u64, l: K| !#[trigger] self@.is_open_input(q, *key, p, l),
            },
    {
        let node = match self.node(q, key) {
            Some(n) => n,
            None => {
                return None;
            },
        };
        if !self.is_cached(q, key) || !self.dep_graph.is_green(node) {
            return None;
        }
        let reads = self.dep_graph.all_reads(node);
        let known = self.node_map.keys();
        let mut best: Option<(u64, K, QueryDescriptor)> = None;
        let mut least: u32 = u32::MAX;
        for i in 0..known.len()
            invariant
                self.wf(),
                self@.is_known(q, *key),
                node == self@.nodes[(q, *key)],
                assoc::is_listing(self@.nodes, known@),
                forall|x: DepNodeIndex| #[trigger]
                    reads@.contains(x) <==> self@.graph.reads_through(node, x),
                self@.has_value(q, *key),
                !self@.graph.dirty.contains(node),
                match best {
                    Some((p, l, d)) => self@.is_open_input(q, *key, p, l) && d
                        == self@.kinds[p].descriptor && least == self@.nodes[(p, l)].0,
                    None => least == u32::MAX,
                },
                forall|j: int|
                    0 <= j < i ==> (self@.is_open_input(
                        q,
                        *key,
                        (#[trigger] known@[j]).0,
                        known@[j].1,
                    ) ==> best is Some && least <= self@.nodes[known@[j]].0),
        {
            let x = known[i].twin();
            assert(known@.contains(known@[i as int]));
            assert(self@.is_known(x.0, x.1));
            proof {
                lemma_number(self.node_map@, self.dep_graph@.next, x);
            }
            if let Some(n) = self.node(x.0, &x.1) {
                if let Some(t) = self.vtables.get(&x.0) {
                    let d = t.descriptor;
                    if !d.eval_always && crate::keyset::holds(&reads, &n)
                        && self.dep_graph.is_ripe(n) && n.0 < least {
                        least = n.0;
                        best = Some((x.0, x.1, d));
                    }
                }
            }
        }
        proof {
            assert forall|p: u64, l: K| #[trigger]
                self@.is_open_input(q, *key, p, l) implies best is Some && least
                <= self@.nodes[(p, l)].0 by {
                assert(self@.nodes.dom().contains((p, l)));
                assert(known@.contains((p, l)));
                let j = choose|j: int| 0 <= j < known@.len() && known@[j] == (p, l);
                assert(self@.is_open_input(q, *key, known@[j].0, known@[j].1));
            }
        }
        best
    }

    /// From here on, what a worker computes is read by none of the
    /// computations that it is in.
    pub fn step_aside(&mut self, worker: u64)
        requires
            old(self).wf(),
        ensures
            final(self).wf(),
            final(self)@ == old(self)@.aside(worker),
    {
        let mut stack = match self.tasks.take(&worker) {
            Some(s) => s,
            None => TaskStack::new(),
        };
        assert(stack@ == old(self)@.tasks_of(worker));
        assert(small(stack@));
        stack.start_task(DepNodeIndex(0));
        assert(small(stack@));
        proof {
            lemma_stack_put(old(self).tasks@, worker, stack);
        }
        self.tasks.put(worker, stack);
    }

    /// A worker is back from computing aside.
    pub fn step_back(&mut self, worker: u64)
        requires
            old(self).wf(),
        ensures
            final(self).wf(),
            final(self)@ == old(self)@.turned_back(worker),
    {
        let mut stack = match self.tasks.take(&worker) {
            Some(s) => s,
            None => TaskStack::new(),
        };
        assert(stack@ == old(self)@.tasks_of(worker));
        assert(small(stack@));
        let _ = stack.pop();
        assert(small(stack@));
        proof {
            lemma_stack_put(old(self).tasks@, worker, stack);
        }
        self.tasks.put(worker, stack);
    }

    /// A worker asks for a query.
    pub fn begin(&mut self, worker: u64, q: u64, key: &K, d: QueryDescriptor) -> (r: Step<K, V>)
        requires
            old(self).wf(),
            old(self)@.graph.next < u32::MAX,
        ensures
            final(self).wf(),
            final(self)@ == old(self)@.begun(worker, q, *key, d),
            ({
                let s = old(self)@.registered(q, *key, d);
                match s.decision(worker, q, *key, d) {
                    Decision::Hit => r matches Step::Cached(v) && vstd::pervasive::cloned(
                        s.value(q, *key),
                        v,
                    ),
                    Decision::Fail(kind) => r matches Step::Failed(e) && e.query_name == d.name
                        && e.kind == kind && e.stack@ == match kind {
                        CycleKind::Cycle => s.stack(q, worker).push(*key),
                        CycleKind::DepthLimit => s.stack(q, worker),
                        CycleKind::WaitCycle => s.stack(q, worker).push(*key),
                        _ => seq![*key],
                    },
                    Decision::Wait(owner) => r matches Step::Wait(j) && (s.running[(q, *key)] matches Run::Started {
                        id,
                        node,
                        owner: o,
                        waiters,
                    } && j.0 == id),
                    Decision::Compute => r matches Step::Compute(n) && n == old(self)@.node_of(
                        q,
                        *key,
                    ) && n.0 < u32::MAX,
                }
            }),
    {
        let node = self.register(q, key, d);
        let ghost s = self@;
        assert(s.node_of(q, *key) == node);
        if !d.eval_always && !self.dep_graph.is_stale(node) {
            if let Some(v) = self.look(q, key) {
                self.read_for(worker, node);
                return Step::Cached(v);
            }
        }
        let ghost t = self@;
        assert(t.stack(q, worker) == s.stack(q, worker));
        assert(t.running == s.running);
        assert(t.waits == s.waits);
        let mut stack = self.stack_for(q, worker);
        if crate::keyset::holds(&stack, key) {
            stack.push(key.twin());
            return Step::Failed(
                QueryCycleError { query_name: d.name, kind: CycleKind::Cycle, stack },
            );
        }
        match self.status(q, key) {
            Some(None) => {
                let mut only: Vec<K> = Vec::new();
                only.push(key.twin());
                assert(only@ =~= seq![*key]);
                return Step::Failed(
                    QueryCycleError {
                        query_name: d.name,
                        kind: CycleKind::PreviouslyPanicked,
                        stack: only,
                    },
                );
            },
            Some(Some(owner)) => {
                if !d.eval_always {
                    if self.closes(owner, worker) {
                        stack.push(key.twin());
                        return Step::Failed(
                            QueryCycleError {
                                query_name: d.name,
                                kind: CycleKind::WaitCycle,
                                stack,
                            },
                        );
                    }
                    let id = self.add_waiter(worker, q, key);
                    return Step::Wait(id);
                }
            },
            None => {},
        }
        match self.start(worker, q, key, d, node) {
            Ok(_) => Step::Compute(node),
            Err(e) => Step::Failed(e),
        }
    }

    /// Ends the innermost computation of a worker, whatever came of it.
    fn leave(&mut self, worker: u64, q: u64, node: DepNodeIndex)
        requires
            old(self).wf(),
        ensures
            final(self).wf(),
            final(self)@ == old(self)@.left(worker, q, node),
    {
        let mut stack = match self.tasks.take(&worker) {
            Some(s) => s,
            None => TaskStack::new(),
        };
        assert(stack@ == old(self)@.tasks_of(worker));
        assert(small(stack@));
        self.dep_graph.finish_task(&mut stack);
        assert(small(stack@));
        proof {
            lemma_stack_put(old(self).tasks@, worker, stack);
        }
        self.tasks.put(worker, stack);
        self.read_for(worker, node);
        let ghost before = self.vtables@;
        match self.vtables.take(&q) {
            Some(t) => {
                let mut t = t;
                t.leave(worker);
                proof {
                    lemma_kind_put(before, q, t);
                }
                self.vtables.put(q, t);
            },
            None => {
                assert(self.vtables@ =~= before);
            },
        }
    }

    /// Lets the woken workers go on.
    fn release(&mut self, woken: &Vec<QueryWaiter>)
        requires
            old(self).wf(),
        ensures
            final(self).wf(),
            final(self)@ == (Engine {
                waits: engine::without(old(self)@.waits, woken@),
                ..old(self)@
            }),
    {
        let ghost before = self.waits@;
        assert(woken@.take(0) =~= Seq::<QueryWaiter>::empty());
        for i in 0..woken.len()
            invariant
                self.wf(),
                engine::settled(before),
                before == old(self)@.waits,
                self@ == (Engine {
                    waits: engine::without(before, woken@.take(i as int)),
                    ..old(self)@
                }),
        {
            let w = woken[i].worker;
            proof {
                assert(woken@.take(i + 1).drop_last() =~= woken@.take(i as int));
                assert(woken@.take(i + 1).last() == woken@[i as int]);
                engine::law_waking_does_not_wedge(before, woken@.take(i + 1));
            }
            let _ = self.waits.take(&w);
        }
        assert(woken@.take(woken@.len() as int) =~= woken@);
    }

    /// The workers that waited for a query; it is no longer running.
    fn stop(&mut self, q: u64, key: &K) -> (r: Vec<QueryWaiter>)
        requires
            old(self).wf(),
        ensures
            final(self).wf(),
            final(self)@ == (Engine {
                running: old(self)@.running.remove((q, *key)),
                ..old(self)@
            }),
            r@ == job::woken(old(self)@.waiters(q, *key)),
    {
        let x = (q, key.twin());
        proof {
            lemma_run_put(self.active_keys@, x, ActiveKeyStatus::Failed);
        }
        match self.active_keys.take(&x) {
            Some(ActiveKeyStatus::Started(job)) => job.signal_complete(),
            Some(ActiveKeyStatus::Failed) => {
                let r: Vec<QueryWaiter> = Vec::new();
                assert(r@ =~= job::woken(old(self)@.waiters(q, *key)));
                r
            },
            None => {
                let r: Vec<QueryWaiter> = Vec::new();
                assert(r@ =~= job::woken(old(self)@.waiters(q, *key)));
                r
            },
        }
    }

    /// A worker has computed a query. The workers that wait for it are handed
    /// out, to be resumed.
    pub fn finish(
        &mut self,
        worker: u64,
        q: u64,
        key: K,
        d: QueryDescriptor,
        node: DepNodeIndex,
        value: V,
        fingerprint: u64,
    ) -> (r: Vec<QueryWaiter>)
        requires
            old(self).wf(),
            node.0 < u32::MAX,
        ensures
            final(self).wf(),
            final(self)@ == old(self)@.ended(worker, q, key, d, node, value, fingerprint),
            r@ == if d.eval_always {
                Seq::empty()
            } else {
                job::woken(old(self)@.left(worker, q, node).waiters(q, key))
            },
    {
        self.leave(worker, q, node);
        if d.eval_always {
            return Vec::new();
        }
        let ghost s = self@;
        let woken = self.stop(q, &key);
        proof {
            lemma_woken_waits(self@.waits, s.waiters(q, key));
        }
        self.release(&woken);
        let before = self.dep_graph.fingerprint(node);
        self.dep_graph.set_fingerprint(node, fingerprint);
        if let Some(f) = before {
            if f != fingerprint {
                self.dep_graph.dirty_readers(node);
            }
        }
        self.dep_graph.mark_green(node);
        let ghost vts = self.vtables@;
        let mut t = match self.vtables.take(&q) {
            Some(t) => t,
            None => QueryVTable::new(d),
        };
        assert(t.model() == s.kind(q, d));
        t.cache.insert(key, value);
        proof {
            lemma_kind_put(vts, q, t);
        }
        self.vtables.put(q, t);
        woken
    }

    /// The computation of a query has failed. The workers that wait for it are
    /// handed out, to be resumed; the query fails from then on.
    pub fn fail(&mut self, worker: u64, q: u64, key: K, node: DepNodeIndex) -> (r: Vec<
        QueryWaiter,
    >)
        requires
            old(self).wf(),
        ensures
            final(self).wf(),
            final(self)@ == old(self)@.failed(worker, q, key, node),
            r@ == job::woken(old(self)@.left(worker, q, node).waiters(q, key)),
    {
        self.leave(worker, q, node);
        let ghost s = self@;
        let woken = self.stop(q, &key);
        proof {
            lemma_woken_waits(self@.waits, s.waiters(q, key));
        }
        self.release(&woken);
        proof {
            lemma_run_put(self.active_keys@, (q, key), ActiveKeyStatus::Failed);
            assert(s.running.remove((q, key)).insert((q, key), Run::Failed) =~= s.running.insert(
                (q, key),
                Run::Failed,
            ));
        }
        self.active_keys.put((q, key), ActiveKeyStatus::Failed);
        woken
    }

    /// A worker that has waited for a query goes on: with its value, or, where
    /// the computation failed or left no value, without.
    pub fn resume(&mut self, worker: u64, q: u64, key: &K, d: QueryDescriptor) -> (r: Result<
        V,
        QueryCycleError<K>,
    >)
        requires
            old(self).wf(),
            old(self)@.graph.next < u32::MAX,
        ensures
            final(self).wf(),
            ({
                let s = old(self)@.registered(q, *key, d);
                let over = s.running.dom().contains((q, *key)) && s.running[(q, *key)] is Failed;
                match r {
                    Ok(v) => !over && s.has_value(q, *key) && vstd::pervasive::cloned(
                        s.value(q, *key),
                        v,
                    ) && final(self)@ == s.looked_at(q, *key).read_by(
                        worker,
                        old(self)@.node_of(q, *key),
                    ),
                    Err(e) => (over || !s.has_value(q, *key)) && e.query_name == d.name
                        && e.stack@ == seq![*key] && e.kind == if over {
                        CycleKind::Poisoned
                    } else {
                        CycleKind::NotFound
                    } && final(self)@ == if over {
                        s
                    } else {
                        s.looked_at(q, *key)
                    },
                }
            }),
    {
        let node = self.register(q, key, d);
        let mut only: Vec<K> = Vec::new();
        only.push(key.twin());
        assert(only@ =~= seq![*key]);
        if let Some(None) = self.status(q, key) {
            return Err(
                QueryCycleError { query_name: d.name, kind: CycleKind::Poisoned, stack: only },
            );
        }
        match self.look(q, key) {
            Some(v) => {
                self.read_for(worker, node);
                Ok(v)
            },
            None => Err(
                QueryCycleError { query_name: d.name, kind: CycleKind::NotFound, stack: only },
            ),
        }
    }

    /// A worker no longer waits.
    pub fn stop_waiting(&mut self, worker: u64)
        requires
            old(self).wf(),
        ensures
            final(self).wf(),
            final(self)@ == (Engine { waits: old(self)@.waits.remove(worker), ..old(self)@ }),
    {
        proof {
            let woken = seq![QueryWaiter { parent: None, worker, completed: true }];
            engine::law_waking_does_not_wedge(self.waits@, woken);
            assert(woken.drop_last() =~= Seq::<QueryWaiter>::empty());
            assert(engine::without(self.waits@, woken.drop_last()) == self.waits@);
            assert(engine::without(self.waits@, woken) == self.waits@.remove(worker));
        }
        let _ = self.waits.take(&worker);
    }

    /// There is a number for a new computation.
    pub fn has_room(&self) -> (r: bool)
        ensures
            r == (self@.graph.next < u32::MAX),
    {
        self.dep_graph.has_room()
    }

    /// Records that the innermost computation of a worker reads another.
    pub fn record_dep(&mut self, worker: u64, other: DepNodeIndex)
        requires
            old(self).wf(),
        ensures
            final(self).wf(),
            final(self)@ == old(self)@.read_by(worker, other),
    {
        self.read_for(worker, other);
    }

    /// Marks a computation dirty.
    pub fn invalidate_node(&mut self, node: DepNodeIndex)
        requires
            old(self).wf(),
        ensures
            final(self).wf(),
            final(self)@ == (Engine {
                graph: old(self)@.graph.invalidated(node),
                ..old(self)@
            }),
    {
        self.dep_graph.invalidate(node);
    }

    /// The computation of a query, where it is known.
    pub fn node(&self, q: u64, key: &K) -> (r: Option<DepNodeIndex>)
        requires
            self.wf(),
        ensures
            match r {
                Some(n) => self@.is_known(q, *key) && n == self@.nodes[(q, *key)],
                None => !self@.is_known(q, *key),
            },
    {
        match self.node_map.get(&(q, key.twin())) {
            Some(n) => Some(*n),
            None => None,
        }
    }

    /// Forgets the value of a query and marks its computation dirty.
    pub fn invalidate(&mut self, q: u64, key: &K)
        requires
            old(self).wf(),
        ensures
            final(self).wf(),
            final(self)@ == old(self)@.invalidated(q, *key),
    {
        if let Some(n) = self.node(q, key) {
            self.dep_graph.invalidate(n);
        }
        let ghost before = self.vtables@;
        match self.vtables.take(&q) {
            Some(t) => {
                let mut t = t;
                t.cache.remove(key);
                proof {
                    lemma_kind_put(before, q, t);
                }
                self.vtables.put(q, t);
            },
            None => {
                assert(self.vtables@ =~= before);
            },
        }
    }

    /// Forgets the values of one kind of query.
    pub fn clear(&mut self, q: u64)
        requires
            old(self).wf(),
        ensures
            final(self).wf(),
            final(self)@ == if old(self)@.kinds.dom().contains(q) {
                Engine {
                    kinds: old(self)@.kinds.insert(
                        q,
                        Kind { items: Seq::empty(), ..old(self)@.kinds[q] },
                    ),
                    ..old(self)@
                }
            } else {
                old(self)@
            },
    {
        let ghost before = self.vtables@;
        match self.vtables.take(&q) {
            Some(t) => {
                let mut t = t;
                t.cache.clear();
                assert(t.cache.items() =~= Seq::<(K, V)>::empty());
                proof {
                    lemma_kind_put(before, q, t);
                }
                self.vtables.put(q, t);
            },
            None => {
                assert(self.vtables@ =~= before);
            },
        }
    }

    /// Forgets everything but the names of the queries and the count of jobs.
    pub fn clear_all(&mut self)
        requires
            old(self).wf(),
        ensures
            final(self).wf(),
            final(self)@ == (Engine {
                names: old(self)@.names,
                next_job: old(self)@.next_job,
                ..Engine::<K, V>::none()
            }),
    {
        self.vtables.clear();
        self.node_map.clear();
        self.active_keys.clear();
        self.tasks.clear();
        self.waits.clear();
        self.dep_graph.reset();
        proof {
            assert forall|x: u64| #[trigger] engine::chain_ends(self.waits@, x) by {
                assert(engine::ends(self.waits@, x, 0));
            }
            assert(kinds_of(self.vtables@) =~= Map::<u64, Kind<K, V>>::empty());
            assert(runs_of(self.active_keys@) =~= Map::<(u64, K), Run>::empty());
            assert(stacks_of(self.tasks@) =~= Map::<u64, Seq<Task>>::empty());
            lemma_none_numbered(self.node_map@, self.dep_graph@.next);
        }
    }

    /// The names of the queries that have been asked for, one for each.
    pub fn list_queries(&self) -> (r: Vec<&'static str>)
        requires
            self.wf(),
        ensures
            exists|asked: Seq<u64>| #[trigger]
                assoc::is_listing(self@.names, asked) && r@ == Seq::new(
                    asked.len(),
                    |i: int| self@.names[asked[i]],
                ),
    {
        let names = self.query_names.values();
        let ghost asked = choose|asked: Seq<u64>| #[trigger]
            assoc::is_listing(self@.names, asked) && names@.len() == asked.len() && forall|i: int|
                0 <= i < names@.len() ==> *(#[trigger] names@[i]) == self@.names[asked[i]];
        let mut out: Vec<&'static str> = Vec::new();
        for i in 0..names.len()
            invariant
                out@.len() == i,
                forall|j: int| 0 <= j < i ==> #[trigger] out@[j] == *names@[j],
        {
            out.push(*names[i]);
        }
        assert(out@ =~= Seq::new(asked.len(), |i: int| self@.names[asked[i]])) by {
            assert forall|i: int| 0 <= i < out@.len() implies out@[i] == self@.names[asked[i]] by {
                assert(out@[i] == *names@[i]);
            }
        }
        out
    }
}

/// Being woken changes nothing about who waits.
proof fn lemma_woken_waits(waits: Map<u64, u64>, s: Seq<QueryWaiter>)
    ensures
        engine::without(waits, job::woken(s)) == engine::without(waits, s),
    decreases s.len(),
{
    if s.len() > 0 {
        lemma_woken_waits(waits, s.drop_last());
        assert(job::woken(s).drop_last() =~= job::woken(s.drop_last()));
        assert(job::woken(s).last().worker == s.last().worker);
    }
}

} // verus!
