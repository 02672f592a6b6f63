//! The query engine as mathematics: what each step does to its state.
use super::cache;
use super::dep_graph::{DepNodeIndex, Graph, Task, TaskStack};
use super::job;
use super::job::QueryWaiter;
use super::vtable;
use super::vtable::{CycleKind, Frame, Kind, QueryDescriptor, MAX_QUERY_DEPTH};
use vstd::prelude::*;

verus! {

/// What is known of a computation that is not over, or that has failed.
pub enum Run {
    Started { id: u64, node: DepNodeIndex, owner: u64, waiters: Seq<QueryWaiter> },
    Failed,
}

/// The state of the engine.
#[verifier::reject_recursive_types(K)]
#[verifier::ext_equal]
pub struct Engine<K, V> {
    pub graph: Graph,
    /// The computation of each query.
    pub nodes: Map<(u64, K), DepNodeIndex>,
    pub names: Map<u64, &'static str>,
    pub kinds: Map<u64, Kind<K, V>>,
    pub running: Map<(u64, K), Run>,
    /// The computations that each worker is in.
    pub tasks: Map<u64, Seq<Task>>,
    /// The worker that each waiting worker waits for.
    pub waits: Map<u64, u64>,
    pub next_job: u64,
}

/// What a request comes to.
pub enum Decision {
    /// The value is cached, and nothing that it depends on has changed.
    Hit,
    /// There is no value.
    Fail(CycleKind),
    /// Another worker is computing it.
    Wait(u64),
    /// It has to be computed.
    Compute,
}

/// Following the waiting workers from `x` comes to an end within `n` steps.
pub open spec fn ends(waits: Map<u64, u64>, x: u64, n: nat) -> bool
    decreases n,
{
    !waits.dom().contains(x) || (n > 0 && ends(waits, waits[x], (n - 1) as nat))
}

/// Following the waiting workers from `x` comes to an end.
pub open spec fn chain_ends(waits: Map<u64, u64>, x: u64) -> bool {
    exists|n: nat| ends(waits, x, n)
}

/// Every waiting worker waits, through others, for one that does not wait.
pub open spec fn settled(waits: Map<u64, u64>) -> bool {
    forall|x: u64| #[trigger] chain_ends(waits, x)
}

/// Following the waiting workers from `x` comes to `w` within `n` steps.
pub open spec fn reaches(waits: Map<u64, u64>, x: u64, w: u64, n: nat) -> bool
    decreases n,
{
    x == w || (n > 0 && waits.dom().contains(x) && reaches(waits, waits[x], w, (n - 1) as nat))
}

/// The worker `x` waits, through others, for `w`, or is `w`.
pub open spec fn waits_for(waits: Map<u64, u64>, x: u64, w: u64) -> bool {
    exists|n: nat| reaches(waits, x, w, n)
}

/// The waits without those of the workers that are woken.
pub open spec fn without(waits: Map<u64, u64>, woken: Seq<QueryWaiter>) -> Map<u64, u64>
    decreases woken.len(),
{
    if woken.len() == 0 {
        waits
    } else {
        without(waits, woken.drop_last()).remove(woken.last().worker)
    }
}

impl<K, V> Engine<K, V> {
    pub open spec fn none() -> Engine<K, V> {
        Engine {
            graph: Graph::none(),
            nodes: Map::empty(),
            names: Map::empty(),
            kinds: Map::empty(),
            running: Map::empty(),
            tasks: Map::empty(),
            waits: Map::empty(),
            next_job: 1,
        }
    }

    /// The computation of a query, where it is known.
    pub open spec fn is_known(self, q: u64, k: K) -> bool {
        self.nodes.dom().contains((q, k))
    }

    /// The computation of a query; a new one where none is known.
    pub open spec fn node_of(self, q: u64, k: K) -> DepNodeIndex {
        if self.is_known(q, k) {
            self.nodes[(q, k)]
        } else {
            DepNodeIndex(self.graph.next)
        }
    }

    /// The state in which the query has a name and a computation.
    pub open spec fn registered(self, q: u64, k: K, d: QueryDescriptor) -> Engine<K, V> {
        Engine {
            names: if self.names.dom().contains(q) {
                self.names
            } else {
                self.names.insert(q, d.name)
            },
            graph: if self.is_known(q, k) {
                self.graph
            } else {
                self.graph.allocated()
            },
            nodes: if self.is_known(q, k) {
                self.nodes
            } else {
                self.nodes.insert((q, k), DepNodeIndex(self.graph.next))
            },
            ..self
        }
    }

    /// The computations that a worker is in.
    pub open spec fn tasks_of(self, w: u64) -> Seq<Task> {
        if self.tasks.dom().contains(w) {
            self.tasks[w]
        } else {
            Seq::empty()
        }
    }

    /// The state once the innermost computation of a worker reads another.
    pub open spec fn read_by(self, w: u64, node: DepNodeIndex) -> Engine<K, V> {
        Engine { tasks: self.tasks.insert(w, TaskStack::reading(self.tasks_of(w), node)), ..self }
    }

    /// There is a cached value.
    pub open spec fn has_value(self, q: u64, k: K) -> bool {
        self.kinds.dom().contains(q) && cache::holds(self.kinds[q].items, k)
    }

    /// The cached value.
    pub open spec fn value(self, q: u64, k: K) -> V {
        self.kinds[q].items[cache::place(self.kinds[q].items, k)].1
    }

    /// The state once a value has been looked for.
    pub open spec fn looked_at(self, q: u64, k: K) -> Engine<K, V> {
        if self.kinds.dom().contains(q) {
            Engine {
                kinds: self.kinds.insert(
                    q,
                    Kind {
                        items: cache::looked_at(self.kinds[q].items, k),
                        counts: cache::counts_looked_at(
                            self.kinds[q].counts,
                            self.kinds[q].items,
                            k,
                        ),
                        ..self.kinds[q]
                    },
                ),
                ..self
            }
        } else {
            self
        }
    }

    /// The keys that a worker computes for one kind of query.
    pub open spec fn stack(self, q: u64, w: u64) -> Seq<K> {
        if self.kinds.dom().contains(q) {
            vtable::stack_of(self.kinds[q].active, w)
        } else {
            Seq::empty()
        }
    }

    /// Whether the cached value of `q` of the key `k` still holds is open as
    /// long as the query `p` of the key `l` has not been computed: the value
    /// depends on it, it is dirty, and nothing that it reads is.
    pub open spec fn is_open_input(self, q: u64, k: K, p: u64, l: K) -> bool {
        &&& self.is_known(q, k)
        &&& self.has_value(q, k)
        &&& !self.graph.dirty.contains(self.nodes[(q, k)])
        &&& self.is_known(p, l)
        &&& self.kinds.dom().contains(p)
        &&& !self.kinds[p].descriptor.eval_always
        &&& self.graph.reads_through(self.nodes[(q, k)], self.nodes[(p, l)])
        &&& self.graph.is_ripe(self.nodes[(p, l)])
    }

    /// The query `p` of the key `l` is to be computed first: of the open inputs
    /// it was asked for first.
    pub open spec fn comes_first(self, q: u64, k: K, p: u64, l: K) -> bool {
        &&& self.is_open_input(q, k, p, l)
        &&& forall|x: u64, y: K| #[trigger]
            self.is_open_input(q, k, x, y) ==> self.nodes[(p, l)].0 <= self.nodes[(x, y)].0
    }

    /// Computations are numbered, each query has its own, and no cache has two
    /// values for one key.
    pub open spec fn is_sound(self) -> bool {
        &&& forall|x: (u64, K)| #[trigger]
            self.nodes.dom().contains(x) ==> self.nodes[x].0 < self.graph.next
        &&& forall|x: (u64, K), y: (u64, K)| #[trigger]
            self.nodes.dom().contains(x) && #[trigger] self.nodes.dom().contains(y) && self.nodes[x]
                == self.nodes[y] ==> x == y
        &&& forall|q: u64| #[trigger]
            self.kinds.dom().contains(q) ==> cache::keys_differ(self.kinds[q].items)
    }

    /// The state in which what a worker computes is read by none of the
    /// computations that it is in.
    pub open spec fn aside(self, w: u64) -> Engine<K, V> {
        Engine {
            tasks: self.tasks.insert(
                w,
                self.tasks_of(w).push(Task { node: DepNodeIndex(0), reads: Set::empty() }),
            ),
            ..self
        }
    }

    /// The state in which a worker is back from computing aside.
    pub open spec fn turned_back(self, w: u64) -> Engine<K, V> {
        Engine {
            tasks: self.tasks.insert(
                w,
                if self.tasks_of(w).len() > 0 {
                    self.tasks_of(w).drop_last()
                } else {
                    self.tasks_of(w)
                },
            ),
            ..self
        }
    }

    /// What a request comes to.
    pub open spec fn decision(self, w: u64, q: u64, k: K, d: QueryDescriptor) -> Decision {
        let stack = self.stack(q, w);
        if !self.graph.is_stale(self.node_of(q, k)) && !d.eval_always && self.has_value(q, k) {
            Decision::Hit
        } else if stack.contains(k) {
            Decision::Fail(CycleKind::Cycle)
        } else if self.running.dom().contains((q, k)) {
            match self.running[(q, k)] {
                Run::Failed => Decision::Fail(CycleKind::PreviouslyPanicked),
                Run::Started { id, node, owner, waiters } => if d.eval_always {
                    self.own_decision(w, q, d)
                } else if waits_for(self.waits, owner, w) {
                    Decision::Fail(CycleKind::WaitCycle)
                } else {
                    Decision::Wait(owner)
                },
            }
        } else {
            self.own_decision(w, q, d)
        }
    }

    /// What a request comes to that no other worker answers.
    pub open spec fn own_decision(self, w: u64, q: u64, d: QueryDescriptor) -> Decision {
        if self.kind(q, d).descriptor.depth_limit && self.stack(q, w).len() >= MAX_QUERY_DEPTH {
            Decision::Fail(CycleKind::DepthLimit)
        } else {
            Decision::Compute
        }
    }

    /// The state once a worker waits for a query that another computes.
    pub open spec fn waiting(self, w: u64, q: u64, k: K) -> Engine<K, V> {
        match self.running[(q, k)] {
            Run::Started { id, node, owner, waiters } => Engine {
                running: self.running.insert(
                    (q, k),
                    Run::Started {
                        id,
                        node,
                        owner,
                        waiters: waiters.push(
                            QueryWaiter { parent: None, worker: w, completed: false },
                        ),
                    },
                ),
                waits: self.waits.insert(w, owner),
                ..self
            },
            Run::Failed => self,
        }
    }

    /// What is known of a kind of query; nothing yet, for a new one.
    pub open spec fn kind(self, q: u64, d: QueryDescriptor) -> Kind<K, V> {
        if self.kinds.dom().contains(q) {
            self.kinds[q]
        } else {
            Kind::fresh(d)
        }
    }

    /// The state once a worker computes a query.
    pub open spec fn computing(
        self,
        w: u64,
        q: u64,
        k: K,
        d: QueryDescriptor,
        node: DepNodeIndex,
    ) -> Engine<K, V> {
        let kind = self.kind(q, d);
        Engine {
            kinds: self.kinds.insert(
                q,
                Kind { active: kind.active.push(Frame { worker: w, key: k }), ..kind },
            ),
            running: if d.eval_always {
                self.running
            } else {
                self.running.insert(
                    (q, k),
                    Run::Started { id: self.next_job, node, owner: w, waiters: Seq::empty() },
                )
            },
            next_job: if d.eval_always {
                self.next_job
            } else {
                job::following(self.next_job)
            },
            tasks: self.tasks.insert(w, self.tasks_of(w).push(Task { node, reads: Set::empty() })),
            ..self
        }
    }

    /// The state after a request.
    pub open spec fn begun(self, w: u64, q: u64, k: K, d: QueryDescriptor) -> Engine<K, V> {
        let node = self.node_of(q, k);
        let s = self.registered(q, k, d);
        let t = if !s.graph.is_stale(node) && !d.eval_always {
            s.looked_at(q, k)
        } else {
            s
        };
        match s.decision(w, q, k, d) {
            Decision::Hit => t.read_by(w, node),
            Decision::Fail(_) => t,
            Decision::Wait(_) => t.waiting(w, q, k),
            Decision::Compute => t.computing(w, q, k, d, node),
        }
    }

    /// The state once the innermost computation of a worker is over, whatever
    /// came of it.
    pub open spec fn left(self, w: u64, q: u64, node: DepNodeIndex) -> Engine<K, V> {
        let tasks = self.tasks_of(w);
        let s = if tasks.len() > 0 {
            Engine {
                graph: self.graph.finished(tasks.last()),
                tasks: self.tasks.insert(w, tasks.drop_last()),
                ..self
            }
        } else {
            Engine { tasks: self.tasks.insert(w, tasks), ..self }
        };
        let t = s.read_by(w, node);
        if t.kinds.dom().contains(q) {
            Engine {
                kinds: t.kinds.insert(
                    q,
                    Kind { active: vtable::left(t.kinds[q].active, w), ..t.kinds[q] },
                ),
                ..t
            }
        } else {
            t
        }
    }

    /// The workers that wait for a query.
    pub open spec fn waiters(self, q: u64, k: K) -> Seq<QueryWaiter> {
        if self.running.dom().contains((q, k)) {
            match self.running[(q, k)] {
                Run::Started { id, node, owner, waiters } => waiters,
                Run::Failed => Seq::empty(),
            }
        } else {
            Seq::empty()
        }
    }

    /// The graph with the fingerprint of a new value: where it differs from
    /// that of the last, the direct readers are dirty.
    pub open spec fn compared(graph: Graph, node: DepNodeIndex, fp: u64) -> Graph {
        let before = graph.fingerprint_of(node);
        let g = graph.with_fingerprint(node, fp);
        if before is Some && before->0 != fp {
            g.with_dirty_readers(node)
        } else {
            g
        }
    }

    /// The state once a value has been computed.
    pub open spec fn ended(
        self,
        w: u64,
        q: u64,
        k: K,
        d: QueryDescriptor,
        node: DepNodeIndex,
        v: V,
        fp: u64,
    ) -> Engine<K, V> {
        let s = self.left(w, q, node);
        if d.eval_always {
            s
        } else {
            let kind = s.kind(q, d);
            Engine {
                running: s.running.remove((q, k)),
                waits: without(s.waits, s.waiters(q, k)),
                kinds: s.kinds.insert(
                    q,
                    Kind {
                        items: cache::stored(kind.items, k, v, kind.capacity),
                        counts: cache::counts_stored(kind.counts, kind.items, k, kind.capacity),
                        ..kind
                    },
                ),
                graph: Engine::<K, V>::compared(s.graph, node, fp).greened(node),
                ..s
            }
        }
    }

    /// The state once a computation has failed.
    pub open spec fn failed(self, w: u64, q: u64, k: K, node: DepNodeIndex) -> Engine<K, V> {
        let s = self.left(w, q, node);
        Engine {
            running: s.running.insert((q, k), Run::Failed),
            waits: without(s.waits, s.waiters(q, k)),
            ..s
        }
    }

    /// The state once a query has been invalidated.
    pub open spec fn invalidated(self, q: u64, k: K) -> Engine<K, V> {
        let s = if self.is_known(q, k) {
            Engine { graph: self.graph.invalidated(self.nodes[(q, k)]), ..self }
        } else {
            self
        };
        if s.kinds.dom().contains(q) {
            Engine {
                kinds: s.kinds.insert(
                    q,
                    Kind { items: cache::without(s.kinds[q].items, k), ..s.kinds[q] },
                ),
                ..s
            }
        } else {
            s
        }
    }
}

// ---------------------------------------------------------------------------
// Laws
// ---------------------------------------------------------------------------

/// Following a chain that does not come to `w` is the same with a wait of `w`.
proof fn lemma_chain_apart(waits: Map<u64, u64>, w: u64, o: u64, x: u64, n: nat)
    requires
        ends(waits, x, n),
        !waits_for(waits, x, w),
    ensures
        ends(waits.insert(w, o), x, n),
    decreases n,
{
    assert(reaches(waits, x, w, 0) ==> waits_for(waits, x, w));
    assert(x != w);
    if waits.dom().contains(x) {
        let y = waits[x];
        if waits_for(waits, y, w) {
            let m = choose|m: nat| reaches(waits, y, w, m);
            assert(reaches(waits, x, w, m + 1));
        }
        lemma_chain_apart(waits, w, o, y, (n - 1) as nat);
    }
}

proof fn lemma_chain_through(waits: Map<u64, u64>, w: u64, o: u64, x: u64, n: nat)
    requires
        ends(waits, x, n),
        settled(waits),
        !waits_for(waits, o, w),
    ensures
        chain_ends(waits.insert(w, o), x),
    decreases n,
{
    let after_wait = waits.insert(w, o);
    if x == w {
        assert(chain_ends(waits, o));
        let m = choose|m: nat| ends(waits, o, m);
        lemma_chain_apart(waits, w, o, o, m);
        assert(ends(after_wait, x, m + 1));
    } else if waits.dom().contains(x) {
        lemma_chain_through(waits, w, o, waits[x], (n - 1) as nat);
        let m = choose|m: nat| ends(after_wait, waits[x], m);
        assert(ends(after_wait, x, m + 1));
    } else {
        assert(ends(after_wait, x, 0));
    }
}

/// No worker waits for itself through others: a worker that begins to wait
/// only where the one that it waits for does not wait for it leaves every
/// chain of waits with an end.
pub proof fn law_waiting_does_not_wedge(waits: Map<u64, u64>, w: u64, owner: u64)
    requires
        settled(waits),
        !waits_for(waits, owner, w),
    ensures
        settled(waits.insert(w, owner)),
{
    assert forall|x: u64| #[trigger] chain_ends(waits.insert(w, owner), x) by {
        assert(chain_ends(waits, x));
        let n = choose|n: nat| ends(waits, x, n);
        lemma_chain_through(waits, w, owner, x, n);
    }
}

proof fn lemma_chain_shorter(waits: Map<u64, u64>, w: u64, x: u64, n: nat)
    requires
        ends(waits, x, n),
    ensures
        ends(waits.remove(w), x, n),
    decreases n,
{
    if waits.remove(w).dom().contains(x) {
        lemma_chain_shorter(waits, w, waits[x], (n - 1) as nat);
    }
}

/// Waking workers leaves every chain of waits with an end.
pub proof fn law_waking_does_not_wedge(waits: Map<u64, u64>, woken: Seq<QueryWaiter>)
    requires
        settled(waits),
    ensures
        settled(without(waits, woken)),
    decreases woken.len(),
{
    if woken.len() > 0 {
        let before = without(waits, woken.drop_last());
        law_waking_does_not_wedge(waits, woken.drop_last());
        let w = woken.last().worker;
        assert forall|x: u64| #[trigger] chain_ends(before.remove(w), x) by {
            assert(chain_ends(before, x));
            let n = choose|n: nat| ends(before, x, n);
            lemma_chain_shorter(before, w, x, n);
        }
    }
}

/// A cached value is handed out only where nothing that it depends on,
/// directly or through others, is dirty.
pub proof fn law_hits_are_fresh<K, V>(
    s: Engine<K, V>,
    w: u64,
    q: u64,
    k: K,
    d: QueryDescriptor,
    path: Seq<DepNodeIndex>,
)
    requires
        s.decision(w, q, k, d) == Decision::Hit,
        s.graph.is_path(path),
        path[0] == s.node_of(q, k),
    ensures
        !s.graph.dirty.contains(path.last()),
        s.has_value(q, k),
        !d.eval_always,
{
    if s.graph.dirty.contains(path.last()) {
        assert(s.graph.leads_to_dirty(s.node_of(q, k), path));
    }
}

/// A query that the worker computes already is a cycle, however it came to be
/// asked again.
pub proof fn law_cycles_are_reported<K, V>(
    s: Engine<K, V>,
    w: u64,
    q: u64,
    k: K,
    d: QueryDescriptor,
)
    requires
        s.stack(q, w).contains(k),
    ensures
        s.decision(w, q, k, d) == Decision::Hit || s.decision(w, q, k, d) == Decision::Fail(
            CycleKind::Cycle,
        ),
{
}

/// What is found once a value has been computed is that value, and the query
/// is no longer running.
pub proof fn law_computed_value_is_found<K, V>(
    s: Engine<K, V>,
    w: u64,
    q: u64,
    k: K,
    d: QueryDescriptor,
    node: DepNodeIndex,
    v: V,
    fp: u64,
)
    requires
        !d.eval_always,
        cache::keys_differ(s.left(w, q, node).kind(q, d).items),
    ensures
        s.ended(w, q, k, d, node, v, fp).has_value(q, k),
        s.ended(w, q, k, d, node, v, fp).value(q, k) == v,
        !s.ended(w, q, k, d, node, v, fp).running.dom().contains((q, k)),
        !s.ended(w, q, k, d, node, v, fp).graph.dirty.contains(node),
{
    let kind = s.left(w, q, node).kind(q, d);
    cache::law_stored_is_found(kind.items, k, v, kind.capacity);
}

/// A value with the fingerprint of the last leaves every other computation as
/// it is; another fingerprint dirties the direct readers, and no others.
pub proof fn law_unchanged_value_keeps_readers(
    g: Graph,
    node: DepNodeIndex,
    fp: u64,
    other: DepNodeIndex,
)
    requires
        other != node,
    ensures
        ({
            let after_value = Engine::<u64, u64>::compared(g, node, fp).greened(node);
            let changed = g.fingerprint_of(node) is Some && g.fingerprint_of(node)->0 != fp;
            after_value.dirty.contains(other) <==> g.dirty.contains(other) || (changed
                && g.readers_of(node).contains(other))
        }),
{
}

/// A value with another fingerprint than the last reaches the readers: none of
/// them is answered from the cache.
pub proof fn law_changed_value_reaches_readers<K, V>(
    s: Engine<K, V>,
    w: u64,
    q: u64,
    k: K,
    d: QueryDescriptor,
    node: DepNodeIndex,
    v: V,
    fp: u64,
    p: u64,
    l: K,
    u: u64,
    e: QueryDescriptor,
)
    requires
        !d.eval_always,
        s.left(w, q, node).graph.fingerprint_of(node) is Some,
        s.left(w, q, node).graph.fingerprint_of(node)->0 != fp,
        s.is_known(p, l),
        s.nodes[(p, l)] != node,
        s.left(w, q, node).graph.readers_of(node).contains(s.nodes[(p, l)]),
    ensures
        s.ended(w, q, k, d, node, v, fp).decision(u, p, l, e) != Decision::Hit,
{
    let t = s.ended(w, q, k, d, node, v, fp);
    let reader = s.nodes[(p, l)];
    assert(t.graph.dirty.contains(reader));
    assert(t.graph.leads_to_dirty(reader, seq![reader]));
}

/// A value with the fingerprint of the last does not reach the readers: one
/// whose value waited for this query alone is answered from the cache.
pub proof fn law_unchanged_value_spares_readers<K, V>(
    s: Engine<K, V>,
    w: u64,
    q: u64,
    k: K,
    d: QueryDescriptor,
    node: DepNodeIndex,
    v: V,
    fp: u64,
    p: u64,
    l: K,
    u: u64,
    e: QueryDescriptor,
)
    requires
        !d.eval_always,
        !e.eval_always,
        s.left(w, q, node).graph.fingerprint_of(node) == Some(fp),
        s.is_known(p, l),
        s.ended(w, q, k, d, node, v, fp).has_value(p, l),
        forall|path: Seq<DepNodeIndex>| #[trigger]
            s.left(w, q, node).graph.leads_to_dirty(s.nodes[(p, l)], path) ==> path.last() == node,
    ensures
        s.ended(w, q, k, d, node, v, fp).decision(u, p, l, e) == Decision::Hit,
{
    let g = s.left(w, q, node).graph;
    let t = s.ended(w, q, k, d, node, v, fp);
    let reader = s.nodes[(p, l)];
    if t.graph.is_stale(reader) {
        let path = choose|path: Seq<DepNodeIndex>| t.graph.leads_to_dirty(reader, path);
        assert(g.is_path(path)) by {
            assert forall|i: int| 0 <= i < path.len() - 1 implies g.reads_of(
                #[trigger] path[i],
            ).contains(path[i + 1]) by {
                assert(t.graph.reads_of(path[i]).contains(path[i + 1]));
            }
        }
        assert(g.leads_to_dirty(reader, path));
    }
}

/// A query whose computation has failed fails from then on.
pub proof fn law_failure_stays<K, V>(
    s: Engine<K, V>,
    w: u64,
    q: u64,
    k: K,
    node: DepNodeIndex,
    u: u64,
    d: QueryDescriptor,
)
    ensures
        s.failed(w, q, k, node).decision(u, q, k, d) == Decision::Hit || s.failed(
            w,
            q,
            k,
            node,
        ).decision(u, q, k, d) is Fail,
{
}

/// A query that has been invalidated is not answered from the cache.
pub proof fn law_invalidated_is_computed_again<K, V>(
    s: Engine<K, V>,
    q: u64,
    k: K,
    w: u64,
    d: QueryDescriptor,
)
    requires
        s.is_known(q, k),
    ensures
        s.invalidated(q, k).decision(w, q, k, d) != Decision::Hit,
{
    let t = s.invalidated(q, k);
    let node = s.nodes[(q, k)];
    assert(t.graph.leads_to_dirty(node, seq![node]));
}

/// Invalidating a query leaves a cached value that does not depend on it
/// cached.
pub proof fn law_invalidation_spares_others<K, V>(
    s: Engine<K, V>,
    q: u64,
    k: K,
    p: u64,
    l: K,
    w: u64,
    d: QueryDescriptor,
)
    requires
        s.decision(w, p, l, d) == Decision::Hit,
        s.is_known(q, k),
        s.is_known(p, l),
        (p, l) != (q, k),
        !s.graph.reads_through(s.nodes[(p, l)], s.nodes[(q, k)]),
        s.kinds.dom().contains(q) ==> cache::keys_differ(s.kinds[q].items),
    ensures
        s.invalidated(q, k).decision(w, p, l, d) == Decision::Hit,
        s.invalidated(q, k).value(p, l) == s.value(p, l),
{
    let t = s.invalidated(q, k);
    let node = s.nodes[(p, l)];
    if t.graph.is_stale(node) {
        let path = choose|path: Seq<DepNodeIndex>| t.graph.leads_to_dirty(node, path);
        assert(s.graph.is_path(path)) by {
            assert forall|i: int| 0 <= i < path.len() - 1 implies s.graph.reads_of(
                #[trigger] path[i],
            ).contains(path[i + 1]) by {
                assert(t.graph.reads_of(path[i]).contains(path[i + 1]));
            }
        }
        if path.last() == s.nodes[(q, k)] {
            assert(s.graph.leads_to(node, path, s.nodes[(q, k)]));
        } else {
            assert(s.graph.leads_to_dirty(node, path));
        }
    }
    if p == q {
        cache::law_forgetting_is_exact(s.kinds[q].items, k, l);
    }
}

} // verus!
