//! Which computation reads the results of which others.
use super::node_set::NodeSet;
use crate::keyset::{Key, KeySet};
use vstd::prelude::*;

verus! {

/// The number of a computation.
#[derive(Clone, Copy, Debug, PartialEq, Eq, Structural, Hash, PartialOrd, Ord)]
pub struct DepNodeIndex(pub u32);

impl Key for DepNodeIndex {
    fn twin(&self) -> (r: Self) {
        *self
    }

    fn same(&self, other: &Self) -> (r: bool) {
        self.0 == other.0
    }
}

/// What a running computation has read so far.
pub struct TaskDeps {
    pub current_node: DepNodeIndex,
    pub reads: NodeSet,
}

/// Numbers in ascending order, each once.
pub open spec fn ascending(s: Seq<DepNodeIndex>) -> bool {
    forall|i: int, j: int| 0 <= i < j < s.len() ==> (#[trigger] s[i]).0 < (#[trigger] s[j]).0
}

/// Puts a number where it belongs.
fn insert_sorted(v: &mut Vec<DepNodeIndex>, x: DepNodeIndex)
    requires
        ascending(old(v)@),
        !old(v)@.contains(x),
    ensures
        ascending(final(v)@),
        final(v)@.to_set() == old(v)@.to_set().insert(x),
{
    let mut i: usize = 0;
    while i < v.len() && v[i].0 < x.0
        invariant
            i <= v@.len(),
            v@ == old(v)@,
            ascending(v@),
            forall|j: int| 0 <= j < i ==> (#[trigger] v@[j]).0 < x.0,
        decreases v.len() - i,
    {
        i = i + 1;
    }
    let ghost before = v@;
    v.insert(i, x);
    proof {
        let after = v@;
        assert forall|j: int| i <= j < before.len() implies (#[trigger] before[j]).0 > x.0 by {
            if before[j].0 == x.0 {
                assert(before[j] == x);
                assert(before.contains(x));
            }
            if j > i {
                assert(before[i as int].0 < before[j].0);
                if before[i as int].0 == x.0 {
                    assert(before[i as int] == x);
                    assert(before.contains(x));
                }
            }
        }
        assert forall|a: int, b: int| 0 <= a < b < after.len() implies (#[trigger] after[a]).0 < (
        #[trigger] after[b]).0 by {
            let p = if a < i {
                a
            } else {
                a - 1
            };
            let q = if b < i {
                b
            } else {
                b - 1
            };
            if a != i {
                assert(after[a] == before[p]);
            }
            if b != i {
                assert(after[b] == before[q]);
            }
            if a != i && b != i {
                assert(before[p].0 < before[q].0);
            }
        }
        assert forall|y: DepNodeIndex| after.to_set().contains(y) <==> before.to_set().insert(
            x,
        ).contains(y) by {
            if after.contains(y) {
                let a = choose|a: int| 0 <= a < after.len() && after[a] == y;
                if a < i {
                    assert(before[a] == y);
                } else if a > i {
                    assert(before[a - 1] == y);
                }
            }
            if before.contains(y) {
                let a = choose|a: int| 0 <= a < before.len() && before[a] == y;
                if a < i {
                    assert(after[a] == y);
                } else {
                    assert(after[a + 1] == y);
                }
            }
            assert(after[i as int] == x);
        }
        assert(after.to_set() =~= before.to_set().insert(x));
    }
}

impl TaskDeps {
    /// What has been read.
    pub open spec fn seen(&self) -> Set<DepNodeIndex> {
        self.reads@
    }

    pub fn new(current_node: DepNodeIndex) -> (r: Self)
        ensures
            r.current_node == current_node,
            r.seen() == Set::<DepNodeIndex>::empty(),
    {
        TaskDeps { current_node, reads: NodeSet::new() }
    }

    /// Records a read; a computation does not read itself.
    pub fn read(&mut self, other: DepNodeIndex)
        ensures
            final(self).current_node == old(self).current_node,
            final(self).seen() == if other == old(self).current_node {
                old(self).seen()
            } else {
                old(self).seen().insert(other)
            },
    {
        if other.0 != self.current_node.0 {
            self.reads.insert(other);
        }
    }

    /// What has been read, in ascending order.
    pub fn into_reads(self) -> (r: Vec<DepNodeIndex>)
        ensures
            ascending(r@),
            r@.to_set() == self.seen(),
    {
        let mut out: Vec<DepNodeIndex> = Vec::new();
        let listed = self.reads.listing();
        let ghost all = listed@;
        for i in 0..listed.len()
            invariant
                all == listed@,
                all.no_duplicates(),
                ascending(out@),
                out@.to_set() == all.take(i as int).to_set(),
        {
            let x = listed[i];
            proof {
                if out@.contains(x) {
                    assert(out@.to_set().contains(x));
                    let j = choose|j: int|
                        0 <= j < all.take(i as int).len() && all.take(i as int)[j] == x;
                    assert(all[j] == all[i as int]);
                }
                lemma_take_next(all, i as int);
            }
            insert_sorted(&mut out, x);
        }
        assert(all.take(all.len() as int) =~= all);
        out
    }

    pub fn current_node(&self) -> (r: DepNodeIndex)
        ensures
            r == self.current_node,
    {
        self.current_node
    }
}

proof fn lemma_take_next(all: Seq<DepNodeIndex>, i: int)
    requires
        0 <= i < all.len(),
    ensures
        all.take(i + 1).to_set() == all.take(i).to_set().insert(all[i]),
{
    let a = all.take(i);
    let b = all.take(i + 1);
    assert forall|y: DepNodeIndex| b.to_set().contains(y) <==> a.to_set().insert(
        all[i],
    ).contains(y) by {
        if b.contains(y) {
            let k = choose|k: int| 0 <= k < b.len() && b[k] == y;
            if k < i {
                assert(a[k] == y);
            }
        }
        if a.contains(y) {
            let k = choose|k: int| 0 <= k < a.len() && a[k] == y;
            assert(b[k] == y);
        }
        assert(b[i] == all[i]);
    }
    assert(b.to_set() =~= a.to_set().insert(all[i]));
}

/// The computations that a worker is in, the outermost first.
pub struct TaskStack {
    tasks: Vec<TaskDeps>,
}

/// A running computation and what it has read.
pub struct Task {
    pub node: DepNodeIndex,
    pub reads: Set<DepNodeIndex>,
}

impl View for TaskStack {
    type V = Seq<Task>;

    closed spec fn view(&self) -> Seq<Task> {
        Seq::new(
            self.tasks@.len(),
            |i: int| Task { node: self.tasks@[i].current_node, reads: self.tasks@[i].seen() },
        )
    }
}

impl TaskStack {
    pub fn new() -> (r: Self)
        ensures
            r@ == Seq::<Task>::empty(),
    {
        let r = TaskStack { tasks: Vec::new() };
        assert(r@ =~= Seq::<Task>::empty());
        r
    }

    /// Begins a computation.
    pub fn start_task(&mut self, node: DepNodeIndex)
        ensures
            final(self)@ == old(self)@.push(Task { node, reads: Set::empty() }),
    {
        self.tasks.push(TaskDeps::new(node));
        assert(self@ =~= old(self)@.push(Task { node, reads: Set::empty() }));
    }

    /// The stack once the innermost computation has read another.
    pub open spec fn reading(tasks: Seq<Task>, other: DepNodeIndex) -> Seq<Task> {
        if tasks.len() == 0 || tasks.last().node == other {
            tasks
        } else {
            tasks.update(
                tasks.len() - 1,
                Task { node: tasks.last().node, reads: tasks.last().reads.insert(other) },
            )
        }
    }

    /// Records that the innermost computation reads another; nothing, where
    /// there is no computation.
    pub fn read(&mut self, other: DepNodeIndex)
        ensures
            final(self)@ == TaskStack::reading(old(self)@, other),
    {
        let n: usize = self.tasks.len();
        if n > 0 {
            self.tasks[n - 1].read(other);
        }
        assert(self@ =~= TaskStack::reading(old(self)@, other));
    }

    /// The innermost computation.
    pub fn current_node(&self) -> (r: Option<DepNodeIndex>)
        ensures
            r == if self@.len() == 0 {
                None
            } else {
                Some(self@.last().node)
            },
    {
        let n: usize = self.tasks.len();
        if n > 0 {
            Some(self.tasks[n - 1].current_node())
        } else {
            None
        }
    }

    /// Ends the innermost computation.
    pub(crate) fn pop(&mut self) -> (r: Option<TaskDeps>)
        ensures
            match r {
                Some(t) => old(self)@.len() > 0 && old(self)@.last().node
                    == t.current_node && old(self)@.last().reads == t.seen() && final(self)@
                    == old(self)@.drop_last(),
                None => old(self)@.len() == 0 && final(self)@ == old(self)@,
            },
    {
        let ghost before = self.tasks@;
        let r = self.tasks.pop();
        proof {
            if before.len() > 0 {
                assert(self@ =~= old(self)@.drop_last());
                assert(old(self)@.last().node == before.last().current_node);
            }
        }
        r
    }

    /// Forgets every computation.
    pub fn clear(&mut self)
        ensures
            final(self)@ == Seq::<Task>::empty(),
    {
        self.tasks.clear();
        assert(self@ =~= Seq::<Task>::empty());
    }
}

/// A dependency graph.
pub struct Graph {
    pub next: u32,
    /// What each computation has read.
    pub edges: Seq<Set<DepNodeIndex>>,
    /// What has read each computation.
    pub readers: Seq<Set<DepNodeIndex>>,
    pub dirty: Set<DepNodeIndex>,
    pub fingerprints: Seq<Option<u64>>,
}

/// A sequence made at least so long.
pub open spec fn grown<T>(s: Seq<T>, n: nat, x: T) -> Seq<T> {
    Seq::new(
        if s.len() < n {
            n
        } else {
            s.len()
        },
        |i: int|
            if i < s.len() {
                s[i]
            } else {
                x
            },
    )
}

impl Graph {
    pub open spec fn none() -> Graph {
        Graph {
            next: 1,
            edges: Seq::empty(),
            readers: Seq::empty(),
            dirty: Set::empty(),
            fingerprints: Seq::empty(),
        }
    }

    /// The graph with one more computation.
    pub open spec fn allocated(self) -> Graph {
        let n = (self.next + 1) as nat;
        Graph {
            next: (self.next + 1) as u32,
            edges: grown(self.edges, n, Set::empty()),
            readers: grown(self.readers, n, Set::empty()),
            fingerprints: if self.edges.len() < n {
                grown(self.fingerprints, n, None)
            } else {
                self.fingerprints
            },
            ..self
        }
    }

    /// The graph with the reads of a computation.
    pub open spec fn finished(self, t: Task) -> Graph {
        let n = (t.node.0 + 1) as nat;
        let edges = grown(self.edges, n, Set::empty());
        let readers = grown(self.readers, n, Set::empty());
        Graph {
            edges: edges.update(t.node.0 as int, edges[t.node.0 as int].union(t.reads)),
            readers: Seq::new(
                readers.len(),
                |i: int|
                    if i <= u32::MAX && t.reads.contains(DepNodeIndex(i as u32)) {
                        readers[i].insert(t.node)
                    } else {
                        readers[i]
                    },
            ),
            ..self
        }
    }

    pub open spec fn invalidated(self, node: DepNodeIndex) -> Graph {
        Graph { dirty: self.dirty.insert(node), ..self }
    }

    /// What reads a computation directly.
    pub open spec fn readers_of(self, node: DepNodeIndex) -> Set<DepNodeIndex> {
        if node.0 < self.readers.len() {
            self.readers[node.0 as int]
        } else {
            Set::empty()
        }
    }

    /// What a computation reads directly.
    pub open spec fn reads_of(self, node: DepNodeIndex) -> Set<DepNodeIndex> {
        if node.0 < self.edges.len() {
            self.edges[node.0 as int]
        } else {
            Set::empty()
        }
    }

    /// The graph once the direct readers of a computation are dirty.
    pub open spec fn with_dirty_readers(self, node: DepNodeIndex) -> Graph {
        Graph { dirty: self.dirty.union(self.readers_of(node)), ..self }
    }

    pub open spec fn fingerprint_of(self, node: DepNodeIndex) -> Option<u64> {
        if node.0 < self.fingerprints.len() {
            self.fingerprints[node.0 as int]
        } else {
            None
        }
    }

    pub open spec fn with_fingerprint(self, node: DepNodeIndex, fp: u64) -> Graph {
        Graph {
            fingerprints: grown(self.fingerprints, (node.0 + 1) as nat, None).update(
                node.0 as int,
                Some(fp),
            ),
            ..self
        }
    }

    pub open spec fn greened(self, node: DepNodeIndex) -> Graph {
        Graph { dirty: self.dirty.remove(node), ..self }
    }

    /// Each computation of the path reads the next.
    pub open spec fn is_path(self, path: Seq<DepNodeIndex>) -> bool {
        &&& path.len() > 0
        &&& forall|i: int|
            0 <= i < path.len() - 1 ==> self.reads_of(#[trigger] path[i]).contains(path[i + 1])
    }

    /// The path leads from a computation to another.
    pub open spec fn leads_to(
        self,
        node: DepNodeIndex,
        path: Seq<DepNodeIndex>,
        other: DepNodeIndex,
    ) -> bool {
        self.is_path(path) && path[0] == node && path.last() == other
    }

    /// A computation is the other, or reads it, directly or through others.
    pub open spec fn reads_through(self, node: DepNodeIndex, other: DepNodeIndex) -> bool {
        exists|path: Seq<DepNodeIndex>| self.leads_to(node, path, other)
    }

    /// A computation is dirty, and nothing that it reads is stale.
    pub open spec fn is_ripe(self, node: DepNodeIndex) -> bool {
        &&& self.dirty.contains(node)
        &&& forall|x: DepNodeIndex| #[trigger]
            self.reads_of(node).contains(x) ==> !self.is_stale(x)
    }

    /// The path leads from a computation to one that is dirty.
    pub open spec fn leads_to_dirty(self, node: DepNodeIndex, path: Seq<DepNodeIndex>) -> bool {
        self.is_path(path) && path[0] == node && self.dirty.contains(path.last())
    }

    /// Something that a computation reads, directly or through others, is
    /// dirty, or the computation itself is.
    pub open spec fn is_stale(self, node: DepNodeIndex) -> bool {
        exists|path: Seq<DepNodeIndex>| self.leads_to_dirty(node, path)
    }
}

/// The dependency graph.
pub struct DepGraph {
    next_index: u32,
    edges: Vec<NodeSet>,
    pub rev_edges: Vec<NodeSet>,
    dirty: NodeSet,
    fingerprints: Vec<Option<u64>>,
}

/// The sets in a row.
pub open spec fn sets(v: Seq<NodeSet>) -> Seq<Set<DepNodeIndex>> {
    Seq::new(v.len(), |i: int| v[i]@)
}

fn grow_sets(v: &mut Vec<NodeSet>, n: usize)
    ensures
        sets(final(v)@) == grown(sets(old(v)@), n as nat, Set::empty()),
        final(v)@.len() == if old(v)@.len() < n {
            n as nat
        } else {
            old(v)@.len()
        },
{
    while v.len() < n
        invariant
            v@.len() <= if old(v)@.len() < n {
                n as nat
            } else {
                old(v)@.len()
            },
            v@.len() >= old(v)@.len(),
            forall|i: int| 0 <= i < old(v)@.len() ==> #[trigger] v@[i] == old(v)@[i],
            forall|i: int|
                old(v)@.len() <= i < v@.len() ==> (#[trigger] v@[i])@ == Set::<
                    DepNodeIndex,
                >::empty(),
        decreases n - v.len(),
    {
        v.push(NodeSet::new());
    }
    assert(sets(v@) =~= grown(sets(old(v)@), n as nat, Set::empty()));
}

fn grow_fingerprints(v: &mut Vec<Option<u64>>, n: usize)
    ensures
        final(v)@ == grown(old(v)@, n as nat, None),
{
    while v.len() < n
        invariant
            v@.len() <= if old(v)@.len() < n {
                n as nat
            } else {
                old(v)@.len()
            },
            v@.len() >= old(v)@.len(),
            forall|i: int| 0 <= i < old(v)@.len() ==> #[trigger] v@[i] == old(v)@[i],
            forall|i: int| old(v)@.len() <= i < v@.len() ==> #[trigger] v@[i] is None,
        decreases n - v.len(),
    {
        v.push(None);
    }
    assert(v@ =~= grown(old(v)@, n as nat, None));
}

impl View for DepGraph {
    type V = Graph;

    closed spec fn view(&self) -> Graph {
        Graph {
            next: self.next_index,
            edges: sets(self.edges@),
            readers: sets(self.rev_edges@),
            dirty: self.dirty@,
            fingerprints: self.fingerprints@,
        }
    }
}

impl DepGraph {
    pub closed spec fn wf(&self) -> bool {
        self.edges@.len() == self.rev_edges@.len()
    }

    pub fn new() -> (r: Self)
        ensures
            r.wf(),
            r@ == Graph::none(),
    {
        let r = DepGraph {
            next_index: 1,
            edges: Vec::new(),
            rev_edges: Vec::new(),
            dirty: NodeSet::new(),
            fingerprints: Vec::new(),
        };
        assert(r@.edges =~= Graph::none().edges);
        assert(r@.readers =~= Graph::none().readers);
        assert(r@.fingerprints =~= Graph::none().fingerprints);
        r
    }

    /// There is a number for a new computation.
    pub fn has_room(&self) -> (r: bool)
        ensures
            r == (self@.next < u32::MAX),
    {
        self.next_index < u32::MAX
    }

    /// A new computation.
    pub fn allocate_node_index(&mut self) -> (r: DepNodeIndex)
        requires
            old(self).wf(),
            old(self)@.next < u32::MAX,
        ensures
            final(self).wf(),
            r == DepNodeIndex(old(self)@.next),
            final(self)@ == old(self)@.allocated(),
    {
        let idx: u32 = self.next_index;
        self.next_index = idx + 1;
        let n: usize = idx as usize + 1;
        if n > self.edges.len() {
            grow_fingerprints(&mut self.fingerprints, n);
        }
        grow_sets(&mut self.edges, n);
        grow_sets(&mut self.rev_edges, n);
        DepNodeIndex(idx)
    }

    /// Ends the innermost computation of a worker and keeps what it has read.
    pub fn finish_task(&mut self, stack: &mut TaskStack)
        requires
            old(self).wf(),
            old(stack)@.len() > 0 ==> old(stack)@.last().node.0 < u32::MAX,
        ensures
            final(self).wf(),
            old(stack)@.len() == 0 ==> final(self)@ == old(self)@ && final(stack)@ == old(stack)@,
            old(stack)@.len() > 0 ==> final(self)@ == old(self)@.finished(old(stack)@.last())
                && final(stack)@ == old(stack)@.drop_last(),
    {
        match stack.pop() {
            Some(task) => {
                let node = task.current_node();
                let ghost t = Task { node, reads: task.seen() };
                let reads = task.into_reads();
                let n: usize = node.0 as usize + 1;
                grow_sets(&mut self.edges, n);
                grow_sets(&mut self.rev_edges, n);
                self.add_edges(node, &reads);
                proof {
                    assert(old(stack)@.last().node == t.node);
                    assert(old(stack)@.last().reads == t.reads);
                    assert(old(stack)@.last() == t);
                }
            },
            None => {},
        }
    }

    /// Adds what a computation has read.
    fn add_edges(&mut self, node: DepNodeIndex, reads: &Vec<DepNodeIndex>)
        requires
            old(self).wf(),
            node.0 < old(self).edges@.len(),
        ensures
            final(self).wf(),
            final(self)@ == (Graph {
                edges: old(self)@.edges.update(
                    node.0 as int,
                    old(self)@.edges[node.0 as int].union(reads@.to_set()),
                ),
                readers: Seq::new(
                    old(self)@.readers.len(),
                    |i: int|
                        if i <= u32::MAX && reads@.to_set().contains(DepNodeIndex(i as u32)) {
                            old(self)@.readers[i].insert(node)
                        } else {
                            old(self)@.readers[i]
                        },
                ),
                ..old(self)@
            }),
    {
        let ghost before = self@;
        let ghost at = node.0 as int;
        proof {
            assert(reads@.take(0).to_set() =~= Set::<DepNodeIndex>::empty());
            assert(before.edges[at].union(reads@.take(0).to_set()) =~= before.edges[at]);
            assert(before.edges.update(at, before.edges[at]) =~= before.edges);
        }
        for k in 0..reads.len()
            invariant
                self.wf(),
                before == old(self)@,
                at == node.0 as int,
                0 <= at < before.edges.len(),
                self@.next == before.next,
                self@.dirty == before.dirty,
                self@.fingerprints == before.fingerprints,
                self@.edges.len() == before.edges.len(),
                self@.readers.len() == before.readers.len(),
                self@.edges == before.edges.update(
                    at,
                    before.edges[at].union(reads@.take(k as int).to_set()),
                ),
                forall|i: int|
                    0 <= i < before.readers.len() ==> #[trigger] self@.readers[i] == if i
                        <= u32::MAX && reads@.take(k as int).to_set().contains(
                        DepNodeIndex(i as u32),
                    ) {
                        before.readers[i].insert(node)
                    } else {
                        before.readers[i]
                    },
        {
            let r = reads[k];
            let ghost mid = self@;
            let ghost es = self.edges@;
            let ghost rs = self.rev_edges@;
            proof {
                lemma_take_next(reads@, k as int);
            }
            self.edges[node.0 as usize].insert(r);
            assert(sets(self.edges@) =~= sets(es).update(at, sets(es)[at].insert(r)));
            if (r.0 as usize) < self.rev_edges.len() {
                self.rev_edges[r.0 as usize].insert(node);
                assert(sets(self.rev_edges@) =~= sets(rs).update(
                    r.0 as int,
                    sets(rs)[r.0 as int].insert(node),
                ));
            }
            proof {
                let want = before.edges.update(
                    at,
                    before.edges[at].union(reads@.take(k + 1).to_set()),
                );
                assert(self@.edges[at] =~= want[at]);
                assert(self@.edges =~= want);
                assert forall|i: int| 0 <= i < before.readers.len() implies
                    #[trigger] self@.readers[i] == if i <= u32::MAX && reads@.take(
                    k + 1,
                ).to_set().contains(DepNodeIndex(i as u32)) {
                    before.readers[i].insert(node)
                } else {
                    before.readers[i]
                } by {
                    assert(mid.readers[i] == mid.readers[i]);
                    if i == r.0 {
                        assert(DepNodeIndex(i as u32) == r);
                        assert(before.readers[i].insert(node).insert(node)
                            =~= before.readers[i].insert(node));
                    } else if i <= u32::MAX {
                        assert(DepNodeIndex(i as u32) != r);
                    }
                }
            }
        }
        proof {
            assert(reads@.take(reads@.len() as int) =~= reads@);
            assert(self@.readers =~= Seq::new(
                before.readers.len(),
                |i: int|
                    if i <= u32::MAX && reads@.to_set().contains(DepNodeIndex(i as u32)) {
                        before.readers[i].insert(node)
                    } else {
                        before.readers[i]
                    },
            ));
        }
    }

    /// Marks a computation dirty. Its readers stay as they are.
    pub fn invalidate(&mut self, node: DepNodeIndex)
        requires
            old(self).wf(),
        ensures
            final(self).wf(),
            final(self)@ == old(self)@.invalidated(node),
    {
        self.dirty.insert(node);
    }

    /// Marks the direct readers of a computation dirty.
    pub fn dirty_readers(&mut self, node: DepNodeIndex)
        requires
            old(self).wf(),
        ensures
            final(self).wf(),
            final(self)@ == old(self)@.with_dirty_readers(node),
    {
        let i: usize = node.0 as usize;
        if i < self.rev_edges.len() {
            let listed = self.rev_edges[i].listing();
            let ghost all = listed@;
            for k in 0..listed.len()
                invariant
                    self.wf(),
                    self.edges == old(self).edges,
                    self.rev_edges == old(self).rev_edges,
                    self.fingerprints == old(self).fingerprints,
                    self.next_index == old(self).next_index,
                    all == listed@,
                    self.dirty@ == old(self).dirty@.union(all.take(k as int).to_set()),
            {
                let r = listed[k];
                proof {
                    lemma_take_next(all, k as int);
                }
                self.dirty.insert(r);
                assert(self.dirty@ =~= old(self).dirty@.union(all.take(k + 1).to_set()));
            }
            assert(all.take(all.len() as int) =~= all);
            assert(self@.dirty =~= old(self)@.dirty.union(old(self)@.readers_of(node)));
        } else {
            assert(self@.dirty =~= old(self)@.dirty.union(old(self)@.readers_of(node)));
        }
    }

    /// Keeps the fingerprint of a result.
    pub fn set_fingerprint(&mut self, node: DepNodeIndex, fp: u64)
        requires
            old(self).wf(),
            node.0 < u32::MAX,
        ensures
            final(self).wf(),
            final(self)@ == old(self)@.with_fingerprint(node, fp),
    {
        grow_fingerprints(&mut self.fingerprints, node.0 as usize + 1);
        self.fingerprints.set(node.0 as usize, Some(fp));
    }

    /// The fingerprint of the last result, if there has been one.
    pub fn fingerprint(&self, node: DepNodeIndex) -> (r: Option<u64>)
        ensures
            r == self@.fingerprint_of(node),
    {
        if (node.0 as usize) < self.fingerprints.len() {
            self.fingerprints[node.0 as usize]
        } else {
            None
        }
    }

    /// The computation is not dirty.
    pub fn is_green(&self, node: DepNodeIndex) -> (r: bool)
        ensures
            r == !self@.dirty.contains(node),
    {
        !self.dirty.contains(node)
    }

    /// The computation has been done again.
    pub fn mark_green(&mut self, node: DepNodeIndex)
        requires
            old(self).wf(),
        ensures
            final(self).wf(),
            final(self)@ == old(self)@.greened(node),
    {
        self.dirty.remove(node);
    }

    /// Forgets everything.
    pub fn reset(&mut self)
        ensures
            final(self).wf(),
            final(self)@ == Graph::none(),
    {
        *self = DepGraph::new();
    }

    /// A computation, and all that it reads, directly or through others.
    pub fn all_reads(&self, node: DepNodeIndex) -> (r: Vec<DepNodeIndex>)
        requires
            self.wf(),
        ensures
            forall|x: DepNodeIndex| #[trigger]
                r@.contains(x) <==> self@.reads_through(node, x),
    {
        let ghost g = self@;
        let mut seen: KeySet<DepNodeIndex> = KeySet::new();
        seen.insert(node);
        assert(seen.items@[0] == node);
        let ghost mut paths: Seq<Seq<DepNodeIndex>> = seq![seq![node]];
        assert(g.is_path(seq![node]));
        let mut i: usize = 0;
        while i < seen.items.len()
            invariant
                self.wf(),
                g == self@,
                seen.wf(),
                i <= seen.items@.len(),
                seen.items@.contains(node),
                paths.len() == seen.items@.len(),
                forall|k: int|
                    0 <= k < paths.len() ==> g.is_path(#[trigger] paths[k]) && paths[k][0] == node
                        && paths[k].last() == seen.items@[k],
                forall|k: int|
                    0 <= k < i ==> g.reads_of(#[trigger] seen.items@[k]).subset_of(seen@),
            decreases 0x1_0000_0000 - i,
        {
            proof {
                lemma_few(seen.items@);
            }
            let x = seen.items[i];
            let at: usize = x.0 as usize;
            if at < self.edges.len() {
                let listed = self.edges[at].listing();
                let ghost all = listed@;
                assert(g.reads_of(x) == all.to_set());
                for k in 0..listed.len()
                    invariant
                        self.wf(),
                        g == self@,
                        all == listed@,
                        g.reads_of(x) == all.to_set(),
                        seen.wf(),
                        i < seen.items@.len(),
                        seen.items@[i as int] == x,
                        seen.items@.contains(node),
                        paths.len() == seen.items@.len(),
                        forall|j: int|
                            0 <= j < paths.len() ==> g.is_path(#[trigger] paths[j])
                                && paths[j][0] == node && paths[j].last() == seen.items@[j],
                        forall|j: int|
                            0 <= j < i ==> g.reads_of(#[trigger] seen.items@[j]).subset_of(seen@),
                        forall|j: int| 0 <= j < k ==> seen@.contains(#[trigger] all[j]),
                {
                    let y = listed[k];
                    let ghost before = seen.items@;
                    let ghost had = seen@;
                    let ghost p = paths[i as int];
                    let added = seen.insert(y);
                    proof {
                        if added {
                            let q = p.push(y);
                            assert(g.is_path(q)) by {
                                assert forall|j: int| 0 <= j < q.len() - 1 implies g.reads_of(
                                    #[trigger] q[j],
                                ).contains(q[j + 1]) by {
                                    if j < p.len() - 1 {
                                        assert(g.reads_of(p[j]).contains(p[j + 1]));
                                    } else {
                                        assert(all.contains(all[k as int]));
                                    }
                                }
                            }
                            paths = paths.push(q);
                            assert(before.contains(node));
                            let w = choose|w: int| 0 <= w < before.len() && before[w] == node;
                            assert(seen.items@[w] == node);
                        }
                        assert(had.subset_of(seen@));
                    }
                }
                assert(g.reads_of(x).subset_of(seen@)) by {
                    assert forall|y: DepNodeIndex| g.reads_of(x).contains(y) implies seen@.contains(
                        y,
                    ) by {
                        let j = choose|j: int| 0 <= j < all.len() && all[j] == y;
                        assert(seen@.contains(all[j]));
                    }
                }
            }
            i = i + 1;
        }
        proof {
            assert forall|x: DepNodeIndex| #[trigger]
                seen.items@.contains(x) <==> g.reads_through(node, x) by {
                if seen.items@.contains(x) {
                    let k = choose|k: int| 0 <= k < seen.items@.len() && seen.items@[k] == x;
                    assert(g.leads_to(node, paths[k], x));
                }
                if g.reads_through(node, x) {
                    let path = choose|path: Seq<DepNodeIndex>| g.leads_to(node, path, x);
                    lemma_path_stays(g, path, seen.items@, path.len() - 1);
                }
            }
        }
        seen.items
    }

    /// Something that the computation reads, directly or through others, is
    /// dirty, or the computation itself is.
    pub fn is_stale(&self, node: DepNodeIndex) -> (r: bool)
        requires
            self.wf(),
        ensures
            r == self@.is_stale(node),
    {
        let ghost g = self@;
        let all = self.all_reads(node);
        for i in 0..all.len()
            invariant
                self.wf(),
                g == self@,
                forall|x: DepNodeIndex| #[trigger]
                    all@.contains(x) <==> g.reads_through(node, x),
                forall|k: int| 0 <= k < i ==> !g.dirty.contains(#[trigger] all@[k]),
        {
            if self.dirty.contains(all[i]) {
                proof {
                    let x = all@[i as int];
                    assert(all@.contains(x));
                    let path = choose|path: Seq<DepNodeIndex>| g.leads_to(node, path, x);
                    assert(g.leads_to_dirty(node, path));
                }
                return true;
            }
        }
        proof {
            if g.is_stale(node) {
                let path = choose|path: Seq<DepNodeIndex>| g.leads_to_dirty(node, path);
                assert(g.leads_to(node, path, path.last()));
                assert(all@.contains(path.last()));
                let k = choose|k: int| 0 <= k < all@.len() && all@[k] == path.last();
                assert(!g.dirty.contains(all@[k]));
            }
        }
        false
    }

    /// The computation is dirty, and nothing that it reads is stale.
    pub fn is_ripe(&self, node: DepNodeIndex) -> (r: bool)
        requires
            self.wf(),
        ensures
            r == self@.is_ripe(node),
    {
        let ghost g = self@;
        if !self.dirty.contains(node) {
            return false;
        }
        let at: usize = node.0 as usize;
        if at < self.edges.len() {
            let listed = self.edges[at].listing();
            let ghost all = listed@;
            assert(g.reads_of(node) == all.to_set());
            for k in 0..listed.len()
                invariant
                    self.wf(),
                    g == self@,
                    all == listed@,
                    g.reads_of(node) == all.to_set(),
                    forall|j: int| 0 <= j < k ==> !g.is_stale(#[trigger] all[j]),
            {
                if self.is_stale(listed[k]) {
                    assert(all.contains(all[k as int]));
                    assert(g.reads_of(node).contains(all[k as int]));
                    return false;
                }
            }
            assert forall|x: DepNodeIndex| #[trigger]
                g.reads_of(node).contains(x) implies !g.is_stale(x) by {
                let j = choose|j: int| 0 <= j < all.len() && all[j] == x;
                assert(!g.is_stale(all[j]));
            }
        }
        true
    }
}

/// There are not more computations than numbers.
proof fn lemma_few(s: Seq<DepNodeIndex>)
    requires
        s.no_duplicates(),
    ensures
        s.len() <= 0x1_0000_0000,
{
    let ints = s.map_values(|d: DepNodeIndex| d.0 as int);
    assert(ints.no_duplicates());
    ints.unique_seq_to_set();
    let all = vstd::set_lib::set_int_range(0, 0x1_0000_0000);
    vstd::set_lib::lemma_int_range(0, 0x1_0000_0000);
    assert(ints.to_set().subset_of(all)) by {
        assert forall|x: int| ints.to_set().contains(x) implies all.contains(x) by {
            let k = choose|k: int| 0 <= k < ints.len() && ints[k] == x;
            assert(ints[k] == s[k].0 as int);
        }
    }
    vstd::set_lib::lemma_len_subset(ints.to_set(), all);
}

/// A path does not leave a set that holds all that its members read.
proof fn lemma_path_stays(g: Graph, path: Seq<DepNodeIndex>, seen: Seq<DepNodeIndex>, k: int)
    requires
        g.is_path(path),
        0 <= k < path.len(),
        seen.contains(path[0]),
        forall|j: int|
            0 <= j < seen.len() ==> g.reads_of(#[trigger] seen[j]).subset_of(seen.to_set()),
    ensures
        seen.contains(path[k]),
    decreases k,
{
    if k > 0 {
        lemma_path_stays(g, path, seen, k - 1);
        let j = choose|j: int| 0 <= j < seen.len() && seen[j] == path[k - 1];
        assert(g.reads_of(path[k - 1]).contains(path[k]));
        assert(seen.to_set().contains(path[k]));
    }
}

// ---------------------------------------------------------------------------
// Laws
// ---------------------------------------------------------------------------

/// What is dirty is stale, and what reads something stale is stale.
pub proof fn law_staleness_spreads(g: Graph, reader: DepNodeIndex, node: DepNodeIndex)
    ensures
        g.dirty.contains(node) ==> g.is_stale(node),
        g.is_stale(node) && g.reads_of(reader).contains(node) ==> g.is_stale(reader),
{
    if g.dirty.contains(node) {
        let p = seq![node];
        assert(g.leads_to_dirty(node, p));
    }
    if g.is_stale(node) && g.reads_of(reader).contains(node) {
        let p = choose|p: Seq<DepNodeIndex>| g.leads_to_dirty(node, p);
        let q = seq![reader] + p;
        assert(g.leads_to_dirty(reader, q)) by {
            assert forall|i: int| 0 <= i < q.len() - 1 implies g.reads_of(
                #[trigger] q[i],
            ).contains(q[i + 1]) by {
                if i > 0 {
                    assert(q[i] == p[i - 1]);
                    assert(g.reads_of(p[i - 1]).contains(p[i]));
                } else {
                    assert(q[1] == p[0]);
                }
            }
            assert(q.last() == p.last());
        }
    }
}

/// Invalidating a computation marks it alone: every other keeps its colour.
pub proof fn law_invalidation_is_lazy(g: Graph, node: DepNodeIndex, other: DepNodeIndex)
    requires
        other != node,
    ensures
        g.invalidated(node).dirty.contains(other) == g.dirty.contains(other),
        g.invalidated(node).dirty.contains(node),
{
}

/// A changed result dirties the direct readers and nothing else.
pub proof fn law_change_dirties_direct_readers(g: Graph, node: DepNodeIndex, other: DepNodeIndex)
    ensures
        g.with_dirty_readers(node).dirty.contains(other) <==> g.dirty.contains(other)
            || g.readers_of(node).contains(other),
{
}

/// The two directions of the graph agree once a computation has ended: what it
/// has read knows it as a reader.
pub proof fn law_reads_and_readers_agree(g: Graph, t: Task, r: DepNodeIndex)
    requires
        t.reads.contains(r),
        t.node.0 < u32::MAX,
        r.0 < g.readers.len(),
    ensures
        g.finished(t).reads_of(t.node).contains(r),
        g.finished(t).readers_of(r).contains(t.node),
{
    assert(DepNodeIndex(r.0 as int as u32) == r);
}

/// What a computation reads is noted for the innermost one that runs, and for no other; a
/// computation does not read itself.
pub proof fn law_reads_are_noted(tasks: Seq<Task>, other: DepNodeIndex, x: DepNodeIndex, i: int)
    requires
        0 <= i < tasks.len(),
    ensures
        ({
            let now = TaskStack::reading(tasks, other);
            &&& now.len() == tasks.len()
            &&& now[i].node == tasks[i].node
            &&& now[i].reads.contains(x) <==> tasks[i].reads.contains(x) || (i == tasks.len() - 1
                && x == other && tasks[i].node != other)
        }),
{
}

/// A computation that has ended reads what it read before and what it has read now, and no
/// other reads anything more. It is a new reader of what it has read, and nothing else has a
/// new reader. Nothing becomes dirty or clean, and no fingerprint changes.
pub proof fn law_ended_reads_are_kept(g: Graph, t: Task, a: DepNodeIndex, b: DepNodeIndex)
    requires
        t.node.0 < u32::MAX,
        g.edges.len() <= u32::MAX,
        g.readers.len() <= u32::MAX,
    ensures
        ({
            let now = g.finished(t);
            &&& now.reads_of(a).contains(b) <==> g.reads_of(a).contains(b) || (a == t.node
                && t.reads.contains(b))
            &&& b.0 < g.readers.len() ==> (now.readers_of(b).contains(a) <==> g.readers_of(
                b,
            ).contains(a) || (a == t.node && t.reads.contains(b)))
            &&& now.dirty == g.dirty && now.fingerprints == g.fingerprints && now.next == g.next
        }),
{
    assert(DepNodeIndex(b.0 as int as u32) == b);
}

/// A fingerprint that is kept is found again, and the others stay as they are.
pub proof fn law_fingerprints_are_kept(g: Graph, node: DepNodeIndex, fp: u64, other: DepNodeIndex)
    requires
        node.0 < u32::MAX,
    ensures
        g.with_fingerprint(node, fp).fingerprint_of(node) == Some(fp),
        other != node ==> g.with_fingerprint(node, fp).fingerprint_of(other) == g.fingerprint_of(
            other,
        ),
        g.with_fingerprint(node, fp).dirty == g.dirty,
        g.with_fingerprint(node, fp).edges == g.edges,
        g.with_fingerprint(node, fp).readers == g.readers,
{
}

/// A computation that has become green is not dirty; every other keeps its colour.
pub proof fn law_greening_is_exact(g: Graph, node: DepNodeIndex, other: DepNodeIndex)
    ensures
        !g.greened(node).dirty.contains(node),
        other != node ==> g.greened(node).dirty.contains(other) == g.dirty.contains(other),
        g.greened(node).edges == g.edges,
        g.greened(node).fingerprints == g.fingerprints,
{
}

/// Room for one more computation changes nothing of those that are there.
pub proof fn law_new_computations_start_empty(g: Graph, a: DepNodeIndex, b: DepNodeIndex)
    requires
        g.next < u32::MAX,
    ensures
        g.allocated().next == g.next + 1,
        g.allocated().reads_of(a).contains(b) == g.reads_of(a).contains(b),
        g.allocated().readers_of(a).contains(b) == g.readers_of(a).contains(b),
        g.allocated().fingerprint_of(a) == g.fingerprint_of(a),
        g.allocated().dirty == g.dirty,
{
}

} // verus!
