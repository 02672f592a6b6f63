//! What is known of one kind of query.
use super::cache;
use super::cache::{DefaultCache, DEFAULT_CACHE_CAPACITY};
use crate::keyset::Key;
use std::hash::Hash;
use vstd::prelude::*;
use vstd::std_specs::hash;

verus! {

/// The greatest depth of a query whose depth is limited.
pub const MAX_QUERY_DEPTH: usize = 128;

/// What is said of a kind of query.
#[derive(Clone, Copy, Debug)]
pub struct QueryDescriptor {
    pub name: &'static str,
    pub description: &'static str,
    /// The query is computed anew each time.
    pub eval_always: bool,
    /// The query does not call itself beyond a depth.
    pub depth_limit: bool,
    /// How many values the cache of the query holds; zero for any number.
    pub cache_capacity: usize,
}

impl QueryDescriptor {
    pub fn new(name: &'static str, description: &'static str) -> (r: Self)
        ensures
            r == (QueryDescriptor {
                name,
                description,
                eval_always: false,
                depth_limit: false,
                cache_capacity: DEFAULT_CACHE_CAPACITY,
            }),
    {
        QueryDescriptor {
            name,
            description,
            eval_always: false,
            depth_limit: false,
            cache_capacity: DEFAULT_CACHE_CAPACITY,
        }
    }

    pub fn with_eval_always(self, val: bool) -> (r: Self)
        ensures
            r == (QueryDescriptor { eval_always: val, ..self }),
    {
        let mut r = self;
        r.eval_always = val;
        r
    }

    pub fn with_depth_limit(self, val: bool) -> (r: Self)
        ensures
            r == (QueryDescriptor { depth_limit: val, ..self }),
    {
        let mut r = self;
        r.depth_limit = val;
        r
    }

    /// The query with a cache of its own size. A query on definitions, or on
    /// the one key of a query without keys, forgets nothing: its size is zero.
    pub fn with_cache_capacity(self, val: usize) -> (r: Self)
        ensures
            r == (QueryDescriptor { cache_capacity: val, ..self }),
    {
        let mut r = self;
        r.cache_capacity = val;
        r
    }
}

/// How a query is asked.
#[derive(Clone, Copy, Debug, PartialEq, Eq, Structural)]
pub enum QueryMode {
    /// For its value.
    Get,
    /// For whether it succeeds.
    EnsureOk,
}

/// Why a query has no value.
#[derive(Clone, Copy, Debug, PartialEq, Eq, Structural)]
pub enum CycleKind {
    /// The worker is computing the query already, further out.
    Cycle,
    /// The query calls itself too deeply.
    DepthLimit,
    /// The worker that computes the query waits, through others, for this one.
    WaitCycle,
    /// The computation that was waited for failed.
    Poisoned,
    /// An earlier computation failed.
    PreviouslyPanicked,
    /// There is no value after waiting, or no number for a computation.
    NotFound,
}

/// A query that has no value.
#[derive(Debug)]
pub struct QueryCycleError<K> {
    pub query_name: &'static str,
    pub kind: CycleKind,
    /// The keys of the running queries, the outermost first; in a cycle, the
    /// repeated key last.
    pub stack: Vec<K>,
}

/// A query that a worker is computing.
#[derive(Debug)]
pub struct Frame<K> {
    pub worker: u64,
    pub key: K,
}

/// The keys that a worker is computing, the outermost first.
pub open spec fn stack_of<K>(active: Seq<Frame<K>>, worker: u64) -> Seq<K>
    decreases active.len(),
{
    if active.len() == 0 {
        Seq::empty()
    } else {
        let before = stack_of(active.drop_last(), worker);
        if active.last().worker == worker {
            before.push(active.last().key)
        } else {
            before
        }
    }
}

/// What is known of one kind of query.
pub struct QueryVTable<K, V> {
    pub descriptor: QueryDescriptor,
    pub cache: DefaultCache<K, V>,
    pub active: Vec<Frame<K>>,
}

/// What is known of one kind of query, as mathematics.
pub struct Kind<K, V> {
    pub descriptor: QueryDescriptor,
    /// The cached values, the last used first.
    pub items: Seq<(K, V)>,
    pub capacity: usize,
    /// The hits, misses and evictions of the cache.
    pub counts: (u64, u64, u64),
    pub active: Seq<Frame<K>>,
}

impl<K, V> Kind<K, V> {
    pub open spec fn fresh(descriptor: QueryDescriptor) -> Kind<K, V> {
        Kind {
            descriptor,
            items: Seq::empty(),
            capacity: descriptor.cache_capacity,
            counts: (0, 0, 0),
            active: Seq::empty(),
        }
    }
}

/// The place of the innermost query of a worker.
pub open spec fn innermost<K>(active: Seq<Frame<K>>, worker: u64) -> Option<int>
    decreases active.len(),
{
    if active.len() == 0 {
        None
    } else if active.last().worker == worker {
        Some(active.len() - 1)
    } else {
        innermost(active.drop_last(), worker)
    }
}

/// The queries once the innermost one of a worker is over.
pub open spec fn left<K>(active: Seq<Frame<K>>, worker: u64) -> Seq<Frame<K>> {
    match innermost(active, worker) {
        Some(p) => active.remove(p),
        None => active,
    }
}

proof fn lemma_innermost<K>(active: Seq<Frame<K>>, worker: u64)
    ensures
        match innermost(active, worker) {
            Some(p) => 0 <= p < active.len() && active[p].worker == worker && (forall|i: int|
                p < i < active.len() ==> (#[trigger] active[i]).worker != worker),
            None => forall|i: int|
                0 <= i < active.len() ==> (#[trigger] active[i]).worker != worker,
        },
    decreases active.len(),
{
    if active.len() > 0 && active.last().worker != worker {
        let before = active.drop_last();
        lemma_innermost(before, worker);
        assert forall|i: int| 0 <= i < before.len() implies before[i] == #[trigger] active[i] by {}
        assert(active[active.len() - 1] == active.last());
    }
}

/// Leaving takes the innermost query off the stack of the worker, and leaves
/// the stacks of the others as they are.
pub proof fn law_leaving_pops<K>(active: Seq<Frame<K>>, worker: u64, other: u64)
    ensures
        stack_of(left(active, worker), other) == if other == worker && stack_of(
            active,
            worker,
        ).len() > 0 {
            stack_of(active, worker).drop_last()
        } else {
            stack_of(active, other)
        },
    decreases active.len(),
{
    if active.len() > 0 {
        let before = active.drop_last();
        if active.last().worker == worker {
            assert(active.remove(active.len() - 1) =~= before);
            if other == worker {
                assert(stack_of(active, worker).drop_last() =~= stack_of(before, worker));
            }
        } else {
            law_leaving_pops(before, worker, other);
            lemma_innermost(before, worker);
            match innermost(before, worker) {
                Some(p) => {
                    let after = active.remove(p);
                    assert(after.drop_last() =~= before.remove(p));
                    assert(after.last() == active.last());
                },
                None => {},
            }
        }
    }
}

/// Entering puts a query on the stack of the worker, and leaves the stacks of
/// the others as they are.
pub proof fn law_entering_pushes<K>(active: Seq<Frame<K>>, worker: u64, key: K, other: u64)
    ensures
        stack_of(active.push(Frame { worker, key }), other) == if other == worker {
            stack_of(active, worker).push(key)
        } else {
            stack_of(active, other)
        },
{
    let f = Frame { worker, key };
    assert(active.push(f).drop_last() =~= active);
    assert(active.push(f).last() == f);
}

impl<K: Key + Clone + Eq + Hash, V> QueryVTable<K, V> {
    pub open spec fn wf(&self) -> bool {
        self.cache.well_formed()
    }

    pub open spec fn model(&self) -> Kind<K, V> {
        Kind {
            descriptor: self.descriptor,
            items: self.cache.items(),
            capacity: self.cache.capacity(),
            counts: self.cache.counts(),
            active: self.active@,
        }
    }

    pub fn new(descriptor: QueryDescriptor) -> (r: Self)
        requires
            hash::obeys_key_model::<K>(),
            cache::clones_exactly::<K>(),
        ensures
            r.wf(),
            r.model() == Kind::<K, V>::fresh(descriptor),
    {
        let r = QueryVTable {
            descriptor,
            cache: DefaultCache::with_capacity(descriptor.cache_capacity),
            active: Vec::new(),
        };
        assert(r.active@ =~= Seq::<Frame<K>>::empty());
        r
    }

    /// The keys that a worker is computing.
    pub fn stack(&self, worker: u64) -> (r: Vec<K>)
        ensures
            r@ == stack_of(self.active@, worker),
    {
        let mut out: Vec<K> = Vec::new();
        for i in 0..self.active.len()
            invariant
                out@ == stack_of(self.active@.take(i as int), worker),
        {
            proof {
                assert(self.active@.take(i + 1).drop_last() =~= self.active@.take(i as int));
                assert(self.active@.take(i + 1).last() == self.active@[i as int]);
            }
            if self.active[i].worker == worker {
                out.push(self.active[i].key.twin());
            }
        }
        assert(self.active@.take(self.active@.len() as int) =~= self.active@);
        out
    }

    /// Enters a query, unless the worker computes it already, further out, or
    /// is too deep.
    pub fn enter(&mut self, worker: u64, key: &K) -> (r: Result<(), QueryCycleError<K>>)
        requires
            old(self).wf(),
        ensures
            final(self).wf(),
            ({
                let stack = stack_of(old(self).active@, worker);
                match r {
                    Ok(_) => !stack.contains(*key) && !(old(self).descriptor.depth_limit
                        && stack.len() >= MAX_QUERY_DEPTH) && final(self).model() == (Kind {
                        active: old(self).active@.push(Frame { worker, key: *key }),
                        ..old(self).model()
                    }),
                    Err(e) => final(self).model() == old(self).model() && e.query_name
                        == old(self).descriptor.name && if stack.contains(*key) {
                        e.kind == CycleKind::Cycle && e.stack@ == stack.push(*key)
                    } else {
                        e.kind == CycleKind::DepthLimit && e.stack@ == stack
                            && old(self).descriptor.depth_limit && stack.len() >= MAX_QUERY_DEPTH
                    },
                }
            }),
    {
        let mut stack = self.stack(worker);
        if crate::keyset::holds(&stack, key) {
            stack.push(key.twin());
            return Err(
                QueryCycleError {
                    query_name: self.descriptor.name,
                    kind: CycleKind::Cycle,
                    stack,
                },
            );
        }
        if self.descriptor.depth_limit && stack.len() >= MAX_QUERY_DEPTH {
            return Err(
                QueryCycleError {
                    query_name: self.descriptor.name,
                    kind: CycleKind::DepthLimit,
                    stack,
                },
            );
        }
        self.active.push(Frame { worker, key: key.twin() });
        Ok(())
    }

    /// Leaves the innermost query of a worker.
    pub fn leave(&mut self, worker: u64)
        requires
            old(self).wf(),
        ensures
            final(self).wf(),
            final(self).model() == (Kind {
                active: left(old(self).active@, worker),
                ..old(self).model()
            }),
    {
        let mut i: usize = self.active.len();
        proof {
            lemma_innermost(self.active@, worker);
        }
        while i > 0
            invariant
                i <= self.active@.len(),
                *self == *old(self),
                old(self).wf(),
                match innermost(self.active@, worker) {
                    Some(p) => 0 <= p < self.active@.len() && self.active@[p].worker == worker && (
                    forall|j: int|
                        p < j < self.active@.len() ==> (#[trigger] self.active@[j]).worker
                            != worker),
                    None => forall|j: int|
                        0 <= j < self.active@.len() ==> (#[trigger] self.active@[j]).worker
                            != worker,
                },
                forall|j: int|
                    i <= j < self.active@.len() ==> (#[trigger] self.active@[j]).worker != worker,
            decreases i,
        {
            i = i - 1;
            if self.active[i].worker == worker {
                let _ = self.active.remove(i);
                return;
            }
        }
    }
}

} // verus!
