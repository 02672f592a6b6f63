//! Running computations, and the workers that wait for them.
use super::dep_graph::DepNodeIndex;
use vstd::prelude::*;

verus! {

/// The number of a running computation.
#[derive(Clone, Copy, Debug, PartialEq, Eq, Structural, Hash)]
pub struct QueryJobId(pub u64);

/// The number after this one, back at zero after the greatest.
pub open spec fn following(n: u64) -> u64 {
    if n == u64::MAX {
        0
    } else {
        (n + 1) as u64
    }
}

/// The number that a counter gives out after `k` others.
pub open spec fn drawn(first: u64, k: nat) -> u64
    decreases k,
{
    if k == 0 {
        first
    } else {
        following(drawn(first, (k - 1) as nat))
    }
}

proof fn lemma_drawn(first: u64, k: nat)
    ensures
        drawn(first, k) == (first + k) % 0x1_0000_0000_0000_0000,
    decreases k,
{
    if k > 0 {
        lemma_drawn(first, (k - 1) as nat);
        vstd::arithmetic::div_mod::lemma_add_mod_noop(
            first + k - 1,
            1,
            0x1_0000_0000_0000_0000,
        );
        let before = (first + k - 1) % 0x1_0000_0000_0000_0000;
        assert(drawn(first, k) == (before + 1) % 0x1_0000_0000_0000_0000);
    }
}

/// The numbers that one counter gives out differ, until it has given out all
/// of them.
pub proof fn law_numbers_are_fresh(first: u64, i: nat, j: nat)
    requires
        i < j,
        j - i <= u64::MAX,
    ensures
        drawn(first, i) != drawn(first, j),
{
    lemma_drawn(first, i);
    lemma_drawn(first, j);
}

/// The number that the next computation gets. Each counter counts for itself:
/// two of them give out the same numbers.
#[derive(Debug)]
pub struct JobCounter {
    next: u64,
}

impl JobCounter {
    pub closed spec fn number(&self) -> u64 {
        self.next
    }

    pub fn new() -> (r: Self)
        ensures
            r.number() == 1,
    {
        JobCounter { next: 1 }
    }
}

impl QueryJobId {
    /// A number that the counter has not given out; after the greatest,
    /// counting starts again at zero.
    pub fn fresh(counter: &mut JobCounter) -> (r: Self)
        ensures
            r.0 == old(counter).number(),
            final(counter).number() == following(old(counter).number()),
    {
        let n: u64 = counter.next;
        counter.next = if n == u64::MAX {
            0
        } else {
            n + 1
        };
        QueryJobId(n)
    }
}

/// A worker that waits for a computation.
#[derive(Clone, Copy, Debug, PartialEq, Eq, Structural)]
pub struct QueryWaiter {
    pub parent: Option<QueryJobId>,
    pub worker: u64,
    /// The computation is over.
    pub completed: bool,
}

impl QueryWaiter {
    pub fn new(parent: Option<QueryJobId>, worker: u64) -> (r: Self)
        ensures
            r == (QueryWaiter { parent, worker, completed: false }),
    {
        QueryWaiter { parent, worker, completed: false }
    }
}

/// The computation failed.
#[derive(Clone, Copy, Debug, PartialEq, Eq, Structural)]
pub struct Poisoned;

/// A latch that workers wait on until a computation is over.
#[derive(Debug)]
pub struct QueryLatch {
    /// The workers that wait, while the computation runs.
    waiters: Option<Vec<QueryWaiter>>,
    poisoned: bool,
}

/// The state of a latch.
pub enum Latch {
    Running(Seq<QueryWaiter>),
    Complete,
    Poisoned,
}

impl View for QueryLatch {
    type V = Latch;

    closed spec fn view(&self) -> Latch {
        match self.waiters {
            Some(w) => Latch::Running(w@),
            None => if self.poisoned {
                Latch::Poisoned
            } else {
                Latch::Complete
            },
        }
    }
}

/// The waiters once the computation is over.
pub open spec fn woken(s: Seq<QueryWaiter>) -> Seq<QueryWaiter> {
    Seq::new(s.len(), |i: int| QueryWaiter { completed: true, ..s[i] })
}

/// Tells the waiters that the computation is over.
fn wake(waiters: Vec<QueryWaiter>) -> (r: Vec<QueryWaiter>)
    ensures
        r@ == woken(waiters@),
{
    let mut out: Vec<QueryWaiter> = Vec::new();
    for i in 0..waiters.len()
        invariant
            out@.len() == i,
            forall|j: int| 0 <= j < i ==> #[trigger] out@[j] == woken(waiters@)[j],
    {
        let mut w = waiters[i];
        w.completed = true;
        out.push(w);
    }
    assert(out@ =~= woken(waiters@));
    out
}

impl QueryLatch {
    pub fn new() -> (r: Self)
        ensures
            r@ == Latch::Running(Seq::empty()),
    {
        let r = QueryLatch { waiters: Some(Vec::new()), poisoned: false };
        assert(r.waiters->0@ =~= Seq::<QueryWaiter>::empty());
        r
    }

    /// A worker comes to wait. It need not where the computation is over; it
    /// has to block where it runs.
    pub fn wait_on(&mut self, worker: u64) -> (r: Result<bool, Poisoned>)
        ensures
            match old(self)@ {
                Latch::Running(s) => r == Ok::<bool, Poisoned>(false) && final(self)@
                    == Latch::Running(
                    s.push(QueryWaiter { parent: None, worker, completed: false }),
                ),
                Latch::Complete => r == Ok::<bool, Poisoned>(true) && final(self)@ == old(self)@,
                Latch::Poisoned => r == Err::<bool, Poisoned>(Poisoned) && final(self)@
                    == old(self)@,
            },
    {
        match &mut self.waiters {
            Some(w) => {
                w.push(QueryWaiter::new(None, worker));
                Ok(false)
            },
            None => if self.poisoned {
                Err(Poisoned)
            } else {
                Ok(true)
            },
        }
    }

    /// The computation is over. The waiters are handed out, to be resumed.
    pub fn set(&mut self) -> (r: Vec<QueryWaiter>)
        ensures
            match old(self)@ {
                Latch::Running(s) => r@ == woken(s) && final(self)@ == Latch::Complete,
                _ => r@.len() == 0 && final(self)@ == old(self)@,
            },
    {
        match self.waiters.take() {
            Some(w) => {
                self.poisoned = false;
                wake(w)
            },
            None => Vec::new(),
        }
    }

    /// The computation has failed. The waiters are handed out, to be resumed.
    pub fn poison(&mut self) -> (r: Vec<QueryWaiter>)
        ensures
            match old(self)@ {
                Latch::Running(s) => r@ == woken(s) && final(self)@ == Latch::Poisoned,
                _ => r@.len() == 0 && final(self)@ == old(self)@,
            },
    {
        match self.waiters.take() {
            Some(w) => {
                self.poisoned = true;
                wake(w)
            },
            None => Vec::new(),
        }
    }

    /// The computation is over.
    pub fn is_complete(&self) -> (r: bool)
        ensures
            r == !(self@ is Running),
    {
        self.waiters.is_none()
    }
}

/// A running computation.
#[derive(Debug)]
pub struct QueryJob {
    pub id: QueryJobId,
    pub dep_node: DepNodeIndex,
    /// The worker that computes.
    pub owner: u64,
    pub latch: QueryLatch,
}

impl QueryJob {
    pub fn new(dep_node: DepNodeIndex, owner: u64, counter: &mut JobCounter) -> (r: Self)
        ensures
            r.id.0 == old(counter).number(),
            r.dep_node == dep_node,
            r.owner == owner,
            r.latch@ == Latch::Running(Seq::empty()),
            final(counter).number() == following(old(counter).number()),
    {
        QueryJob { id: QueryJobId::fresh(counter), dep_node, owner, latch: QueryLatch::new() }
    }

    /// The computation is over. The waiters are handed out, to be resumed.
    pub fn signal_complete(self) -> (r: Vec<QueryWaiter>)
        ensures
            match self.latch@ {
                Latch::Running(s) => r@ == woken(s),
                _ => r@.len() == 0,
            },
    {
        let mut latch = self.latch;
        latch.set()
    }
}

} // verus!
