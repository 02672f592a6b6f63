//! Sets of computations.
use super::dep_graph::DepNodeIndex;
use rustc_hash::{FxBuildHasher, FxHashSet};
use vstd::prelude::*;

verus! {

/// `rustc_hash::FxBuildHasher`: what the hash table of a set hashes with.
#[verifier::external_type_specification]
#[verifier::external_body]
pub struct HashBuilder(FxBuildHasher);

/// `FxHashSet::default`: the set is empty.
#[verifier::external_body]
fn no_numbers() -> (r: FxHashSet<u32>)
    ensures
        r@ == Set::<u32>::empty(),
{
    FxHashSet::default()
}

/// `FxHashSet::insert`: the set holds the number, and what it held before.
#[verifier::external_body]
fn add_number(s: &mut FxHashSet<u32>, n: u32)
    ensures
        final(s)@ == old(s)@.insert(n),
{
    s.insert(n);
}

/// `FxHashSet::remove`: the set holds what it held before but the number.
#[verifier::external_body]
fn remove_number(s: &mut FxHashSet<u32>, n: u32)
    ensures
        final(s)@ == old(s)@.remove(n),
{
    s.remove(&n);
}

/// `FxHashSet::contains`: whether the set holds the number.
#[verifier::external_body]
fn has_number(s: &FxHashSet<u32>, n: u32) -> (r: bool)
    ensures
        r == s@.contains(n),
{
    s.contains(&n)
}

/// `FxHashSet::iter`: each number of the set once, in some order.
#[verifier::external_body]
fn list_numbers(s: &FxHashSet<u32>) -> (r: Vec<u32>)
    ensures
        r@.no_duplicates(),
        r@.to_set() == s@,
{
    s.iter().copied().collect()
}

/// A set of computations.
#[derive(Debug)]
pub struct NodeSet {
    numbers: FxHashSet<u32>,
}

impl View for NodeSet {
    type V = Set<DepNodeIndex>;

    closed spec fn view(&self) -> Set<DepNodeIndex> {
        Set::new(|n: DepNodeIndex| self.numbers@.contains(n.0))
    }
}

impl NodeSet {
    /// The empty set.
    pub fn new() -> (r: Self)
        ensures
            r@ == Set::<DepNodeIndex>::empty(),
    {
        let r = NodeSet { numbers: no_numbers() };
        assert(r@ =~= Set::<DepNodeIndex>::empty());
        r
    }

    /// Adds a computation.
    pub fn insert(&mut self, n: DepNodeIndex)
        ensures
            final(self)@ == old(self)@.insert(n),
    {
        add_number(&mut self.numbers, n.0);
        assert(self@ =~= old(self)@.insert(n));
    }

    /// Takes a computation out.
    pub fn remove(&mut self, n: DepNodeIndex)
        ensures
            final(self)@ == old(self)@.remove(n),
    {
        remove_number(&mut self.numbers, n.0);
        assert(self@ =~= old(self)@.remove(n));
    }

    /// Whether a computation is in the set.
    pub fn contains(&self, n: DepNodeIndex) -> (r: bool)
        ensures
            r == self@.contains(n),
    {
        has_number(&self.numbers, n.0)
    }

    /// The computations, in no particular order.
    pub fn listing(&self) -> (r: Vec<DepNodeIndex>)
        ensures
            r@.no_duplicates(),
            r@.to_set() == self@,
    {
        let numbers = list_numbers(&self.numbers);
        let mut out: Vec<DepNodeIndex> = Vec::new();
        for i in 0..numbers.len()
            invariant
                out@.len() == i,
                forall|k: int| 0 <= k < i ==> (#[trigger] out@[k]).0 == numbers@[k],
        {
            out.push(DepNodeIndex(numbers[i]));
        }
        proof {
            assert forall|n: DepNodeIndex| #[trigger] out@.to_set().contains(n) <==> self@.contains(
                n,
            ) by {
                if out@.contains(n) {
                    let k = choose|k: int| 0 <= k < out@.len() && out@[k] == n;
                    assert(numbers@[k] == n.0);
                    assert(numbers@.to_set().contains(n.0));
                }
                if self@.contains(n) {
                    assert(numbers@.to_set().contains(n.0));
                    let k = choose|k: int| 0 <= k < numbers@.len() && numbers@[k] == n.0;
                    assert(out@[k] == n);
                }
            }
            assert(out@.to_set() =~= self@);
            assert forall|i: int, j: int| 0 <= i < j < out@.len() implies out@[i] != out@[j] by {
                assert(out@[i].0 == numbers@[i]);
                assert(out@[j].0 == numbers@[j]);
            }
        }
        out
    }
}

} // verus!
