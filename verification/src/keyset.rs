//! Sets of plain keys, kept in insertion order without duplicates.
use vstd::prelude::*;

verus! {

/// A plain value that can be compared for equality.
pub trait Key: Sized {
    /// The same key again.
    fn twin(&self) -> (r: Self)
        ensures
            r == *self,
    ;

    /// Whether two keys are equal.
    fn same(&self, other: &Self) -> (r: bool)
        ensures
            r == (*self == *other),
    ;
}

impl Key for u32 {
    fn twin(&self) -> (r: Self) {
        *self
    }

    fn same(&self, other: &Self) -> (r: bool) {
        *self == *other
    }
}

impl Key for u64 {
    fn twin(&self) -> (r: Self) {
        *self
    }

    fn same(&self, other: &Self) -> (r: bool) {
        *self == *other
    }
}

impl Key for (u32, u32) {
    fn twin(&self) -> (r: Self) {
        (self.0, self.1)
    }

    fn same(&self, other: &Self) -> (r: bool) {
        self.0 == other.0 && self.1 == other.1
    }
}

impl Key for (u32, u64) {
    fn twin(&self) -> (r: Self) {
        (self.0, self.1)
    }

    fn same(&self, other: &Self) -> (r: bool) {
        self.0 == other.0 && self.1 == other.1
    }
}

impl Key for (u32, u32, u64) {
    fn twin(&self) -> (r: Self) {
        (self.0, self.1, self.2)
    }

    fn same(&self, other: &Self) -> (r: bool) {
        self.0 == other.0 && self.1 == other.1 && self.2 == other.2
    }
}

impl<K: Key> Key for (u64, K) {
    fn twin(&self) -> (r: Self) {
        (self.0, self.1.twin())
    }

    fn same(&self, other: &Self) -> (r: bool) {
        self.0 == other.0 && self.1.same(&other.1)
    }
}

/// Whether a vector holds a key.
pub fn holds<T: Key>(v: &Vec<T>, x: &T) -> (r: bool)
    ensures
        r == v@.contains(*x),
{
    let mut i: usize = 0;
    while i < v.len()
        invariant
            0 <= i <= v@.len(),
            forall|j: int| 0 <= j < i ==> #[trigger] v@[j] != *x,
        decreases v.len() - i,
    {
        if v[i].same(x) {
            return true;
        }
        i += 1;
    }
    false
}

/// A set of keys.
pub struct KeySet<T: Key> {
    pub items: Vec<T>,
}

impl<T: Key> View for KeySet<T> {
    type V = Set<T>;

    open spec fn view(&self) -> Set<T> {
        self.items@.to_set()
    }
}

impl<T: Key> KeySet<T> {
    /// No key is there twice.
    pub open spec fn wf(self) -> bool {
        self.items@.no_duplicates()
    }

    /// The empty set.
    pub fn new() -> (r: Self)
        ensures
            r.wf(),
            r@ == Set::<T>::empty(),
            r.items@.len() == 0,
    {
        let r = KeySet { items: Vec::new() };
        assert(r@ =~= Set::<T>::empty());
        r
    }

    /// The number of keys.
    pub fn len(&self) -> (r: usize)
        requires
            self.wf(),
        ensures
            r == self@.len(),
            r == self.items@.len(),
    {
        proof {
            self.items@.unique_seq_to_set();
        }
        self.items.len()
    }

    /// Whether the set is empty.
    pub fn is_empty(&self) -> (r: bool)
        ensures
            r == (self@ == Set::<T>::empty()),
            r == (self.items@.len() == 0),
    {
        let r: bool = self.items.len() == 0;
        proof {
            if self.items@.len() > 0 {
                assert(self@.contains(self.items@[0]));
            } else {
                assert(self@ =~= Set::<T>::empty());
            }
        }
        r
    }

    /// Whether the key is in the set.
    pub fn contains(&self, x: &T) -> (r: bool)
        ensures
            r == self@.contains(*x),
            r == self.items@.contains(*x),
    {
        let r: bool = holds(&self.items, x);
        r
    }

    /// Adds a key; tells whether it was not there.
    pub fn insert(&mut self, x: T) -> (added: bool)
        requires
            old(self).wf(),
        ensures
            final(self).wf(),
            final(self)@ == old(self)@.insert(x),
            added == !old(self)@.contains(x),
            final(self).items@ == (if old(self)@.contains(x) {
                old(self).items@
            } else {
                old(self).items@.push(x)
            }),
    {
        if self.contains(&x) {
            assert(self@.insert(x) =~= self@);
            return false;
        }
        let ghost before = self.items@;
        self.items.push(x);
        proof {
            assert(self@ =~= before.to_set().insert(x)) by {
                assert forall|y: T| self@.contains(y) == before.to_set().insert(x).contains(
                    y,
                ) by {
                    if self.items@.contains(y) {
                        let j = choose|j: int|
                            0 <= j < self.items@.len() && self.items@[j] == y;
                        if j < before.len() {
                            assert(before[j] == y);
                        }
                    }
                    if before.contains(y) {
                        let j = choose|j: int| 0 <= j < before.len() && before[j] == y;
                        assert(self.items@[j] == y);
                    }
                    assert(self.items@[before.len() as int] == x);
                }
            }
        }
        true
    }
}

/// The set of pairs of an element of each of two sets.
pub open spec fn pairs<A, B>(a: Set<A>, b: Set<B>) -> Set<(A, B)> {
    Set::new(|x: (A, B)| a.contains(x.0) && b.contains(x.1))
}

/// The set of triples of elements of three sets.
pub open spec fn triples<A, B, C>(a: Set<A>, b: Set<B>, c: Set<C>) -> Set<(A, B, C)> {
    Set::new(|x: (A, B, C)| a.contains(x.0) && b.contains(x.1) && c.contains(x.2))
}

/// Pairs from finite sets are finitely many.
pub proof fn lemma_pairs_finite<A, B>(a: Set<A>, b: Set<B>)
    requires
        a.finite(),
        b.finite(),
    ensures
        pairs(a, b).finite(),
    decreases a.len(),
{
    if a.len() == 0 {
        assert(a =~= Set::empty());
        assert(pairs(a, b) =~= Set::empty());
    } else {
        let x = a.choose();
        lemma_pairs_finite(a.remove(x), b);
        let row = b.map(|y: B| (x, y));
        b.lemma_map_finite(|y: B| (x, y));
        assert(pairs(a, b) =~= pairs(a.remove(x), b).union(row)) by {
            assert forall|p: (A, B)| pairs(a, b).contains(p) == pairs(a.remove(x), b).union(
                row,
            ).contains(p) by {
                if p.0 == x && b.contains(p.1) {
                    assert(row.contains((x, p.1)));
                }
            }
        }
    }
}

/// Triples from finite sets are finitely many.
pub proof fn lemma_triples_finite<A, B, C>(a: Set<A>, b: Set<B>, c: Set<C>)
    requires
        a.finite(),
        b.finite(),
        c.finite(),
    ensures
        triples(a, b, c).finite(),
{
    lemma_pairs_finite(a, b);
    lemma_pairs_finite(pairs(a, b), c);
    let f = |p: ((A, B), C)| (p.0.0, p.0.1, p.1);
    pairs(pairs(a, b), c).lemma_map_finite(f);
    assert(triples(a, b, c) =~= pairs(pairs(a, b), c).map(f)) by {
        assert forall|t: (A, B, C)| triples(a, b, c).contains(t) implies pairs(
            pairs(a, b),
            c,
        ).map(f).contains(t) by {
            let p = ((t.0, t.1), t.2);
            assert(pairs(pairs(a, b), c).contains(p));
            assert(f(p) == t);
        }
    }
}

} // verus!
