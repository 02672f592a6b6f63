//! Caches of query results.
use super::lru;
use super::lru::{Chain, LruNode};
use crate::types::DefId;
use std::collections::HashMap;
use std::hash::Hash;
use vstd::prelude::*;
use vstd::std_specs::hash;

verus! {

broadcast use vstd::std_specs::hash::group_hash_axioms;

/// How a cache has been used.
#[derive(Clone, Copy, Debug, PartialEq, Eq, Structural)]
pub struct CacheStats {
    pub hits: u64,
    pub misses: u64,
    pub evictions: u64,
    pub entries: usize,
}

/// The number of entries that a cache holds where nothing else is said.
pub const DEFAULT_CACHE_CAPACITY: usize = 512;

/// A count with one more, back at zero after the greatest.
pub open spec fn counted(n: u64) -> u64 {
    if n == u64::MAX {
        0
    } else {
        (n + 1) as u64
    }
}

fn count(n: u64) -> (r: u64)
    ensures
        r == counted(n),
{
    if n == u64::MAX {
        0
    } else {
        n + 1
    }
}

/// There is an entry for the key.
pub open spec fn holds<K, V>(s: Seq<(K, V)>, k: K) -> bool {
    exists|i: int| 0 <= i < s.len() && (#[trigger] s[i]).0 == k
}

/// The place of the entry for the key.
pub open spec fn place<K, V>(s: Seq<(K, V)>, k: K) -> int {
    choose|i: int| 0 <= i < s.len() && (#[trigger] s[i]).0 == k
}

/// No key has two entries.
pub open spec fn keys_differ<K, V>(s: Seq<(K, V)>) -> bool {
    forall|i: int, j: int| 0 <= i < j < s.len() ==> (#[trigger] s[i]).0 != (#[trigger] s[j]).0
}

/// The entries with the one for the key, if there is one, taken out.
pub open spec fn without<K, V>(s: Seq<(K, V)>, k: K) -> Seq<(K, V)> {
    if holds(s, k) {
        s.remove(place(s, k))
    } else {
        s
    }
}

/// The entries after a look at the one for the key: it comes first.
pub open spec fn looked_at<K, V>(s: Seq<(K, V)>, k: K) -> Seq<(K, V)> {
    if holds(s, k) {
        seq![s[place(s, k)]] + without(s, k)
    } else {
        s
    }
}

/// There is no room for one more entry.
pub open spec fn is_full<K, V>(s: Seq<(K, V)>, capacity: usize) -> bool {
    capacity > 0 && s.len() >= capacity
}

/// The entries with a new one in front; where there is no room, the last
/// goes.
pub open spec fn stored<K, V>(s: Seq<(K, V)>, k: K, v: V, capacity: usize) -> Seq<(K, V)> {
    if holds(s, k) {
        seq![(k, v)] + without(s, k)
    } else if is_full(s, capacity) {
        seq![(k, v)] + s.drop_last()
    } else {
        seq![(k, v)] + s
    }
}

/// The counts of hits, misses and evictions after a look for a key.
pub open spec fn counts_looked_at<K, V>(counts: (u64, u64, u64), s: Seq<(K, V)>, k: K) -> (
    u64,
    u64,
    u64,
) {
    if holds(s, k) {
        (counted(counts.0), counts.1, counts.2)
    } else {
        (counts.0, counted(counts.1), counts.2)
    }
}

/// The counts of hits, misses and evictions after an entry has been stored.
pub open spec fn counts_stored<K, V>(
    counts: (u64, u64, u64),
    s: Seq<(K, V)>,
    k: K,
    capacity: usize,
) -> (u64, u64, u64) {
    if !holds(s, k) && is_full(s, capacity) {
        (counts.0, counts.1, counted(counts.2))
    } else {
        counts
    }
}

/// A copy of a key is the same key.
pub open spec fn clones_exactly<K: Clone>() -> bool {
    forall|a: K, b: K| #[trigger] vstd::pervasive::strictly_cloned(a, b) ==> a == b
}

/// A cache of query results.
pub trait QueryCacheType<K, V>: Sized where V: Clone {
    /// What the cache holds, in the order in which it hands it out.
    spec fn entries(&self) -> Seq<(K, V)>;

    spec fn wf(&self) -> bool;

    /// The cache has a place for the key.
    spec fn takes(&self, key: K) -> bool;

    /// The value for a key.
    fn lookup(&mut self, key: &K) -> (r: Option<V>)
        requires
            old(self).wf(),
        ensures
            final(self).wf(),
            match r {
                Some(v) => holds(old(self).entries(), *key) && vstd::pervasive::cloned(
                    old(self).entries()[place(old(self).entries(), *key)].1,
                    v,
                ),
                None => !holds(old(self).entries(), *key),
            },
            final(self).entries().to_multiset() == old(self).entries().to_multiset(),
    ;

    /// Sets the value for a key.
    fn insert(&mut self, key: K, value: V)
        requires
            old(self).wf(),
            old(self).takes(key),
        ensures
            final(self).wf(),
            holds(final(self).entries(), key),
            final(self).entries()[place(final(self).entries(), key)].1 == value,
    ;

    /// Forgets a key.
    fn remove(&mut self, key: &K)
        requires
            old(self).wf(),
        ensures
            final(self).wf(),
            final(self).entries() == without(old(self).entries(), *key),
    ;

    /// Forgets everything.
    fn clear(&mut self)
        ensures
            final(self).entries().len() == 0,
            old(self).wf() ==> final(self).wf(),
    ;

    /// The number of entries.
    fn len(&self) -> (r: usize)
        requires
            self.wf(),
        ensures
            r == self.entries().len(),
    ;

    /// The entries, in order.
    fn listing(&self) -> (r: Vec<(K, &V)>)
        requires
            self.wf(),
        ensures
            r@.len() == self.entries().len(),
            forall|i: int|
                0 <= i < r@.len() ==> (#[trigger] r@[i]).0 == self.entries()[i].0 && *r@[i].1
                    == self.entries()[i].1,
    ;

    /// How the cache has been used.
    fn stats(&self) -> (r: CacheStats)
        requires
            self.wf(),
        ensures
            r.entries == self.entries().len(),
    ;
}

// ---------------------------------------------------------------------------
// Least recently used
// ---------------------------------------------------------------------------

/// A cache that forgets what has not been used for longest.
pub struct DefaultCache<K, V> {
    map: HashMap<K, usize>,
    chain: Chain<K, V>,
    free: Vec<usize>,
    max_entries: usize,
    hits: u64,
    misses: u64,
    evictions: u64,
    order: Ghost<Seq<usize>>,
}

/// The entries of a chain.
pub open spec fn entries_of<K, V>(nodes: Seq<LruNode<K, V>>, order: Seq<usize>) -> Seq<(K, V)> {
    Seq::new(order.len(), |i: int| (nodes[order[i] as int].key, nodes[order[i] as int].value))
}

/// The index finds every node of the chain, and nothing else.
pub open spec fn indexed<K, V>(
    map: Map<K, usize>,
    nodes: Seq<LruNode<K, V>>,
    order: Seq<usize>,
) -> bool {
    &&& map.dom().finite()
    &&& map.dom().len() == order.len()
    &&& forall|i: int|
        0 <= i < order.len() ==> map.contains_pair(nodes[#[trigger] order[i] as int].key, order[i])
    &&& forall|k: K| #[trigger]
        map.dom().contains(k) ==> order.contains(map[k]) && nodes[map[k] as int].key == k
}

/// The free places are places of the pool that the chain does not use.
pub open spec fn spare(free: Seq<usize>, n: nat, order: Seq<usize>) -> bool {
    &&& lru::apart(free)
    &&& forall|i: int| 0 <= i < free.len() ==> #[trigger] free[i] < n
    &&& forall|i: int| 0 <= i < free.len() ==> !order.contains(#[trigger] free[i])
}

proof fn lemma_other_node<K, V>(
    nodes: Seq<LruNode<K, V>>,
    after: Seq<LruNode<K, V>>,
    head: Option<usize>,
    tail: Option<usize>,
    order: Seq<usize>,
)
    requires
        lru::linked(nodes, head, tail, order),
        after.len() >= nodes.len(),
        forall|i: int|
            0 <= i < nodes.len() && order.contains(i as usize) ==> #[trigger] after[i] == nodes[i],
    ensures
        lru::linked(after, head, tail, order),
        entries_of(after, order) == entries_of(nodes, order),
{
    assert forall|i: int| 0 <= i < order.len() implies #[trigger] lru::placed(
        after,
        order,
        i,
    ) by {
        assert(lru::placed(nodes, order, i));
        assert(order.contains(order[i]));
        assert(after[order[i] as int] == nodes[order[i] as int]);
    }
    assert forall|i: int| 0 <= i < order.len() implies after[order[i] as int]
        == nodes[#[trigger] order[i] as int] by {
        assert(lru::placed(nodes, order, i));
        assert(order.contains(order[i]));
    }
    assert(entries_of(after, order) =~= entries_of(nodes, order));
}

/// The place of a key is the place of its node.
proof fn lemma_place<K, V>(
    map: Map<K, usize>,
    nodes: Seq<LruNode<K, V>>,
    order: Seq<usize>,
    k: K,
)
    requires
        lru::apart(order),
        indexed(map, nodes, order),
    ensures
        map.dom().contains(k) <==> holds(entries_of(nodes, order), k),
        keys_differ(entries_of(nodes, order)),
        map.dom().contains(k) ==> {
            let p = place(entries_of(nodes, order), k);
            0 <= p < order.len() && order[p] == map[k]
        },
{
    let s = entries_of(nodes, order);
    assert forall|i: int, j: int| 0 <= i < j < s.len() implies (#[trigger] s[i]).0 != (
    #[trigger] s[j]).0 by {
        assert(map.contains_pair(nodes[order[i] as int].key, order[i]));
        assert(map.contains_pair(nodes[order[j] as int].key, order[j]));
    }
    if map.dom().contains(k) {
        let i = choose|i: int| 0 <= i < order.len() && order[i] == map[k];
        assert(s[i].0 == k);
        let p = place(s, k);
        assert(0 <= p < s.len() && s[p].0 == k);
        assert(map.contains_pair(nodes[order[p] as int].key, order[p]));
    }
    if holds(s, k) {
        let i = choose|i: int| 0 <= i < s.len() && (#[trigger] s[i]).0 == k;
        assert(map.contains_pair(nodes[order[i] as int].key, order[i]));
    }
}

/// An order with one node moved to the front names the same nodes.
proof fn lemma_front_contains(order: Seq<usize>, p: int, x: usize)
    requires
        0 <= p < order.len(),
    ensures
        (seq![order[p]] + order.remove(p)).contains(x) <==> order.contains(x),
{
    let all = seq![order[p]] + order.remove(p);
    if order.contains(x) {
        let i = choose|i: int| 0 <= i < order.len() && order[i] == x;
        if i == p {
            assert(all[0] == x);
        } else if i < p {
            assert(all[i + 1] == x);
        } else {
            assert(all[i] == x);
        }
    }
    if all.contains(x) {
        let i = choose|i: int| 0 <= i < all.len() && all[i] == x;
        if i == 0 {
            assert(order[p] == x);
        } else if i - 1 < p {
            assert(order[i - 1] == x);
        } else {
            assert(order[i] == x);
        }
    }
}

proof fn lemma_rest_contains(order: Seq<usize>, p: int, x: usize)
    requires
        0 <= p < order.len(),
        lru::apart(order),
    ensures
        order.remove(p).contains(x) <==> order.contains(x) && x != order[p],
{
    let rest = order.remove(p);
    if order.contains(x) && x != order[p] {
        let i = choose|i: int| 0 <= i < order.len() && order[i] == x;
        if i < p {
            assert(rest[i] == x);
        } else {
            assert(rest[i - 1] == x);
        }
    }
    if rest.contains(x) {
        let i = choose|i: int| 0 <= i < rest.len() && rest[i] == x;
        if i < p {
            assert(order[i] == x);
        } else {
            assert(order[i + 1] == x);
        }
    }
}

impl<K: Clone + Eq + Hash, V> DefaultCache<K, V> {
    /// What the cache holds, what was used last first.
    pub closed spec fn items(&self) -> Seq<(K, V)> {
        entries_of(self.chain.nodes@, self.order@)
    }

    /// The most entries that the cache holds; zero where there is no limit.
    pub closed spec fn capacity(&self) -> usize {
        self.max_entries
    }

    pub closed spec fn counts(&self) -> (u64, u64, u64) {
        (self.hits, self.misses, self.evictions)
    }

    pub closed spec fn well_formed(&self) -> bool {
        &&& hash::obeys_key_model::<K>()
        &&& clones_exactly::<K>()
        &&& self.chain.in_order(self.order@)
        &&& indexed(self.map@, self.chain.nodes@, self.order@)
        &&& spare(self.free@, self.chain.nodes@.len(), self.order@)
        &&& self.max_entries > 0 ==> self.order@.len() <= self.max_entries
    }

    /// No key has two entries.
    pub proof fn lemma_keys_differ(&self)
        requires
            self.well_formed(),
        ensures
            keys_differ(self.items()),
    {
        if self.items().len() > 0 {
            lemma_place(self.map@, self.chain.nodes@, self.order@, self.items()[0].0);
        }
    }

    /// A cache with the usual capacity.
    pub fn new() -> (r: Self)
        requires
            hash::obeys_key_model::<K>(),
            clones_exactly::<K>(),
        ensures
            r.well_formed(),
            r.items() == Seq::<(K, V)>::empty(),
            r.capacity() == DEFAULT_CACHE_CAPACITY,
            r.counts() == (0u64, 0u64, 0u64),
    {
        DefaultCache::with_capacity(DEFAULT_CACHE_CAPACITY)
    }

    /// A cache that holds so many entries; zero stands for no limit.
    pub fn with_capacity(max_entries: usize) -> (r: Self)
        requires
            hash::obeys_key_model::<K>(),
            clones_exactly::<K>(),
        ensures
            r.well_formed(),
            r.items() == Seq::<(K, V)>::empty(),
            r.capacity() == max_entries,
            r.counts() == (0u64, 0u64, 0u64),
    {
        let r = DefaultCache {
            map: HashMap::new(),
            chain: Chain { nodes: Vec::new(), head: None, tail: None },
            free: Vec::new(),
            max_entries,
            hits: 0,
            misses: 0,
            evictions: 0,
            order: Ghost(Seq::empty()),
        };
        assert(r.items() =~= Seq::<(K, V)>::empty());
        r
    }

    /// Moves a node to the front.
    fn move_to_head(&mut self, idx: usize, Ghost(p): Ghost<int>)
        requires
            old(self).well_formed(),
            0 <= p < old(self).order@.len(),
            old(self).order@[p] == idx,
        ensures
            final(self).well_formed(),
            final(self).items() == seq![old(self).items()[p]] + old(self).items().remove(p),
            final(self).capacity() == old(self).capacity(),
            final(self).counts() == old(self).counts(),
            final(self).order@.len() > 0,
            final(self).order@[0] == idx,
            idx < final(self).chain.nodes@.len(),
            final(self).chain.nodes@.len() == old(self).chain.nodes@.len(),
    {
        let ghost order = self.order@;
        let ghost nodes = self.chain.nodes@;
        let ghost rest = order.remove(p);
        assert(lru::placed(nodes, order, p));
        self.chain.unlink(idx, Ghost(order), Ghost(p));
        proof {
            lemma_rest_contains(order, p, idx);
        }
        self.chain.push_front(idx, Ghost(rest));
        self.order = Ghost(seq![idx] + rest);
        proof {
            let after = self.chain.nodes@;
            let now = self.order@;
            assert forall|x: usize| now.contains(x) <==> order.contains(x) by {
                lemma_front_contains(order, p, x);
            }
            assert forall|i: int| 0 <= i < now.len() implies self.map@.contains_pair(
                after[#[trigger] now[i] as int].key,
                now[i],
            ) by {
                assert(now.contains(now[i]));
                let j = choose|j: int| 0 <= j < order.len() && order[j] == now[i];
                assert(lru::placed(nodes, order, j));
                assert(after[order[j] as int].key == nodes[order[j] as int].key);
                assert(self.map@.contains_pair(nodes[order[j] as int].key, order[j]));
            }
            assert forall|k: K| #[trigger] self.map@.dom().contains(k) implies now.contains(
                self.map@[k],
            ) && after[self.map@[k] as int].key == k by {
                let j = choose|j: int| 0 <= j < order.len() && order[j] == self.map@[k];
                assert(lru::placed(nodes, order, j));
            }
            let want = seq![old(self).items()[p]] + old(self).items().remove(p);
            assert(self.items().len() == want.len());
            assert forall|i: int| 0 <= i < want.len() implies #[trigger] self.items()[i]
                == want[i] by {
                let j = if i == 0 {
                    p
                } else if i - 1 < p {
                    i - 1
                } else {
                    i
                };
                assert(now[i] == order[j]);
                assert(lru::placed(nodes, order, j));
            }
            assert(self.items() =~= want);
        }
    }

    /// Takes a node out of the chain; its key is out of the index already.
    fn drop_node(&mut self, idx: usize, Ghost(p): Ghost<int>, Ghost(before): Ghost<Self>)
        requires
            before.well_formed(),
            0 <= p < before.order@.len(),
            before.order@[p] == idx,
            old(self).map@ == before.map@.remove(before.chain.nodes@[idx as int].key),
            old(self).chain == before.chain,
            old(self).free == before.free,
            old(self).max_entries == before.max_entries,
            old(self).order@ == before.order@,
        ensures
            final(self).well_formed(),
            final(self).items() == before.items().remove(p),
            final(self).capacity() == old(self).capacity(),
            final(self).counts() == old(self).counts(),
    {
        let ghost order = self.order@;
        let ghost nodes = self.chain.nodes@;
        let ghost rest = order.remove(p);
        assert(lru::placed(nodes, order, p));
        self.chain.unlink(idx, Ghost(order), Ghost(p));
        self.order = Ghost(rest);
        self.free.push(idx);
        proof {
            let after = self.chain.nodes@;
            let gone = nodes[idx as int].key;
            assert forall|x: usize| rest.contains(x) <==> order.contains(x) && x != idx by {
                lemma_rest_contains(order, p, x);
            }
            assert forall|i: int| 0 <= i < rest.len() implies self.map@.contains_pair(
                after[#[trigger] rest[i] as int].key,
                rest[i],
            ) by {
                assert(rest.contains(rest[i]));
                let j = choose|j: int| 0 <= j < order.len() && order[j] == rest[i];
                assert(lru::placed(nodes, order, j));
                assert(before.map@.contains_pair(nodes[order[j] as int].key, order[j]));
                assert(before.map@.contains_pair(nodes[order[p] as int].key, order[p]));
            }
            assert(before.map@.contains_pair(nodes[order[p] as int].key, order[p]));
            assert forall|k: K| #[trigger] self.map@.dom().contains(k) implies rest.contains(
                self.map@[k],
            ) && after[self.map@[k] as int].key == k by {
                assert(before.map@.dom().contains(k));
                let j = choose|j: int| 0 <= j < order.len() && order[j] == self.map@[k];
                assert(lru::placed(nodes, order, j));
            }
            assert forall|i: int| 0 <= i < self.free@.len() implies !rest.contains(
                #[trigger] self.free@[i],
            ) by {}
            assert(lru::apart(self.free@)) by {
                assert forall|i: int, j: int| 0 <= i < j < self.free@.len() implies
                    #[trigger] self.free@[i] != #[trigger] self.free@[j] by {
                    if j == self.free@.len() - 1 {
                        assert(!order.contains(before.free@[i]));
                        assert(order.contains(order[p]));
                    }
                }
            }
            let want = before.items().remove(p);
            assert forall|i: int| 0 <= i < want.len() implies #[trigger] self.items()[i]
                == want[i] by {
                let j = if i < p {
                    i
                } else {
                    i + 1
                };
                assert(rest[i] == order[j]);
                assert(lru::placed(nodes, order, j));
            }
            assert(self.items() =~= want);
        }
    }

    /// Forgets what was used least recently.
    fn evict_tail(&mut self)
        requires
            old(self).well_formed(),
            old(self).items().len() > 0,
        ensures
            final(self).well_formed(),
            final(self).items() == old(self).items().drop_last(),
            final(self).capacity() == old(self).capacity(),
            final(self).counts() == old(self).counts(),
    {
        let ghost before = *self;
        let ghost p = self.order@.len() - 1;
        if let Some(idx) = self.chain.tail {
            assert(lru::placed(self.chain.nodes@, self.order@, p));
            self.map.remove(&self.chain.nodes[idx].key);
            self.drop_node(idx, Ghost(p), Ghost(before));
            assert(before.items().remove(p) =~= before.items().drop_last());
        }
    }

    /// A place in the pool for a new node, outside the chain.
    fn allocate_node(&mut self, key: K, value: V) -> (r: usize)
        requires
            old(self).well_formed(),
        ensures
            final(self).well_formed(),
            final(self).items() == old(self).items(),
            final(self).order == old(self).order,
            final(self).map == old(self).map,
            final(self).max_entries == old(self).max_entries,
            final(self).counts() == old(self).counts(),
            r < final(self).chain.nodes@.len(),
            !final(self).order@.contains(r),
            final(self).chain.nodes@[r as int].key == key,
            final(self).chain.nodes@[r as int].value == value,
            !final(self).free@.contains(r),
    {
        let ghost nodes = self.chain.nodes@;
        let ghost order = self.order@;
        let node = LruNode { key, value, prev: None, next: None };
        let r: usize = match self.free.pop() {
            Some(idx) => {
                self.chain.nodes.set(idx, node);
                idx
            },
            None => {
                let idx: usize = self.chain.nodes.len();
                self.chain.nodes.push(node);
                idx
            },
        };
        proof {
            assert forall|i: int| 0 <= i < order.len() implies #[trigger] order[i] < nodes.len() by {
                assert(lru::placed(nodes, order, i));
            }
            assert forall|i: int|
                0 <= i < nodes.len() && order.contains(
                    i as usize,
                ) implies #[trigger] self.chain.nodes@[i] == nodes[i] by {}
            lemma_other_node(
                nodes,
                self.chain.nodes@,
                self.chain.head,
                self.chain.tail,
                order,
            );
            assert forall|i: int| 0 <= i < order.len() implies self.map@.contains_pair(
                self.chain.nodes@[#[trigger] order[i] as int].key,
                order[i],
            ) by {
                assert(order.contains(order[i]));
                assert(self.chain.nodes@[order[i] as int] == nodes[order[i] as int]);
            }
            assert forall|k: K| #[trigger] self.map@.dom().contains(k) implies order.contains(
                self.map@[k],
            ) && self.chain.nodes@[self.map@[k] as int].key == k by {
                let j = choose|j: int| 0 <= j < order.len() && order[j] == self.map@[k];
                assert(order[j] < nodes.len());
                assert(self.chain.nodes@[order[j] as int] == nodes[order[j] as int]);
            }
        }
        r
    }

    /// Whether there is a value for a key; that is no use of it.
    pub fn has_key(&self, key: &K) -> (r: bool)
        requires
            self.well_formed(),
        ensures
            r == holds(self.items(), *key),
    {
        proof {
            lemma_place(self.map@, self.chain.nodes@, self.order@, *key);
        }
        self.map.contains_key(key)
    }

    /// The value for a key, which is then the one used last.
    fn find(&mut self, key: &K) -> (r: Option<V>) where V: Clone
        requires
            old(self).well_formed(),
        ensures
            final(self).well_formed(),
            final(self).items() == looked_at(old(self).items(), *key),
            final(self).capacity() == old(self).capacity(),
            match r {
                Some(v) => holds(old(self).items(), *key) && vstd::pervasive::cloned(
                    old(self).items()[place(old(self).items(), *key)].1,
                    v,
                ) && final(self).counts() == (
                    counted(old(self).counts().0),
                    old(self).counts().1,
                    old(self).counts().2,
                ),
                None => !holds(old(self).items(), *key) && final(self).counts() == (
                    old(self).counts().0,
                    counted(old(self).counts().1),
                    old(self).counts().2,
                ),
            },
    {
        proof {
            lemma_place(self.map@, self.chain.nodes@, self.order@, *key);
        }
        let found: Option<usize> = match self.map.get(key) {
            Some(idx) => Some(*idx),
            None => None,
        };
        match found {
            Some(idx) => {
                let ghost p = place(self.items(), *key);
                self.move_to_head(idx, Ghost(p));
                self.hits = count(self.hits);
                assert(self.items()[0] == old(self).items()[p]);
                Some(self.chain.nodes[idx].value.clone())
            },
            None => {
                self.misses = count(self.misses);
                None
            },
        }
    }

    /// Puts a new entry in front, where there is room for it.
    fn add_new(&mut self, key: K, value: V)
        requires
            old(self).well_formed(),
            !holds(old(self).items(), key),
            !is_full(old(self).items(), old(self).capacity()),
        ensures
            final(self).well_formed(),
            final(self).items() == seq![(key, value)] + old(self).items(),
            final(self).capacity() == old(self).capacity(),
            final(self).counts() == old(self).counts(),
    {
        proof {
            lemma_place(self.map@, self.chain.nodes@, self.order@, key);
        }
        let copy = key.clone();
        assert(vstd::pervasive::strictly_cloned(key, copy));
        let idx: usize = self.allocate_node(copy, value);
        let ghost order = self.order@;
        let ghost nodes = self.chain.nodes@;
        self.map.insert(key, idx);
        self.chain.push_front(idx, Ghost(order));
        self.order = Ghost(seq![idx] + order);
        proof {
            let now = self.order@;
            let after = self.chain.nodes@;
            assert forall|i: int| 0 <= i < now.len() implies self.map@.contains_pair(
                after[#[trigger] now[i] as int].key,
                now[i],
            ) by {
                if i > 0 {
                    assert(now[i] == order[i - 1]);
                    assert(lru::placed(nodes, order, i - 1));
                    assert(old(self).map@.contains_pair(
                        nodes[order[i - 1] as int].key,
                        order[i - 1],
                    ));
                }
            }
            assert forall|k: K| #[trigger] self.map@.dom().contains(k) implies now.contains(
                self.map@[k],
            ) && after[self.map@[k] as int].key == k by {
                if k == key {
                    assert(now[0] == idx);
                } else {
                    assert(old(self).map@.dom().contains(k));
                    let j = choose|j: int| 0 <= j < order.len() && order[j] == self.map@[k];
                    assert(lru::placed(nodes, order, j));
                    assert(now[j + 1] == order[j]);
                }
            }
            assert forall|i: int| 0 <= i < self.free@.len() implies !now.contains(
                #[trigger] self.free@[i],
            ) by {
                if now.contains(self.free@[i]) {
                    let j = choose|j: int| 0 <= j < now.len() && now[j] == self.free@[i];
                    if j > 0 {
                        assert(order[j - 1] == self.free@[i]);
                        assert(order.contains(self.free@[i]));
                    } else {
                        assert(self.free@.contains(idx));
                    }
                }
            }
            let want = seq![(key, value)] + old(self).items();
            assert forall|i: int| 0 <= i < want.len() implies #[trigger] self.items()[i]
                == want[i] by {
                if i > 0 {
                    assert(now[i] == order[i - 1]);
                    assert(lru::placed(nodes, order, i - 1));
                    assert(entries_of(nodes, order)[i - 1] == old(self).items()[i - 1]);
                }
            }
            assert(self.items() =~= want);
        }
    }

    /// Sets the value for a key, which is then the one used last; where there
    /// is no room, what was used least recently is forgotten.
    fn store(&mut self, key: K, value: V)
        requires
            old(self).well_formed(),
        ensures
            final(self).well_formed(),
            final(self).items() == stored(old(self).items(), key, value, old(self).capacity()),
            final(self).capacity() == old(self).capacity(),
            final(self).counts() == (
                old(self).counts().0,
                old(self).counts().1,
                if !holds(old(self).items(), key) && is_full(
                    old(self).items(),
                    old(self).capacity(),
                ) {
                    counted(old(self).counts().2)
                } else {
                    old(self).counts().2
                },
            ),
    {
        proof {
            lemma_place(self.map@, self.chain.nodes@, self.order@, key);
        }
        let found: Option<usize> = match self.map.get(&key) {
            Some(idx) => Some(*idx),
            None => None,
        };
        match found {
            Some(idx) => {
                let ghost p = place(self.items(), key);
                let ghost nodes = self.chain.nodes@;
                let ghost order = self.order@;
                assert(lru::placed(nodes, order, p));
                self.chain.nodes[idx].value = value;
                proof {
                    let after = self.chain.nodes@;
                    assert forall|i: int| 0 <= i < order.len() implies #[trigger] lru::placed(
                        after,
                        order,
                        i,
                    ) by {
                        assert(lru::placed(nodes, order, i));
                    }
                    assert forall|i: int| 0 <= i < nodes.len() implies (#[trigger] after[i]).key
                        == nodes[i].key by {}
                    assert forall|i: int| 0 <= i < order.len() implies self.map@.contains_pair(
                        after[#[trigger] order[i] as int].key,
                        order[i],
                    ) by {
                        assert(lru::placed(nodes, order, i));
                        assert(self.map@.contains_pair(nodes[order[i] as int].key, order[i]));
                    }
                    assert forall|k: K| #[trigger] self.map@.dom().contains(
                        k,
                    ) implies order.contains(self.map@[k]) && after[self.map@[k] as int].key
                        == k by {
                        let j = choose|j: int| 0 <= j < order.len() && order[j] == self.map@[k];
                        assert(lru::placed(nodes, order, j));
                    }
                    let want = old(self).items().update(p, (key, value));
                    assert forall|i: int| 0 <= i < want.len() implies #[trigger] self.items()[i]
                        == want[i] by {
                        assert(lru::placed(nodes, order, i));
                        if i != p {
                            assert(order[i] != order[p]);
                        }
                    }
                    assert(self.items() =~= want);
                }
                self.move_to_head(idx, Ghost(p));
                assert(old(self).items().update(p, (key, value)).remove(p)
                    =~= old(self).items().remove(p));
            },
            None => {
                if self.max_entries > 0 && self.map.len() >= self.max_entries {
                    self.evict_tail();
                    self.evictions = count(self.evictions);
                    proof {
                        assert(self.well_formed());
                        let s = old(self).items();
                        if holds(s.drop_last(), key) {
                            let i = choose|i: int|
                                0 <= i < s.drop_last().len() && (#[trigger] s.drop_last()[i]).0
                                    == key;
                            assert(s[i].0 == key);
                        }
                    }
                }
                self.add_new(key, value);
            },
        }
    }

    /// Forgets a key.
    fn forget(&mut self, key: &K)
        requires
            old(self).well_formed(),
        ensures
            final(self).well_formed(),
            final(self).items() == without(old(self).items(), *key),
            final(self).capacity() == old(self).capacity(),
            final(self).counts() == old(self).counts(),
    {
        let ghost before = *self;
        proof {
            lemma_place(self.map@, self.chain.nodes@, self.order@, *key);
        }
        let found: Option<usize> = self.map.remove(key);
        match found {
            Some(idx) => {
                let ghost p = place(before.items(), *key);
                self.drop_node(idx, Ghost(p), Ghost(before));
            },
            None => {
                assert(self.map@ =~= before.map@);
            },
        }
    }
}

impl<K: Clone + Eq + Hash, V: Clone> QueryCacheType<K, V> for DefaultCache<K, V> {
    open spec fn entries(&self) -> Seq<(K, V)> {
        self.items()
    }

    open spec fn wf(&self) -> bool {
        self.well_formed()
    }

    open spec fn takes(&self, key: K) -> bool {
        true
    }

    fn lookup(&mut self, key: &K) -> (r: Option<V>)
        ensures
            final(self).items() == looked_at(old(self).items(), *key),
            final(self).capacity() == old(self).capacity(),
            final(self).counts() == counts_looked_at(
                old(self).counts(),
                old(self).items(),
                *key,
            ),
    {
        let r = self.find(key);
        proof {
            lemma_looked_at(old(self).items(), *key);
        }
        r
    }

    fn insert(&mut self, key: K, value: V)
        ensures
            final(self).items() == stored(old(self).items(), key, value, old(self).capacity()),
            final(self).capacity() == old(self).capacity(),
            final(self).counts() == counts_stored(
                old(self).counts(),
                old(self).items(),
                key,
                old(self).capacity(),
            ),
    {
        self.store(key, value);
        proof {
            assert(self.items()[0] == (key, value));
            lemma_place(self.map@, self.chain.nodes@, self.order@, key);
            assert(self.order@[0] == self.map@[key]);
        }
    }

    fn remove(&mut self, key: &K)
        ensures
            final(self).capacity() == old(self).capacity(),
            final(self).counts() == old(self).counts(),
    {
        self.forget(key);
    }

    fn clear(&mut self)
        ensures
            final(self).capacity() == old(self).capacity(),
            final(self).counts() == old(self).counts(),
    {
        self.map.clear();
        self.chain.nodes.clear();
        self.chain.head = None;
        self.chain.tail = None;
        self.free.clear();
        self.order = Ghost(Seq::empty());
    }

    fn len(&self) -> (r: usize) {
        self.map.len()
    }

    fn listing(&self) -> (r: Vec<(K, &V)>) {
        let mut out: Vec<(K, &V)> = Vec::new();
        let mut at = self.chain.head;
        let ghost order = self.order@;
        let ghost nodes = self.chain.nodes@;
        while at.is_some()
            invariant
                self.well_formed(),
                order == self.order@,
                nodes == self.chain.nodes@,
                out@.len() <= order.len(),
                at == if out@.len() < order.len() {
                    Some(order[out@.len() as int])
                } else {
                    None
                },
                forall|i: int|
                    0 <= i < out@.len() ==> (#[trigger] out@[i]).0 == self.items()[i].0
                        && *out@[i].1 == self.items()[i].1,
            decreases order.len() - out@.len(),
        {
            assert(lru::placed(nodes, order, out@.len() as int));
            if let Some(idx) = at {
                let node = &self.chain.nodes[idx];
                let copy = node.key.clone();
                assert(vstd::pervasive::strictly_cloned(node.key, copy));
                out.push((copy, &node.value));
                at = node.next;
            }
        }
        out
    }

    fn stats(&self) -> (r: CacheStats)
        ensures
            (r.hits, r.misses, r.evictions) == self.counts(),
    {
        CacheStats {
            hits: self.hits,
            misses: self.misses,
            evictions: self.evictions,
            entries: self.map.len(),
        }
    }
}

/// A look changes the order of the entries alone.
proof fn lemma_looked_at<K, V>(s: Seq<(K, V)>, k: K)
    ensures
        looked_at(s, k).to_multiset() == s.to_multiset(),
{
    if holds(s, k) {
        let p = place(s, k);
        let rest = s.remove(p);
        broadcast use vstd::seq_lib::group_to_multiset_ensures;

        vstd::seq_lib::lemma_multiset_commutative(seq![s[p]], rest);
        assert(rest.insert(p, s[p]) =~= s);
        assert((seq![s[p]] + rest) =~= rest.insert(0, s[p]));
        assert(rest.insert(0, s[p]).to_multiset() =~= s.to_multiset());
    }
}

// ---------------------------------------------------------------------------
// One entry
// ---------------------------------------------------------------------------

/// A cache for the only key.
#[derive(Debug)]
pub struct SingleCache<V> {
    entry: Option<V>,
    hits: u64,
    misses: u64,
}

impl<V> SingleCache<V> {
    pub closed spec fn value(&self) -> Option<V> {
        self.entry
    }

    pub closed spec fn counts(&self) -> (u64, u64) {
        (self.hits, self.misses)
    }

    pub fn new() -> (r: Self)
        ensures
            r.value() is None,
            r.counts() == (0u64, 0u64),
    {
        SingleCache { entry: None, hits: 0, misses: 0 }
    }
}

/// The entries of a cache with one place.
pub open spec fn single_entries<V>(v: Option<V>) -> Seq<((), V)> {
    match v {
        Some(x) => seq![((), x)],
        None => Seq::empty(),
    }
}

proof fn lemma_single<V>(v: Option<V>)
    ensures
        holds(single_entries(v), ()) <==> v is Some,
        v is Some ==> place(single_entries(v), ()) == 0,
{
    if v is Some {
        assert(single_entries(v)[0].0 == ());
        assert(holds(single_entries(v), ()));
    }
}

impl<V: Clone> QueryCacheType<(), V> for SingleCache<V> {
    open spec fn entries(&self) -> Seq<((), V)> {
        single_entries(self.value())
    }

    open spec fn wf(&self) -> bool {
        true
    }

    open spec fn takes(&self, key: ()) -> bool {
        true
    }

    fn lookup(&mut self, key: &()) -> (r: Option<V>)
        ensures
            r is Some <==> old(self).value() is Some,
            r is Some ==> vstd::pervasive::cloned(old(self).value()->0, r->0),
            final(self).value() == old(self).value(),
            final(self).counts() == (if r is Some {
                (counted(old(self).counts().0), old(self).counts().1)
            } else {
                (old(self).counts().0, counted(old(self).counts().1))
            }),
    {
        proof {
            lemma_single(self.value());
        }
        match &self.entry {
            Some(v) => {
                let r = v.clone();
                self.hits = count(self.hits);
                Some(r)
            },
            None => {
                self.misses = count(self.misses);
                None
            },
        }
    }

    fn insert(&mut self, key: (), value: V)
        ensures
            final(self).value() == Some(value),
            final(self).counts() == old(self).counts(),
    {
        self.entry = Some(value);
        proof {
            lemma_single(self.value());
        }
    }

    fn remove(&mut self, key: &())
        ensures
            final(self).value() is None,
            final(self).counts() == old(self).counts(),
    {
        proof {
            lemma_single(self.value());
            assert(without(self.entries(), ()) =~= Seq::<((), V)>::empty());
        }
        self.entry = None;
    }

    fn clear(&mut self)
        ensures
            final(self).value() is None,
            final(self).counts() == old(self).counts(),
    {
        self.entry = None;
    }

    fn len(&self) -> (r: usize) {
        if self.entry.is_some() {
            1
        } else {
            0
        }
    }

    fn listing(&self) -> (r: Vec<((), &V)>) {
        let mut out: Vec<((), &V)> = Vec::new();
        if let Some(v) = &self.entry {
            out.push(((), v));
        }
        out
    }

    fn stats(&self) -> (r: CacheStats)
        ensures
            (r.hits, r.misses) == self.counts(),
            r.evictions == 0,
    {
        let entries: usize = self.len();
        CacheStats { hits: self.hits, misses: self.misses, evictions: 0, entries }
    }
}

// ---------------------------------------------------------------------------
// By definition
// ---------------------------------------------------------------------------

/// A cache for definitions, by their numbers.
#[derive(Debug)]
pub struct DefIdCache<V> {
    slots: Vec<Option<V>>,
    hits: u64,
    misses: u64,
}

/// The value in a slot.
pub open spec fn slot<V>(slots: Seq<Option<V>>, i: int) -> Option<V> {
    if 0 <= i < slots.len() {
        slots[i]
    } else {
        None
    }
}

/// The slots that are in use among the first `n`.
pub open spec fn used<V>(slots: Seq<Option<V>>, n: nat) -> Seq<(DefId, V)>
    decreases n,
{
    if n == 0 {
        Seq::empty()
    } else {
        let before = used(slots, (n - 1) as nat);
        match slot(slots, n - 1) {
            Some(v) => before.push((DefId((n - 1) as u64), v)),
            None => before,
        }
    }
}

impl<V> DefIdCache<V> {
    /// The value for a definition.
    pub closed spec fn value(&self, d: DefId) -> Option<V> {
        slot(self.slots@, d.0 as int)
    }

    pub closed spec fn counts(&self) -> (u64, u64) {
        (self.hits, self.misses)
    }

    /// The numbers of the slots are numbers of definitions.
    pub closed spec fn well_formed(&self) -> bool {
        self.slots@.len() <= u64::MAX
    }

    pub fn new() -> (r: Self)
        ensures
            r.well_formed(),
            forall|d: DefId| #[trigger] r.value(d) is None,
            r.counts() == (0u64, 0u64),
    {
        DefIdCache { slots: Vec::new(), hits: 0, misses: 0 }
    }
}

/// The slots that are in use are in the order of their numbers, and hold what
/// is in them.
proof fn lemma_used<V>(slots: Seq<Option<V>>, n: nat, d: DefId)
    requires
        n <= slots.len(),
        n <= u64::MAX,
    ensures
        holds(used(slots, n), d) <==> d.0 < n && slot(slots, d.0 as int) is Some,
        holds(used(slots, n), d) ==> {
            let p = place(used(slots, n), d);
            0 <= p < used(slots, n).len() && used(slots, n)[p] == (d, slots[d.0 as int]->0)
        },
        forall|i: int| 0 <= i < used(slots, n).len() ==> (#[trigger] used(slots, n)[i]).0.0 < n,
        keys_differ(used(slots, n)),
    decreases n,
{
    if n > 0 {
        let before = used(slots, (n - 1) as nat);
        let now = used(slots, n);
        lemma_used(slots, (n - 1) as nat, d);
        assert forall|i: int| 0 <= i < now.len() implies (#[trigger] now[i]).0.0 < n by {
            if i < before.len() {
                assert(now[i] == before[i]);
            }
        }
        assert forall|i: int, j: int| 0 <= i < j < now.len() implies (#[trigger] now[i]).0 != (
        #[trigger] now[j]).0 by {
            assert(now[i] == before[i]);
            if j < before.len() {
                assert(now[j] == before[j]);
            }
        }
        if holds(before, d) {
            let p = place(before, d);
            assert(now[p].0 == d);
        }
        if d.0 == n - 1 && slot(slots, n - 1) is Some {
            assert(now[before.len() as int].0 == d);
        }
        if holds(now, d) {
            let q = place(now, d);
            assert(0 <= q < now.len() && now[q].0 == d);
            if q < before.len() {
                assert(before[q].0 == d);
                let p = place(before, d);
                if p < q {
                    assert(before[p].0 != before[q].0);
                } else if q < p {
                    assert(before[q].0 != before[p].0);
                }
            }
        }
    }
}

/// Emptying a slot takes its entry out.
proof fn lemma_used_without<V>(slots: Seq<Option<V>>, n: nat, d: DefId)
    requires
        n <= slots.len(),
        n <= u64::MAX,
        d.0 < slots.len(),
    ensures
        used(slots.update(d.0 as int, None), n) == without(used(slots, n), d),
    decreases n,
{
    if n > 0 {
        let after = slots.update(d.0 as int, None);
        let before = used(slots, (n - 1) as nat);
        lemma_used_without(slots, (n - 1) as nat, d);
        lemma_used(slots, (n - 1) as nat, d);
        lemma_used(slots, n, d);
        let now = used(slots, n);
        if d.0 == n - 1 {
            if slots[n - 1] is Some {
                let p = place(now, d);
                assert(now[before.len() as int].0 == d);
                assert(p == before.len()) by {
                    if p < before.len() {
                        assert(now[p] == before[p]);
                    }
                }
                assert(now.remove(p) =~= before);
            }
        } else if holds(before, d) {
            let p = place(before, d);
            assert(now[p].0 == d);
            let q = place(now, d);
            if p < q {
                assert(now[p].0 != now[q].0);
            } else if q < p {
                assert(now[q].0 != now[p].0);
            }
            assert(used(after, n) =~= without(now, d));
        } else {
            assert(used(after, n) =~= without(now, d));
        }
    } else {
        assert(used(slots.update(d.0 as int, None), 0) =~= without(used(slots, 0), d)) by {
            lemma_used(slots, 0, d);
        }
    }
}

impl<V: Clone> QueryCacheType<DefId, V> for DefIdCache<V> {
    closed spec fn entries(&self) -> Seq<(DefId, V)> {
        used(self.slots@, self.slots@.len())
    }

    open spec fn wf(&self) -> bool {
        self.well_formed()
    }

    /// The number of the definition is that of a place in memory.
    open spec fn takes(&self, key: DefId) -> bool {
        key.0 < usize::MAX
    }

    fn lookup(&mut self, key: &DefId) -> (r: Option<V>)
        ensures
            forall|d: DefId| #[trigger] final(self).value(d) == old(self).value(d),
            match r {
                Some(v) => old(self).value(*key) is Some && vstd::pervasive::cloned(
                    old(self).value(*key)->0,
                    v,
                ),
                None => old(self).value(*key) is None,
            },
            final(self).counts() == (if r is Some {
                (counted(old(self).counts().0), old(self).counts().1)
            } else {
                (old(self).counts().0, counted(old(self).counts().1))
            }),
    {
        proof {
            lemma_used(self.slots@, self.slots@.len(), *key);
        }
        if key.0 < self.slots.len() as u64 {
            match &self.slots[key.0 as usize] {
                Some(v) => {
                    let r = v.clone();
                    self.hits = count(self.hits);
                    return Some(r);
                },
                None => {},
            }
        }
        self.misses = count(self.misses);
        None
    }

    fn insert(&mut self, key: DefId, value: V)
        ensures
            forall|d: DefId| #[trigger]
                final(self).value(d) == if d == key {
                    Some(value)
                } else {
                    old(self).value(d)
                },
            final(self).counts() == old(self).counts(),
    {
        let idx: usize = key.0 as usize;
        while self.slots.len() <= idx
            invariant
                idx == key.0,
                idx < usize::MAX,
                self.slots@.len() <= u64::MAX,
                self.slots@.len() >= old(self).slots@.len(),
                forall|i: int|
                    0 <= i < self.slots@.len() ==> #[trigger] self.slots@[i] == slot(
                        old(self).slots@,
                        i,
                    ),
                self.counts() == old(self).counts(),
            decreases idx + 1 - self.slots@.len(),
        {
            self.slots.push(None);
        }
        self.slots.set(idx, Some(value));
        proof {
            assert forall|d: DefId| #[trigger] self.value(d) == if d == key {
                Some(value)
            } else {
                old(self).value(d)
            } by {
                if d.0 < self.slots@.len() && d != key {
                    assert(self.slots@[d.0 as int] == slot(old(self).slots@, d.0 as int));
                }
            }
            lemma_used(self.slots@, self.slots@.len(), key);
        }
    }

    fn remove(&mut self, key: &DefId)
        ensures
            forall|d: DefId| #[trigger]
                final(self).value(d) == if d == *key {
                    None
                } else {
                    old(self).value(d)
                },
            final(self).counts() == old(self).counts(),
    {
        proof {
            lemma_used(self.slots@, self.slots@.len(), *key);
        }
        if key.0 < self.slots.len() as u64 {
            proof {
                lemma_used_without(self.slots@, self.slots@.len(), *key);
            }
            self.slots.set(key.0 as usize, None);
        }
    }

    fn clear(&mut self)
        ensures
            forall|d: DefId| #[trigger] final(self).value(d) is None,
            final(self).counts() == old(self).counts(),
    {
        self.slots.clear();
    }

    fn len(&self) -> (r: usize) {
        let mut n: usize = 0;
        for i in 0..self.slots.len()
            invariant
                n == used(self.slots@, i as nat).len(),
                n <= i,
        {
            if self.slots[i].is_some() {
                n = n + 1;
            }
        }
        n
    }

    fn listing(&self) -> (r: Vec<(DefId, &V)>)
    {
        let mut out: Vec<(DefId, &V)> = Vec::new();
        for i in 0..self.slots.len()
            invariant
                self.slots@.len() <= u64::MAX,
                out@.len() == used(self.slots@, i as nat).len(),
                forall|k: int|
                    0 <= k < out@.len() ==> (#[trigger] out@[k]).0 == used(
                        self.slots@,
                        i as nat,
                    )[k].0 && *out@[k].1 == used(self.slots@, i as nat)[k].1,
        {
            if let Some(v) = &self.slots[i] {
                out.push((DefId(i as u64), v));
            }
        }
        out
    }

    fn stats(&self) -> (r: CacheStats)
        ensures
            (r.hits, r.misses) == self.counts(),
            r.evictions == 0,
    {
        let entries: usize = self.len();
        CacheStats { hits: self.hits, misses: self.misses, evictions: 0, entries }
    }
}

// ---------------------------------------------------------------------------
// Laws
// ---------------------------------------------------------------------------

/// What was stored last is found.
pub proof fn law_stored_is_found<K, V>(s: Seq<(K, V)>, k: K, v: V, capacity: usize)
    requires
        keys_differ(s),
    ensures
        holds(stored(s, k, v, capacity), k),
        stored(s, k, v, capacity)[place(stored(s, k, v, capacity), k)].1 == v,
        keys_differ(stored(s, k, v, capacity)),
{
    let t = stored(s, k, v, capacity);
    law_keys_stay_apart(s, k, v, capacity);
    assert(t[0] == (k, v));
    let p = place(t, k);
    assert(0 <= p < t.len() && t[p].0 == k);
    if p != 0 {
        assert(t[0].0 != t[p].0);
    }
}

/// No key gets a second entry.
pub proof fn law_keys_stay_apart<K, V>(s: Seq<(K, V)>, k: K, v: V, capacity: usize)
    requires
        keys_differ(s),
    ensures
        keys_differ(stored(s, k, v, capacity)),
        keys_differ(looked_at(s, k)),
        keys_differ(without(s, k)),
{
    let rest = without(s, k);
    assert forall|i: int, j: int| 0 <= i < j < rest.len() implies (#[trigger] rest[i]).0 != (
    #[trigger] rest[j]).0 by {
        if holds(s, k) {
            let p = place(s, k);
            assert(rest[i] == s[if i < p {
                i
            } else {
                i + 1
            }]);
            assert(rest[j] == s[if j < p {
                j
            } else {
                j + 1
            }]);
        }
    }
    assert forall|i: int| 0 <= i < rest.len() implies (#[trigger] rest[i]).0 != k by {
        if holds(s, k) {
            let p = place(s, k);
            assert(0 <= p < s.len() && s[p].0 == k);
            let q = if i < p {
                i
            } else {
                i + 1
            };
            assert(rest[i] == s[q]);
            assert(s[q].0 != s[p].0);
        } else {
            assert(s[i].0 != k);
        }
    }
    let t = stored(s, k, v, capacity);
    assert forall|i: int, j: int| 0 <= i < j < t.len() implies (#[trigger] t[i]).0 != (
    #[trigger] t[j]).0 by {
        if holds(s, k) {
            assert(t[j] == rest[j - 1]);
            if i > 0 {
                assert(t[i] == rest[i - 1]);
            }
        } else {
            assert(t[j] == s[j - 1]);
            assert(s[j - 1].0 != k);
            if i > 0 {
                assert(t[i] == s[i - 1]);
            }
        }
    }
    let u = looked_at(s, k);
    assert forall|i: int, j: int| 0 <= i < j < u.len() implies (#[trigger] u[i]).0 != (
    #[trigger] u[j]).0 by {
        if holds(s, k) {
            let p = place(s, k);
            assert(0 <= p < s.len() && s[p].0 == k);
            assert(u[j] == rest[j - 1]);
            if i > 0 {
                assert(u[i] == rest[i - 1]);
            }
        }
    }
}

/// Forgetting a key forgets it, and leaves the others with their values.
pub proof fn law_forgetting_is_exact<K, V>(s: Seq<(K, V)>, k: K, other: K)
    requires
        keys_differ(s),
    ensures
        !holds(without(s, k), k),
        other != k ==> holds(without(s, k), other) == holds(s, other),
        other != k && holds(s, other) ==> without(s, k)[place(without(s, k), other)].1
            == s[place(s, other)].1,
{
    let rest = without(s, k);
    let p = place(s, k);
    if holds(s, k) {
        assert(0 <= p < s.len() && s[p].0 == k);
        assert forall|i: int| 0 <= i < rest.len() implies (#[trigger] rest[i]).0 != k by {
            let q = if i < p {
                i
            } else {
                i + 1
            };
            assert(rest[i] == s[q]);
            assert(s[q].0 != s[p].0);
        }
    }
    if other != k && holds(s, other) {
        let a = place(s, other);
        assert(0 <= a < s.len() && s[a].0 == other);
        let b = if !holds(s, k) || a < p {
            a
        } else {
            a - 1
        };
        assert(rest[b] == s[a]);
        let c = place(rest, other);
        assert(0 <= c < rest.len() && rest[c].0 == other);
        let e = if !holds(s, k) || c < p {
            c
        } else {
            c + 1
        };
        assert(rest[c] == s[e]);
        if e < a {
            assert(s[e].0 != s[a].0);
        } else if a < e {
            assert(s[a].0 != s[e].0);
        }
    }
    if other != k && holds(rest, other) {
        let c = place(rest, other);
        assert(0 <= c < rest.len() && rest[c].0 == other);
        assert(rest[c] == s[if !holds(s, k) || c < p {
            c
        } else {
            c + 1
        }]);
    }
}

/// A look at one entry leaves every entry with its value.
pub proof fn law_looking_keeps_entries<K, V>(s: Seq<(K, V)>, k: K, other: K)
    requires
        keys_differ(s),
    ensures
        holds(looked_at(s, k), other) == holds(s, other),
        holds(s, other) ==> looked_at(s, k)[place(looked_at(s, k), other)] == s[place(s, other)],
{
    if holds(s, k) {
        let p = place(s, k);
        assert(0 <= p < s.len() && s[p].0 == k);
        lemma_front_keeps(s, s[p], k, other);
    }
}

/// Storing an entry leaves every other one with its value where there is room;
/// a cache without a limit always has room.
pub proof fn law_room_keeps_others<K, V>(s: Seq<(K, V)>, k: K, v: V, capacity: usize, other: K)
    requires
        keys_differ(s),
        holds(s, k) || !is_full(s, capacity),
        other != k,
    ensures
        holds(stored(s, k, v, capacity), other) == holds(s, other),
        holds(s, other) ==> stored(s, k, v, capacity)[place(stored(s, k, v, capacity), other)]
            == s[place(s, other)],
{
    lemma_front_keeps(s, (k, v), k, other);
}

/// The entries with the one for a key taken out and put in front.
proof fn lemma_front_keeps<K, V>(s: Seq<(K, V)>, e: (K, V), k: K, other: K)
    requires
        keys_differ(s),
        e.0 == k,
        other != k || (holds(s, k) && e == s[place(s, k)]),
    ensures
        ({
            let t = seq![e] + without(s, k);
            &&& holds(t, other) == holds(s, other)
            &&& holds(s, other) ==> t[place(t, other)] == s[place(s, other)]
        }),
{
    let rest = without(s, k);
    let t = seq![e] + rest;
    law_keys_stay_apart(s, k, e.1, 0);
    law_forgetting_is_exact(s, k, other);
    assert(t[0] == e);
    if other != k {
        if holds(rest, other) {
            let i = place(rest, other);
            assert(0 <= i < rest.len() && rest[i].0 == other);
            assert(t[i + 1] == rest[i]);
            let j = place(t, other);
            assert(0 <= j < t.len() && t[j].0 == other);
            assert(j != 0);
            assert(t[j] == rest[j - 1]);
            if j - 1 != i {
                assert(rest[j - 1].0 == rest[i].0);
            }
        }
        if holds(t, other) {
            let j = place(t, other);
            assert(0 <= j < t.len() && t[j].0 == other);
            assert(t[j] == rest[j - 1]);
        }
    } else {
        let j = place(t, other);
        assert(0 <= j < t.len() && t[j].0 == other);
        if j != 0 {
            assert(t[j] == rest[j - 1]);
        }
    }
}

/// A cache with a limit stays within it.
pub proof fn law_size_stays_bounded<K, V>(s: Seq<(K, V)>, k: K, v: V, capacity: usize)
    requires
        capacity > 0,
        s.len() <= capacity,
    ensures
        stored(s, k, v, capacity).len() <= capacity,
{
    if holds(s, k) {
        let p = place(s, k);
        assert(0 <= p < s.len() && s[p].0 == k);
    }
}

/// Only what was used least recently is forgotten, and only where there is no
/// room.
pub proof fn law_forgets_least_recent<K, V>(
    s: Seq<(K, V)>,
    k: K,
    v: V,
    capacity: usize,
    i: int,
)
    requires
        0 <= i < s.len(),
        s[i].0 != k,
        keys_differ(s),
    ensures
        stored(s, k, v, capacity).contains(s[i]) || (is_full(s, capacity) && !holds(s, k) && i
            == s.len() - 1),
{
    let t = stored(s, k, v, capacity);
    if holds(s, k) {
        let p = place(s, k);
        assert(0 <= p < s.len() && s[p].0 == k);
        if i < p {
            assert(t[i + 1] == s[i]);
        } else {
            assert(t[i] == s[i]);
        }
    } else if is_full(s, capacity) {
        if i < s.len() - 1 {
            assert(t[i + 1] == s[i]);
        }
    } else {
        assert(t[i + 1] == s[i]);
    }
}

/// What was looked at last is not what is forgotten next.
pub proof fn law_use_protects<K, V>(s: Seq<(K, V)>, k: K, j: K, v: V, capacity: usize)
    requires
        keys_differ(s),
        holds(s, k),
        j != k,
        capacity > 1,
    ensures
        holds(stored(looked_at(s, k), j, v, capacity), k),
{
    let u = looked_at(s, k);
    let p = place(s, k);
    assert(0 <= p < s.len() && s[p].0 == k);
    assert(u[0].0 == k);
    law_keys_stay_apart(s, k, v, capacity);
    law_forgets_least_recent(u, j, v, capacity, 0);
    let t = stored(u, j, v, capacity);
    if t.contains(u[0]) {
        let i = choose|i: int| 0 <= i < t.len() && t[i] == u[0];
        assert(t[i].0 == k);
    }
}

/// A look for a key is counted once: as a hit where an entry has the key, else as a miss.
pub proof fn law_looks_are_counted<K, V>(counts: (u64, u64, u64), s: Seq<(K, V)>, k: K)
    requires
        counts.0 < u64::MAX,
        counts.1 < u64::MAX,
    ensures
        ({
            let now = counts_looked_at(counts, s, k);
            &&& (exists|i: int| 0 <= i < s.len() && (#[trigger] s[i]).0 == k) ==> now.0 == counts.0
                + 1 && now.1 == counts.1
            &&& (forall|i: int| 0 <= i < s.len() ==> (#[trigger] s[i]).0 != k) ==> now.0 == counts.0
                && now.1 == counts.1 + 1
            &&& now.2 == counts.2
        }),
{
}

/// An entry that goes to make room is counted, and nothing else is: the entries from before,
/// the new one and the one that it replaces account for what is there.
pub proof fn law_evictions_are_counted<K, V>(
    counts: (u64, u64, u64),
    s: Seq<(K, V)>,
    k: K,
    v: V,
    capacity: usize,
)
    requires
        counts.2 < u64::MAX,
        keys_differ(s),
    ensures
        ({
            let now = counts_stored(counts, s, k, capacity);
            let new: int = if exists|i: int| 0 <= i < s.len() && (#[trigger] s[i]).0 == k {
                0
            } else {
                1
            };
            &&& s.len() + new == stored(s, k, v, capacity).len() + (now.2 - counts.2)
            &&& now.0 == counts.0 && now.1 == counts.1
        }),
{
}

} // verus!
