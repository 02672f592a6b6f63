//! Tables from keys to values.
use crate::keyset::Key;
use vstd::prelude::*;

verus! {

/// A table.
pub struct Table<K: Key, V> {
    items: Vec<(K, V)>,
}

/// The place of a key among the first `n` entries.
pub open spec fn index_of<K, V>(s: Seq<(K, V)>, k: K, n: nat) -> Option<int>
    decreases n,
{
    if n == 0 || n > s.len() {
        None
    } else {
        match index_of(s, k, (n - 1) as nat) {
            Some(i) => Some(i),
            None => if s[n - 1].0 == k {
                Some(n - 1)
            } else {
                None
            },
        }
    }
}

/// No key is there twice.
pub open spec fn distinct<K, V>(s: Seq<(K, V)>) -> bool {
    forall|i: int, j: int| 0 <= i < j < s.len() ==> (#[trigger] s[i]).0 != (#[trigger] s[j]).0
}

/// The entries as a map.
pub open spec fn as_map<K, V>(s: Seq<(K, V)>) -> Map<K, V> {
    Map::new(
        |k: K| index_of(s, k, s.len()) is Some,
        |k: K| s[index_of(s, k, s.len())->0].1,
    )
}

/// The keys of the table, each once.
pub open spec fn is_listing<K, V>(m: Map<K, V>, keys: Seq<K>) -> bool {
    keys.no_duplicates() && forall|k: K| #[trigger] m.dom().contains(k) <==> keys.contains(k)
}

proof fn lemma_index<K, V>(s: Seq<(K, V)>, k: K, n: nat)
    requires
        n <= s.len(),
    ensures
        match index_of(s, k, n) {
            Some(i) => 0 <= i < n && s[i].0 == k,
            None => forall|i: int| 0 <= i < n ==> (#[trigger] s[i]).0 != k,
        },
    decreases n,
{
    if n > 0 {
        lemma_index(s, k, (n - 1) as nat);
    }
}

/// The keys of the entries are the keys of the table.
proof fn lemma_listing<K, V>(s: Seq<(K, V)>)
    requires
        distinct(s),
    ensures
        is_listing(as_map(s), Seq::new(s.len(), |i: int| s[i].0)),
{
    let keys = Seq::new(s.len(), |i: int| s[i].0);
    assert(keys.no_duplicates()) by {
        assert forall|i: int, j: int|
            0 <= i < keys.len() && 0 <= j < keys.len() && i != j implies keys[i]
            != keys[j] by {
            if i < j {
                assert(s[i].0 != s[j].0);
            } else {
                assert(s[j].0 != s[i].0);
            }
        }
    }
    assert forall|k: K| #[trigger] as_map(s).dom().contains(k) <==> keys.contains(k) by {
        lemma_index(s, k, s.len());
        if as_map(s).dom().contains(k) {
            assert(keys[index_of(s, k, s.len())->0] == k);
        }
        if keys.contains(k) {
            let i = choose|i: int| 0 <= i < keys.len() && keys[i] == k;
            assert(s[i].0 == k);
        }
    }
}

impl<K: Key, V> View for Table<K, V> {
    type V = Map<K, V>;

    closed spec fn view(&self) -> Map<K, V> {
        as_map(self.items@)
    }
}

impl<K: Key, V> Table<K, V> {
    pub closed spec fn wf(&self) -> bool {
        distinct(self.items@)
    }

    pub fn new() -> (r: Self)
        ensures
            r.wf(),
            r@ == Map::<K, V>::empty(),
    {
        let r = Table { items: Vec::new() };
        assert(r@ =~= Map::<K, V>::empty());
        r
    }

    /// The place of a key.
    fn find(&self, k: &K) -> (r: Option<usize>)
        requires
            self.wf(),
        ensures
            match r {
                Some(i) => i < self.items@.len() && self.items@[i as int].0 == *k && self@.dom().contains(
                    *k,
                ) && self@[*k] == self.items@[i as int].1,
                None => !self@.dom().contains(*k),
            },
    {
        proof {
            lemma_index(self.items@, *k, self.items@.len());
        }
        let mut i: usize = 0;
        while i < self.items.len()
            invariant
                i <= self.items@.len(),
                self.wf(),
                forall|j: int| 0 <= j < i ==> (#[trigger] self.items@[j]).0 != *k,
                match index_of(self.items@, *k, self.items@.len()) {
                    Some(j) => 0 <= j < self.items@.len() && self.items@[j].0 == *k,
                    None => forall|j: int|
                        0 <= j < self.items@.len() ==> (#[trigger] self.items@[j]).0 != *k,
                },
            decreases self.items.len() - i,
        {
            if self.items[i].0.same(k) {
                proof {
                    let j = index_of(self.items@, *k, self.items@.len())->0;
                    assert(self.items@[i as int].0 == *k);
                    if j != i {
                        if j < i {
                            assert(self.items@[j].0 != *k);
                        } else {
                            assert(self.items@[i as int].0 != self.items@[j].0);
                        }
                    }
                }
                return Some(i);
            }
            i = i + 1;
        }
        None
    }

    /// The value of a key.
    pub fn get(&self, k: &K) -> (r: Option<&V>)
        requires
            self.wf(),
        ensures
            match r {
                Some(v) => self@.dom().contains(*k) && *v == self@[*k],
                None => !self@.dom().contains(*k),
            },
    {
        match self.find(k) {
            Some(i) => Some(&self.items[i].1),
            None => None,
        }
    }

    /// Takes a key out.
    pub fn take(&mut self, k: &K) -> (r: Option<V>)
        requires
            old(self).wf(),
        ensures
            final(self).wf(),
            final(self)@ == old(self)@.remove(*k),
            match r {
                Some(v) => old(self)@.dom().contains(*k) && v == old(self)@[*k],
                None => !old(self)@.dom().contains(*k),
            },
    {
        match self.find(k) {
            Some(i) => {
                let ghost before = self.items@;
                let (_, v) = self.items.remove(i);
                proof {
                    lemma_removed(before, i as int);
                    assert(self@ =~= old(self)@.remove(*k));
                }
                Some(v)
            },
            None => {
                assert(self@ =~= old(self)@.remove(*k));
                None
            },
        }
    }

    /// Sets the value of a key.
    pub fn put(&mut self, k: K, v: V)
        requires
            old(self).wf(),
        ensures
            final(self).wf(),
            final(self)@ == old(self)@.insert(k, v),
    {
        let _ = self.take(&k);
        let ghost before = self.items@;
        let ghost middle = self@;
        self.items.push((k, v));
        proof {
            lemma_index(before, k, before.len());
            assert forall|i: int, j: int|
                0 <= i < j < self.items@.len() implies (#[trigger] self.items@[i]).0 != (
            #[trigger] self.items@[j]).0 by {
                assert(self.items@[i] == before[i]);
                if j == before.len() {
                    assert(!middle.dom().contains(k));
                    assert(before[i].0 != k);
                } else {
                    assert(self.items@[j] == before[j]);
                }
            }
            assert(self.items@ =~= before.push((k, v)));
            lemma_pushed(before, (k, v));
            assert(self@ =~= old(self)@.insert(k, v));
        }
    }

    /// Forgets everything.
    pub fn clear(&mut self)
        ensures
            final(self).wf(),
            final(self)@ == Map::<K, V>::empty(),
    {
        self.items.clear();
        assert(self@ =~= Map::<K, V>::empty());
    }

    /// The keys, each once.
    pub fn keys(&self) -> (r: Vec<K>)
        requires
            self.wf(),
        ensures
            is_listing(self@, r@),
    {
        let mut out: Vec<K> = Vec::new();
        for i in 0..self.items.len()
            invariant
                out@.len() == i,
                forall|j: int| 0 <= j < i ==> #[trigger] out@[j] == self.items@[j].0,
        {
            out.push(self.items[i].0.twin());
        }
        proof {
            assert(out@ =~= Seq::new(self.items@.len(), |i: int| self.items@[i].0));
            lemma_listing(self.items@);
        }
        out
    }

    /// The values, one for each key.
    pub fn values(&self) -> (r: Vec<&V>)
        requires
            self.wf(),
        ensures
            exists|keys: Seq<K>| #[trigger]
                is_listing(self@, keys) && r@.len() == keys.len() && forall|i: int|
                    0 <= i < r@.len() ==> *(#[trigger] r@[i]) == self@[keys[i]],
    {
        let mut out: Vec<&V> = Vec::new();
        for i in 0..self.items.len()
            invariant
                out@.len() == i,
                forall|j: int| 0 <= j < i ==> *(#[trigger] out@[j]) == self.items@[j].1,
        {
            out.push(&self.items[i].1);
        }
        proof {
            let s = self.items@;
            let keys = Seq::new(s.len(), |i: int| s[i].0);
            lemma_listing(s);
            assert(is_listing(self@, keys));
            assert forall|i: int| 0 <= i < out@.len() implies *(#[trigger] out@[i])
                == self@[keys[i]] by {
                lemma_index(s, keys[i], s.len());
                assert(s[i].0 == keys[i]);
                let j = index_of(s, keys[i], s.len())->0;
                if j < i {
                    assert(s[j].0 != s[i].0);
                } else if i < j {
                    assert(s[i].0 != s[j].0);
                }
            }
        }
        out
    }
}

proof fn lemma_removed_at<K, V>(s: Seq<(K, V)>, i: int, k: K)
    requires
        distinct(s),
        0 <= i < s.len(),
    ensures
        as_map(s.remove(i)).dom().contains(k) == as_map(s).remove(s[i].0).dom().contains(k),
        as_map(s.remove(i)).dom().contains(k) ==> as_map(s.remove(i))[k] == as_map(s).remove(
            s[i].0,
        )[k],
{
    let t = s.remove(i);
    lemma_index(s, k, s.len());
    lemma_index(t, k, t.len());
    match index_of(t, k, t.len()) {
        Some(b) => {
            let c = if b < i {
                b
            } else {
                b + 1
            };
            assert(t[b] == s[c]);
            assert(s[c].0 == k);
            let a = index_of(s, k, s.len())->0;
            if a < c {
                assert(s[a].0 != s[c].0);
            } else if c < a {
                assert(s[c].0 != s[a].0);
            }
            if c < i {
                assert(s[c].0 != s[i].0);
            } else {
                assert(s[i].0 != s[c].0);
            }
        },
        None => {
            if let Some(a) = index_of(s, k, s.len()) {
                if a < i {
                    assert(t[a] == s[a]);
                } else if a > i {
                    assert(t[a - 1] == s[a]);
                }
            }
        },
    }
}

/// The entries without one of them.
proof fn lemma_removed<K, V>(s: Seq<(K, V)>, i: int)
    requires
        distinct(s),
        0 <= i < s.len(),
    ensures
        distinct(s.remove(i)),
        as_map(s.remove(i)) == as_map(s).remove(s[i].0),
{
    let t = s.remove(i);
    assert forall|a: int, b: int| 0 <= a < b < t.len() implies (#[trigger] t[a]).0 != (
    #[trigger] t[b]).0 by {
        assert(t[a] == s[if a < i {
            a
        } else {
            a + 1
        }]);
        assert(t[b] == s[if b < i {
            b
        } else {
            b + 1
        }]);
    }
    assert forall|k: K| #[trigger] as_map(t).dom().contains(k) == as_map(s).remove(
        s[i].0,
    ).dom().contains(k) by {
        lemma_removed_at(s, i, k);
    }
    assert forall|k: K| as_map(t).dom().contains(k) implies #[trigger] as_map(t)[k] == as_map(
        s,
    ).remove(s[i].0)[k] by {
        lemma_removed_at(s, i, k);
    }
    assert(as_map(t) =~= as_map(s).remove(s[i].0));
}

proof fn lemma_pushed_at<K, V>(s: Seq<(K, V)>, x: (K, V), k: K)
    requires
        distinct(s.push(x)),
    ensures
        as_map(s.push(x)).dom().contains(k) == as_map(s).insert(x.0, x.1).dom().contains(k),
        as_map(s.push(x)).dom().contains(k) ==> as_map(s.push(x))[k] == as_map(s).insert(
            x.0,
            x.1,
        )[k],
{
    let t = s.push(x);
    lemma_index(s, k, s.len());
    lemma_index(t, k, t.len());
    match index_of(t, k, t.len()) {
        Some(b) => {
            if b < s.len() {
                assert(t[b] == s[b]);
                assert(s[b].0 == k);
                assert(t[b].0 != t[s.len() as int].0);
                let a = index_of(s, k, s.len())->0;
                assert(t[a] == s[a]);
                if a < b {
                    assert(t[a].0 != t[b].0);
                } else if b < a {
                    assert(t[b].0 != t[a].0);
                }
            }
        },
        None => {
            assert(t[s.len() as int].0 != k);
            if let Some(a) = index_of(s, k, s.len()) {
                assert(t[a] == s[a]);
            }
        },
    }
}

/// The entries with one more.
proof fn lemma_pushed<K, V>(s: Seq<(K, V)>, x: (K, V))
    requires
        distinct(s.push(x)),
    ensures
        as_map(s.push(x)) == as_map(s).insert(x.0, x.1),
{
    let t = s.push(x);
    assert forall|k: K| #[trigger] as_map(t).dom().contains(k) == as_map(s).insert(
        x.0,
        x.1,
    ).dom().contains(k) by {
        lemma_pushed_at(s, x, k);
    }
    assert forall|k: K| as_map(t).dom().contains(k) implies #[trigger] as_map(t)[k] == as_map(
        s,
    ).insert(x.0, x.1)[k] by {
        lemma_pushed_at(s, x, k);
    }
    assert(as_map(t) =~= as_map(s).insert(x.0, x.1));
}

} // verus!
