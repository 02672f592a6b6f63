//! A chain of nodes in a pool, from the one used last to the one used least
//! recently.
use vstd::prelude::*;

verus! {

/// A node of the chain.
#[derive(Debug)]
pub struct LruNode<K, V> {
    pub key: K,
    pub value: V,
    pub prev: Option<usize>,
    pub next: Option<usize>,
}

/// The node at place `i` of the order is linked to those beside it.
pub open spec fn placed<K, V>(nodes: Seq<LruNode<K, V>>, order: Seq<usize>, i: int) -> bool {
    let node = nodes[order[i] as int];
    &&& order[i] < nodes.len()
    &&& node.prev == if i == 0 {
        None
    } else {
        Some(order[i - 1])
    }
    &&& node.next == if i == order.len() - 1 {
        None
    } else {
        Some(order[i + 1])
    }
}

/// No node is in the order twice.
pub open spec fn apart(order: Seq<usize>) -> bool {
    forall|i: int, j: int| 0 <= i < j < order.len() ==> #[trigger] order[i] != #[trigger] order[j]
}

/// The links of the nodes are those of a chain in this order.
pub open spec fn linked<K, V>(
    nodes: Seq<LruNode<K, V>>,
    head: Option<usize>,
    tail: Option<usize>,
    order: Seq<usize>,
) -> bool {
    &&& head == if order.len() == 0 {
        None
    } else {
        Some(order[0])
    }
    &&& tail == if order.len() == 0 {
        None
    } else {
        Some(order[order.len() - 1])
    }
    &&& apart(order)
    &&& forall|i: int| 0 <= i < order.len() ==> #[trigger] placed(nodes, order, i)
}

/// Two pools hold the same entries.
pub open spec fn same_entries<K, V>(a: Seq<LruNode<K, V>>, b: Seq<LruNode<K, V>>) -> bool {
    &&& a.len() == b.len()
    &&& forall|i: int| 0 <= i < a.len() ==> (#[trigger] a[i]).key == b[i].key
    &&& forall|i: int| 0 <= i < a.len() ==> (#[trigger] a[i]).value == b[i].value
}

/// A chain.
#[derive(Debug)]
pub struct Chain<K, V> {
    pub nodes: Vec<LruNode<K, V>>,
    pub head: Option<usize>,
    pub tail: Option<usize>,
}

proof fn lemma_rest(order: Seq<usize>, p: int)
    requires
        apart(order),
        0 <= p < order.len(),
    ensures
        apart(order.remove(p)),
        order.remove(p).len() == order.len() - 1,
        forall|k: int| 0 <= k < order.len() && k != p ==> #[trigger] order[k] != order[p],
{
    let rest = order.remove(p);
    assert forall|i: int, j: int| 0 <= i < j < rest.len() implies #[trigger] rest[i]
        != #[trigger] rest[j] by {
        assert(rest[i] == order[if i < p {
            i
        } else {
            i + 1
        }]);
        assert(rest[j] == order[if j < p {
            j
        } else {
            j + 1
        }]);
    }
}

impl<K, V> Chain<K, V> {
    pub open spec fn in_order(self, order: Seq<usize>) -> bool {
        linked(self.nodes@, self.head, self.tail, order)
    }

    fn set_next(&mut self, i: usize, next: Option<usize>)
        requires
            i < old(self).nodes@.len(),
        ensures
            final(self).nodes@ == old(self).nodes@.update(
                i as int,
                LruNode { next, ..old(self).nodes@[i as int] },
            ),
            final(self).head == old(self).head,
            final(self).tail == old(self).tail,
    {
        self.nodes[i].next = next;
    }

    fn set_prev(&mut self, i: usize, prev: Option<usize>)
        requires
            i < old(self).nodes@.len(),
        ensures
            final(self).nodes@ == old(self).nodes@.update(
                i as int,
                LruNode { prev, ..old(self).nodes@[i as int] },
            ),
            final(self).head == old(self).head,
            final(self).tail == old(self).tail,
    {
        self.nodes[i].prev = prev;
    }

    /// Takes the node at place `p` out of the chain.
    pub fn unlink(&mut self, idx: usize, Ghost(order): Ghost<Seq<usize>>, Ghost(p): Ghost<int>)
        requires
            old(self).in_order(order),
            0 <= p < order.len(),
            order[p] == idx,
        ensures
            final(self).in_order(order.remove(p)),
            same_entries(old(self).nodes@, final(self).nodes@),
    {
        assert(placed(self.nodes@, order, p));
        proof {
            if p > 0 {
                assert(placed(self.nodes@, order, p - 1));
            }
            if p < order.len() - 1 {
                assert(placed(self.nodes@, order, p + 1));
            }
        }
        let prev = self.nodes[idx].prev;
        let next = self.nodes[idx].next;
        let ghost rest = order.remove(p);
        if let Some(a) = prev {
            self.set_next(a, next);
        } else {
            self.head = next;
        }
        if let Some(b) = next {
            self.set_prev(b, prev);
        } else {
            self.tail = prev;
        }
        proof {
            assert(placed(old(self).nodes@, order, p));
            lemma_rest(order, p);
            let nodes = old(self).nodes@;
            if p > 0 {
                assert(placed(nodes, order, p - 1));
            }
            if p < order.len() - 1 {
                assert(placed(nodes, order, p + 1));
            }
            assert forall|i: int| 0 <= i < rest.len() implies #[trigger] placed(
                self.nodes@,
                rest,
                i,
            ) by {
                let k = if i < p {
                    i
                } else {
                    i + 1
                };
                assert(placed(nodes, order, k));
                assert(rest[i] == order[k]);
                assert(order[k] != idx);
                if i > 0 {
                    assert(rest[i - 1] == order[if i - 1 < p {
                        i - 1
                    } else {
                        i
                    }]);
                }
                if i < rest.len() - 1 {
                    assert(rest[i + 1] == order[if i + 1 < p {
                        i + 1
                    } else {
                        i + 2
                    }]);
                }
            }
        }
    }

    /// Puts a node in front of the chain.
    pub fn push_front(&mut self, idx: usize, Ghost(order): Ghost<Seq<usize>>)
        requires
            old(self).in_order(order),
            idx < old(self).nodes@.len(),
            !order.contains(idx),
        ensures
            final(self).in_order(seq![idx] + order),
            same_entries(old(self).nodes@, final(self).nodes@),
    {
        let head = self.head;
        proof {
            if order.len() > 0 {
                assert(placed(self.nodes@, order, 0));
            }
        }
        if let Some(h) = head {
            self.set_prev(h, Some(idx));
        } else {
            self.tail = Some(idx);
        }
        self.set_prev(idx, None);
        self.set_next(idx, head);
        self.head = Some(idx);
        proof {
            let all = seq![idx] + order;
            let nodes = old(self).nodes@;
            assert forall|i: int| 0 <= i < order.len() implies #[trigger] order[i] != idx by {
                assert(order.contains(order[i]));
            }
            assert(apart(all)) by {
                assert forall|i: int, j: int| 0 <= i < j < all.len() implies #[trigger] all[i]
                    != #[trigger] all[j] by {
                    assert(all[j] == order[j - 1]);
                    if i > 0 {
                        assert(all[i] == order[i - 1]);
                    }
                }
            }
            assert forall|i: int| 0 <= i < all.len() implies #[trigger] placed(
                self.nodes@,
                all,
                i,
            ) by {
                if i > 0 {
                    assert(placed(nodes, order, i - 1));
                    assert(all[i] == order[i - 1]);
                    if i > 1 {
                        assert(all[i - 1] == order[i - 2]);
                        assert(order[0] != order[i - 1]);
                    }
                }
                if i < all.len() - 1 {
                    assert(all[i + 1] == order[i]);
                }
            }
        }
    }
}

} // verus!
