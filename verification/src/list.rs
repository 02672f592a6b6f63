//! Persistent lists.
use crate::share::share;
use std::rc::Rc;
use vstd::prelude::*;

verus! {

/// A list whose tails can be shared.
#[derive(Debug)]
pub enum List<T> {
    Nil,
    Cons(Rc<Link<T>>),
}

/// The first item of a list and the rest of it.
#[derive(Debug)]
pub struct Link<T> {
    pub head: T,
    pub tail: List<T>,
}

impl<T> Clone for List<T> {
    fn clone(&self) -> (r: Self)
        ensures
            r == *self,
    {
        match self {
            List::Nil => List::Nil,
            List::Cons(link) => List::Cons(share(link)),
        }
    }
}

impl<T> View for List<T> {
    type V = Seq<T>;

    open spec fn view(&self) -> Seq<T> {
        self.items()
    }
}

impl<T> List<T> {
    /// The items, first to last.
    pub open spec fn items(self) -> Seq<T>
        decreases self,
    {
        match self {
            List::Nil => Seq::empty(),
            List::Cons(link) => seq![link.head] + link.tail.items(),
        }
    }

    /// The first item.
    pub open spec fn first(self) -> T
        recommends
            self is Cons,
    {
        self->Cons_0.head
    }

    /// The list without its first item.
    pub open spec fn rest(self) -> List<T>
        recommends
            self is Cons,
    {
        self->Cons_0.tail
    }

    /// The list with one more item in front.
    pub open spec fn cons(self, x: T) -> List<T> {
        List::Cons(Rc::new(Link { head: x, tail: self }))
    }

    /// The list with one more item at the end.
    pub open spec fn snoc(self, x: T) -> List<T>
        decreases self,
    {
        match self {
            List::Nil => List::Nil.cons(x),
            List::Cons(link) => link.tail.snoc(x).cons(link.head),
        }
    }

    /// The number of items.
    pub open spec fn count(self) -> nat
        decreases self,
    {
        match self {
            List::Nil => 0,
            List::Cons(link) => link.tail.count() + 1,
        }
    }

    /// The list with one more item in front.
    pub fn push(self, x: T) -> (r: List<T>)
        ensures
            r == self.cons(x),
    {
        List::Cons(Rc::new(Link { head: x, tail: self }))
    }

    /// Whether there is no item.
    pub fn is_empty(&self) -> (r: bool)
        ensures
            r == (*self is Nil),
            r == (self@.len() == 0),
    {
        match self {
            List::Nil => true,
            List::Cons(_) => false,
        }
    }

    /// The number of items, as far as it can be counted.
    pub fn len(&self) -> (r: usize)
        ensures
            self@.len() <= usize::MAX ==> r == self@.len(),
            self@.len() > usize::MAX ==> r == usize::MAX,
        decreases *self,
    {
        match self {
            List::Nil => 0,
            List::Cons(link) => {
                let n: usize = link.tail.len();
                if n < usize::MAX {
                    n + 1
                } else {
                    n
                }
            },
        }
    }

    /// The list of the items of a vector.
    pub fn from_vec(items: Vec<T>) -> (r: List<T>)
        ensures
            r@ == items@,
    {
        let mut rest = items;
        let ghost all = rest@;
        let mut out: List<T> = List::Nil;
        assert(rest@ + out@ =~= all);
        while rest.len() > 0
            invariant
                rest@ + out@ == all,
            decreases rest.len(),
        {
            let ghost before = rest@;
            let ghost tail = out@;
            match rest.pop() {
                Some(x) => {
                    assert(before =~= rest@.push(x));
                    out = out.push(x);
                    assert(out@ == seq![x] + tail);
                    assert(rest@ + out@ =~= all);
                },
                None => {},
            }
        }
        assert(out@ =~= all);
        out
    }

    /// The items of the list in a vector.
    pub fn to_refs(&self) -> (r: Vec<&T>)
        ensures
            r@.len() == self@.len(),
            forall|i: int| 0 <= i < self@.len() ==> *(#[trigger] r@[i]) == self@[i],
    {
        let mut out: Vec<&T> = Vec::new();
        let mut cur = self;
        let ghost mut n: int = 0;
        assert(cur@ =~= self@.skip(0));
        loop
            invariant
                0 <= n <= self@.len(),
                cur@ == self@.skip(n),
                out@.len() == n,
                forall|i: int| 0 <= i < n ==> *(#[trigger] out@[i]) == self@[i],
            ensures
                n == self@.len(),
            decreases *cur,
        {
            match cur {
                List::Nil => {
                    assert(cur@.len() == 0);
                    break ;
                },
                List::Cons(link) => {
                    assert(cur@ == seq![link.head] + link.tail@);
                    assert(cur@[0] == link.head);
                    assert(self@[n] == link.head);
                    out.push(&link.head);
                    assert(link.tail@ =~= cur@.skip(1));
                    assert(link.tail@ =~= self@.skip(n + 1));
                    cur = &link.tail;
                    proof {
                        n = n + 1;
                    }
                },
            }
        }
        out
    }
}

/// The same list, where there is one.
pub(crate) fn list_option<T>(x: &Option<List<T>>) -> (r: Option<List<T>>)
    ensures
        r == *x,
{
    match x {
        Some(y) => Some(y.clone()),
        None => None,
    }
}

} // verus!
