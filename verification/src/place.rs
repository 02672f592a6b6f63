//! Memory places and when touching one touches another.
use crate::symbol::Symbol;
use vstd::prelude::*;

verus! {

/// A place: a variable, and what is reached from it.
#[derive(Debug, PartialEq, Eq)]
pub enum FrozenPlace {
    Root(Symbol),
    Field(Box<FrozenPlace>, Symbol),
    /// An element whose index is known at run time only.
    Index(Box<FrozenPlace>),
    /// The element with this index.
    ConstIndex(Box<FrozenPlace>, u64),
    Deref(Box<FrozenPlace>),
}

impl Clone for FrozenPlace {
    fn clone(&self) -> (r: Self)
        ensures
            r == *self,
        decreases *self,
    {
        match self {
            FrozenPlace::Root(v) => FrozenPlace::Root(*v),
            FrozenPlace::Field(b, f) => FrozenPlace::Field(Box::new((&**b).clone()), *f),
            FrozenPlace::Index(b) => FrozenPlace::Index(Box::new((&**b).clone())),
            FrozenPlace::ConstIndex(b, k) => FrozenPlace::ConstIndex(
                Box::new((&**b).clone()),
                *k,
            ),
            FrozenPlace::Deref(b) => FrozenPlace::Deref(Box::new((&**b).clone())),
        }
    }
}

impl FrozenPlace {
    /// The number of steps that name the place.
    pub open spec fn depth(self) -> nat
        decreases self,
    {
        match self {
            FrozenPlace::Root(_) => 1,
            FrozenPlace::Field(b, _) => b.depth() + 1,
            FrozenPlace::Index(b) => b.depth() + 1,
            FrozenPlace::ConstIndex(b, _) => b.depth() + 1,
            FrozenPlace::Deref(b) => b.depth() + 1,
        }
    }

    /// The place that this one is directly part of.
    pub open spec fn parent(self) -> Option<FrozenPlace> {
        match self {
            FrozenPlace::Root(_) => None,
            FrozenPlace::Field(b, _) => Some(*b),
            FrozenPlace::Index(b) => Some(*b),
            FrozenPlace::ConstIndex(b, _) => Some(*b),
            FrozenPlace::Deref(b) => Some(*b),
        }
    }

    /// The variable that the place starts at.
    pub open spec fn root(self) -> Symbol
        decreases self,
    {
        match self {
            FrozenPlace::Root(v) => v,
            FrozenPlace::Field(b, _) => b.root(),
            FrozenPlace::Index(b) => b.root(),
            FrozenPlace::ConstIndex(b, _) => b.root(),
            FrozenPlace::Deref(b) => b.root(),
        }
    }

    /// A field or an element: what is overwritten with its owner.
    pub open spec fn is_part(self) -> bool {
        self is Field || self is Index || self is ConstIndex
    }

    /// No index on the way to the place is known at run time only.
    pub open spec fn exact(self) -> bool
        decreases self,
    {
        match self {
            FrozenPlace::Root(_) => true,
            FrozenPlace::Field(b, _) => b.exact(),
            FrozenPlace::Index(_) => false,
            FrozenPlace::ConstIndex(b, _) => b.exact(),
            FrozenPlace::Deref(b) => b.exact(),
        }
    }

    /// The place is the other one or lies on the way to it.
    pub open spec fn on_path_to(self, other: FrozenPlace) -> bool
        decreases other,
    {
        self == other || match other {
            FrozenPlace::Root(_) => false,
            FrozenPlace::Field(b, _) => self.on_path_to(*b),
            FrozenPlace::Index(b) => self.on_path_to(*b),
            FrozenPlace::ConstIndex(b, _) => self.on_path_to(*b),
            FrozenPlace::Deref(b) => self.on_path_to(*b),
        }
    }

    /// Touching this place touches the storage of the other one: it is that
    /// place, or a prefix of what that place is part of, or one of the two is
    /// an element with an unknown index and the other an element of a related
    /// base.
    pub open spec fn prefixes(self, other: FrozenPlace) -> bool
        decreases self.depth() + other.depth(),
    {
        ||| self == other
        ||| match (self, other) {
            (FrozenPlace::Index(t), FrozenPlace::ConstIndex(f, _)) => t.prefixes(*f) || f.prefixes(
                *t,
            ),
            (FrozenPlace::ConstIndex(f, _), FrozenPlace::Index(t)) => t.prefixes(*f) || f.prefixes(
                *t,
            ),
            _ => false,
        }
        ||| match other {
            FrozenPlace::Root(_) => false,
            FrozenPlace::Field(b, _) => self.prefixes(*b),
            FrozenPlace::Index(b) => self.prefixes(*b),
            FrozenPlace::ConstIndex(b, _) => self.prefixes(*b),
            FrozenPlace::Deref(b) => self.prefixes(*b),
        }
    }

    /// One of the two places is a prefix of the other.
    pub open spec fn overlaps(self, other: FrozenPlace) -> bool {
        self.prefixes(other) || other.prefixes(self)
    }

    /// Whether the two places are the same.
    pub fn same(&self, other: &FrozenPlace) -> (r: bool)
        ensures
            r == (*self == *other),
        decreases *self,
    {
        match (self, other) {
            (FrozenPlace::Root(a), FrozenPlace::Root(b)) => *a == *b,
            (FrozenPlace::Field(a, f), FrozenPlace::Field(b, g)) => *f == *g && a.same(b),
            (FrozenPlace::Index(a), FrozenPlace::Index(b)) => a.same(b),
            (FrozenPlace::ConstIndex(a, i), FrozenPlace::ConstIndex(b, k)) => *i == *k && a.same(b),
            (FrozenPlace::Deref(a), FrozenPlace::Deref(b)) => a.same(b),
            _ => false,
        }
    }

    /// Whether the place is a field or an element.
    pub fn is_part_exec(&self) -> (r: bool)
        ensures
            r == self.is_part(),
    {
        matches!(self, FrozenPlace::Field(..) | FrozenPlace::Index(..) | FrozenPlace::ConstIndex(..))
    }

    /// Whether one of the two places is a prefix of the other.
    pub fn touches(&self, other: &FrozenPlace) -> (r: bool)
        ensures
            r == self.overlaps(*other),
    {
        place_is_prefix_of(self, other) || place_is_prefix_of(other, self)
    }
}

/// Whether touching `target` touches the storage of `frozen`.
pub fn place_is_prefix_of(target: &FrozenPlace, frozen: &FrozenPlace) -> (r: bool)
    ensures
        r == target.prefixes(*frozen),
    decreases target.depth() + frozen.depth(),
{
    if target.same(frozen) {
        return true;
    }
    match (target, frozen) {
        (FrozenPlace::Index(t), FrozenPlace::ConstIndex(f, _)) => {
            if place_is_prefix_of(t, f) || place_is_prefix_of(f, t) {
                return true;
            }
        },
        (FrozenPlace::ConstIndex(f, _), FrozenPlace::Index(t)) => {
            if place_is_prefix_of(t, f) || place_is_prefix_of(f, t) {
                return true;
            }
        },
        _ => {},
    }
    match frozen {
        FrozenPlace::Root(_) => false,
        FrozenPlace::Field(b, _) => place_is_prefix_of(target, b),
        FrozenPlace::Index(b) => place_is_prefix_of(target, b),
        FrozenPlace::ConstIndex(b, _) => place_is_prefix_of(target, b),
        FrozenPlace::Deref(b) => place_is_prefix_of(target, b),
    }
}

/// The variable that the place starts at.
pub fn place_root_var(p: &FrozenPlace) -> (r: Symbol)
    ensures
        r == p.root(),
    decreases *p,
{
    match p {
        FrozenPlace::Root(v) => *v,
        FrozenPlace::Field(b, _) => place_root_var(b),
        FrozenPlace::Index(b) => place_root_var(b),
        FrozenPlace::ConstIndex(b, _) => place_root_var(b),
        FrozenPlace::Deref(b) => place_root_var(b),
    }
}

/// Whether the list holds the place.
pub fn holds_place(list: &Vec<FrozenPlace>, p: &FrozenPlace) -> (r: bool)
    ensures
        r == list@.contains(*p),
{
    let mut i: usize = 0;
    while i < list.len()
        invariant
            0 <= i <= list@.len(),
            forall|k: int| 0 <= k < i ==> list@[k] != *p,
        decreases list.len() - i,
    {
        if list[i].same(p) {
            return true;
        }
        i += 1;
    }
    false
}

// ---------------------------------------------------------------------------
// Laws
// ---------------------------------------------------------------------------

/// What lies on the way to a place is a prefix of it.
pub proof fn law_ancestors_are_prefixes(a: FrozenPlace, p: FrozenPlace)
    requires
        a.on_path_to(p),
    ensures
        a.prefixes(p),
    decreases p,
{
    if a != p {
        match p {
            FrozenPlace::Root(_) => {},
            FrozenPlace::Field(b, _) => law_ancestors_are_prefixes(a, *b),
            FrozenPlace::Index(b) => law_ancestors_are_prefixes(a, *b),
            FrozenPlace::ConstIndex(b, _) => law_ancestors_are_prefixes(a, *b),
            FrozenPlace::Deref(b) => law_ancestors_are_prefixes(a, *b),
        }
    }
}

/// Where no index is unknown, the prefixes of a place are exactly what lies
/// on the way to it.
pub proof fn law_exact_prefixes(a: FrozenPlace, p: FrozenPlace)
    requires
        a.exact(),
        p.exact(),
    ensures
        a.prefixes(p) == a.on_path_to(p),
    decreases p,
{
    match p {
        FrozenPlace::Root(_) => {},
        FrozenPlace::Field(b, _) => law_exact_prefixes(a, *b),
        FrozenPlace::Index(b) => {},
        FrozenPlace::ConstIndex(b, _) => law_exact_prefixes(a, *b),
        FrozenPlace::Deref(b) => law_exact_prefixes(a, *b),
    }
}

/// What lies on the way to a place has no more steps than the place.
proof fn lemma_shorter(a: FrozenPlace, p: FrozenPlace)
    requires
        a.on_path_to(p),
    ensures
        a.depth() <= p.depth(),
        a == p || a.depth() < p.depth(),
    decreases p,
{
    if a != p {
        match p {
            FrozenPlace::Root(_) => {},
            FrozenPlace::Field(b, _) => lemma_shorter(a, *b),
            FrozenPlace::Index(b) => lemma_shorter(a, *b),
            FrozenPlace::ConstIndex(b, _) => lemma_shorter(a, *b),
            FrozenPlace::Deref(b) => lemma_shorter(a, *b),
        }
    }
}

/// Two elements with known indices touch only if the indices are the same.
pub proof fn law_constant_indices_apart(base: FrozenPlace, i: u64, k: u64)
    requires
        base.exact(),
    ensures
        FrozenPlace::ConstIndex(Box::new(base), i).prefixes(
            FrozenPlace::ConstIndex(Box::new(base), k),
        ) <==> i == k,
{
    let a = FrozenPlace::ConstIndex(Box::new(base), i);
    let p = FrozenPlace::ConstIndex(Box::new(base), k);
    law_exact_prefixes(a, p);
    if a.on_path_to(p) {
        lemma_shorter(a, p);
    }
}

/// An element with an unknown index touches every element of its base, and
/// is touched by it.
pub proof fn law_unknown_index_overlaps(base: FrozenPlace, k: u64)
    ensures
        FrozenPlace::Index(Box::new(base)).prefixes(FrozenPlace::ConstIndex(Box::new(base), k)),
        FrozenPlace::ConstIndex(Box::new(base), k).prefixes(FrozenPlace::Index(Box::new(base))),
{
    assert(base.prefixes(base));
}

/// Two places that start at different variables do not touch.
pub proof fn law_roots_apart(a: FrozenPlace, p: FrozenPlace)
    requires
        a.root() != p.root(),
    ensures
        !a.prefixes(p),
    decreases a.depth() + p.depth(),
{
    match (a, p) {
        (FrozenPlace::Index(t), FrozenPlace::ConstIndex(f, _)) => {
            law_roots_apart(*t, *f);
            law_roots_apart(*f, *t);
        },
        (FrozenPlace::ConstIndex(f, _), FrozenPlace::Index(t)) => {
            law_roots_apart(*t, *f);
            law_roots_apart(*f, *t);
        },
        _ => {},
    }
    match p {
        FrozenPlace::Root(_) => {},
        FrozenPlace::Field(b, _) => law_roots_apart(a, *b),
        FrozenPlace::Index(b) => law_roots_apart(a, *b),
        FrozenPlace::ConstIndex(b, _) => law_roots_apart(a, *b),
        FrozenPlace::Deref(b) => law_roots_apart(a, *b),
    }
}

} // verus!
