//! The paths of the places that are borrowed.
use super::extraction;
use super::extraction::{Extraction, Paths};
use super::input::{Block, BorrowData, PointLiveness};
use super::traces::extracts;
use crate::hir::HirStmt;
use crate::place::FrozenPlace;
use vstd::prelude::*;

verus! {

/// The place has the number.
pub open spec fn is_numbered(paths: Paths, p: FrozenPlace, k: int) -> bool {
    0 <= k < paths.ids.len() && paths.ids[k] == p
}

/// One number stands for one place; a step leads from a place to the one that it is directly
/// part of, and the end of a path is a variable.
pub open spec fn is_sound(paths: Paths) -> bool {
    &&& paths.ids.no_duplicates()
    &&& forall|i: int|
        0 <= i < paths.steps.len() ==> {
            let (a, b) = #[trigger] paths.steps[i];
            &&& a < paths.ids.len() && b < paths.ids.len()
            &&& paths.ids[a as int].parent() == Some(paths.ids[b as int])
        }
    &&& forall|i: int|
        0 <= i < paths.roots.len() ==> {
            let (a, v) = #[trigger] paths.roots[i];
            &&& a < paths.ids.len()
            &&& paths.ids[a as int] is Root && paths.ids[a as int].root().0 == v
        }
}

/// What was there is still there.
pub open spec fn extends(a: Paths, b: Paths) -> bool {
    &&& a.ids.len() <= b.ids.len() && forall|i: int|
        0 <= i < a.ids.len() ==> #[trigger] b.ids[i] == a.ids[i]
    &&& forall|x: (u32, u32)| #[trigger] a.steps.contains(x) ==> b.steps.contains(x)
    &&& a.roots.len() <= b.roots.len() && forall|i: int|
        0 <= i < a.roots.len() ==> #[trigger] b.roots[i] == a.roots[i]
}

/// The place is `p`, or `p` is reached through it.
pub open spec fn is_on(p: FrozenPlace, q: FrozenPlace) -> bool
    decreases p,
{
    q == p || match p {
        FrozenPlace::Root(_) => false,
        FrozenPlace::Field(b, _) => is_on(*b, q),
        FrozenPlace::Index(b) => is_on(*b, q),
        FrozenPlace::ConstIndex(b, _) => is_on(*b, q),
        FrozenPlace::Deref(b) => is_on(*b, q),
    }
}

/// The step from the place to the one that it is part of, or the end at a variable, is there.
pub open spec fn is_stepped(paths: Paths, q: FrozenPlace) -> bool {
    match q.parent() {
        Some(b) => exists|i: int, j: int|
            is_numbered(paths, q, i) && is_numbered(paths, b, j) && #[trigger] paths.steps.contains(
                (i as u32, j as u32),
            ),
        None => exists|i: int|
            is_numbered(paths, q, i) && #[trigger] paths.roots.contains((i as u32, q.root().0)),
    }
}

proof fn lemma_with_path(ids: Seq<FrozenPlace>, p: FrozenPlace)
    requires
        ids.no_duplicates(),
    ensures
        ({
            let now = extraction::with_path(ids, p);
            let k = now.index_of(p);
            &&& now.no_duplicates()
            &&& 0 <= k < now.len() && now[k] == p
            &&& ids.len() <= now.len()
            &&& forall|i: int| 0 <= i < ids.len() ==> #[trigger] now[i] == ids[i]
        }),
{
    let now = extraction::with_path(ids, p);
    assert(now.contains(p)) by {
        if !ids.contains(p) {
            assert(now[ids.len() as int] == p);
        }
    }
}

proof fn lemma_step(s: Paths, p: FrozenPlace, b: FrozenPlace)
    requires
        is_sound(s),
        p.parent() == Some(b),
        s.step(p, b).ids.len() <= u32::MAX,
    ensures
        is_sound(s.step(p, b)),
        extends(s, s.step(p, b)),
        is_stepped(s.step(p, b), p),
{
    let t = s.step(p, b);
    let ids = extraction::with_path(s.ids, p);
    lemma_with_path(s.ids, p);
    lemma_with_path(ids, b);
    let x = (ids.index_of(p) as u32, t.ids.index_of(b) as u32);
    assert(t.steps == s.steps.push(x));
    assert(t.ids[x.0 as int] == ids[x.0 as int]);
    assert forall|y: (u32, u32)| #[trigger] s.steps.contains(y) implies t.steps.contains(y) by {
        let i = choose|i: int| 0 <= i < s.steps.len() && s.steps[i] == y;
        assert(t.steps[i] == y);
    }
    assert(t.steps[s.steps.len() as int] == x);
    assert(is_numbered(t, p, x.0 as int));
    assert(is_numbered(t, b, x.1 as int));
    assert(t.steps.contains(((x.0 as int) as u32, (x.1 as int) as u32)));
    assert forall|i: int| 0 <= i < t.steps.len() implies {
        let (a, c) = #[trigger] t.steps[i];
        &&& a < t.ids.len() && c < t.ids.len()
        &&& t.ids[a as int].parent() == Some(t.ids[c as int])
    } by {
        if i < s.steps.len() {
            assert(t.steps[i] == s.steps[i]);
            let y = s.steps[i];
            assert(t.ids[y.0 as int] == ids[y.0 as int]);
            assert(t.ids[y.1 as int] == ids[y.1 as int]);
        }
    }
    assert forall|i: int| 0 <= i < t.roots.len() implies {
        let (a, v) = #[trigger] t.roots[i];
        &&& a < t.ids.len()
        &&& t.ids[a as int] is Root && t.ids[a as int].root().0 == v
    } by {
        let y = s.roots[i];
        assert(t.ids[y.0 as int] == ids[y.0 as int]);
    }
    assert forall|i: int| 0 <= i < s.ids.len() implies #[trigger] t.ids[i] == s.ids[i] by {
        assert(ids[i] == s.ids[i]);
    }
}

proof fn lemma_walk_grows(s: Paths, p: FrozenPlace)
    ensures
        s.ids.len() <= s.walk(p).ids.len(),
    decreases p,
{
    match p {
        FrozenPlace::Root(_) => {},
        FrozenPlace::Field(b, _) => lemma_walk_grows(s.step(p, *b), *b),
        FrozenPlace::Index(b) => lemma_walk_grows(s.step(p, *b), *b),
        FrozenPlace::ConstIndex(b, _) => lemma_walk_grows(s.step(p, *b), *b),
        FrozenPlace::Deref(b) => lemma_walk_grows(s.step(p, *b), *b),
    }
}

proof fn lemma_stays(a: Paths, b: Paths, q: FrozenPlace)
    requires
        extends(a, b),
        is_stepped(a, q),
    ensures
        is_stepped(b, q),
{
    match q.parent() {
        Some(c) => {
            let (i, j) = choose|i: int, j: int|
                is_numbered(a, q, i) && is_numbered(a, c, j) && #[trigger] a.steps.contains(
                    (i as u32, j as u32),
                );
            assert(b.ids[i] == a.ids[i] && b.ids[j] == a.ids[j]);
            assert(is_numbered(b, q, i) && is_numbered(b, c, j));
            assert(b.steps.contains((i as u32, j as u32)));
        },
        None => {
            let i = choose|i: int|
                is_numbered(a, q, i) && #[trigger] a.roots.contains((i as u32, q.root().0));
            let x = (i as u32, q.root().0);
            let k = choose|k: int| 0 <= k < a.roots.len() && a.roots[k] == x;
            assert(b.roots[k] == a.roots[k]);
            assert(b.ids[i] == a.ids[i]);
            assert(is_numbered(b, q, i));
            assert(b.roots.contains((i as u32, q.root().0)));
        },
    }
}

proof fn lemma_extends(a: Paths, b: Paths, c: Paths)
    requires
        extends(a, b),
        extends(b, c),
    ensures
        extends(a, c),
{
    assert forall|i: int| 0 <= i < a.ids.len() implies #[trigger] c.ids[i] == a.ids[i] by {
        assert(b.ids[i] == a.ids[i]);
    }
    assert forall|i: int| 0 <= i < a.roots.len() implies #[trigger] c.roots[i] == a.roots[i] by {
        assert(b.roots[i] == a.roots[i]);
    }
}

proof fn lemma_through(s: Paths, p: FrozenPlace, b: FrozenPlace, q: FrozenPlace)
    requires
        is_sound(s),
        p.parent() == Some(b),
        s.walk(p) == s.step(p, b).walk(b),
        s.walk(p).ids.len() <= u32::MAX,
        is_on(p, q),
        is_on(b, q) || q == p,
        decreases_to!(p => b),
    ensures
        is_sound(s.walk(p)),
        extends(s, s.walk(p)),
        is_stepped(s.walk(p), q),
    decreases p, 0nat,
{
    let t = s.step(p, b);
    lemma_walk_grows(t, b);
    lemma_step(s, p, b);
    lemma_walk(t, b, b);
    lemma_extends(s, t, t.walk(b));
    if q == p {
        lemma_stays(t, t.walk(b), p);
    } else {
        lemma_walk(t, b, q);
    }
}

proof fn lemma_walk(s: Paths, p: FrozenPlace, q: FrozenPlace)
    requires
        is_sound(s),
        s.walk(p).ids.len() <= u32::MAX,
        is_on(p, q),
    ensures
        is_sound(s.walk(p)),
        extends(s, s.walk(p)),
        is_stepped(s.walk(p), q),
    decreases p, 1nat,
{
    match p {
        FrozenPlace::Root(v) => {
            let t = s.walk(p);
            lemma_with_path(s.ids, p);
            let x = (t.ids.index_of(p) as u32, v.0);
            assert(t.roots == s.roots.push(x));
            assert(t.roots[s.roots.len() as int] == x);
            assert(is_numbered(t, p, x.0 as int));
            assert(t.roots.contains(((x.0 as int) as u32, p.root().0)));
            assert forall|i: int| 0 <= i < t.steps.len() implies {
                let (a, c) = #[trigger] t.steps[i];
                &&& a < t.ids.len() && c < t.ids.len()
                &&& t.ids[a as int].parent() == Some(t.ids[c as int])
            } by {
                let y = s.steps[i];
                assert(t.ids[y.0 as int] == s.ids[y.0 as int]);
                assert(t.ids[y.1 as int] == s.ids[y.1 as int]);
            }
            assert forall|i: int| 0 <= i < t.roots.len() implies {
                let (a, w) = #[trigger] t.roots[i];
                &&& a < t.ids.len()
                &&& t.ids[a as int] is Root && t.ids[a as int].root().0 == w
            } by {
                if i < s.roots.len() {
                    let y = s.roots[i];
                    assert(t.ids[y.0 as int] == s.ids[y.0 as int]);
                }
            }
        },
        FrozenPlace::Field(b, _) => lemma_through(s, p, *b, q),
        FrozenPlace::Index(b) => lemma_through(s, p, *b, q),
        FrozenPlace::ConstIndex(b, _) => lemma_through(s, p, *b, q),
        FrozenPlace::Deref(b) => lemma_through(s, p, *b, q),
    }
}

proof fn lemma_walked(places: Seq<FrozenPlace>, n: int, k: int, q: FrozenPlace)
    requires
        0 <= n <= places.len(),
        extraction::walked(places, n).ids.len() <= u32::MAX,
    ensures
        is_sound(extraction::walked(places, n)),
        0 <= k < n && is_on(places[k], q) ==> is_stepped(extraction::walked(places, n), q),
    decreases n,
{
    if n > 0 {
        let s = extraction::walked(places, n - 1);
        let p = places[n - 1];
        lemma_walk_grows(s, p);
        lemma_walked(places, n - 1, k, q);
        lemma_walk(s, p, p);
        if 0 <= k < n && is_on(places[k], q) {
            if k == n - 1 {
                lemma_walk(s, p, q);
            } else {
                lemma_stays(s, s.walk(p), q);
            }
        }
    }
}

/// Every step of a place leads to the place that it is directly part of, down to its variable:
/// the steps of each of the places are there, for what it is reached through too.
pub proof fn law_places_are_walked(places: Seq<FrozenPlace>, k: int, q: FrozenPlace)
    requires
        0 <= k < places.len(),
        is_on(places[k], q),
        extraction::walked(places, places.len() as int).ids.len() <= u32::MAX,
    ensures
        is_stepped(extraction::walked(places, places.len() as int), q),
{
    lemma_walked(places, places.len() as int, k, q);
}

/// There are no other steps: one number stands for one place, each step leads from a place to
/// the one that it is directly part of, and each end is a variable.
pub proof fn law_steps_are_parts(places: Seq<FrozenPlace>)
    requires
        extraction::walked(places, places.len() as int).ids.len() <= u32::MAX,
    ensures
        is_sound(extraction::walked(places, places.len() as int)),
{
    lemma_walked(places, places.len() as int, 0, FrozenPlace::Root(crate::symbol::Symbol(0)));
}

/// The places of all loans are walked down to their variables.
pub proof fn law_borrowed_places_are_walked(
    blocks: Seq<Block>,
    body: Seq<HirStmt>,
    live: PointLiveness,
    data: BorrowData,
    x: Extraction,
    i: int,
    q: FrozenPlace,
)
    requires
        extracts(blocks, body, live, data, x),
        x.paths.ids.len() <= u32::MAX,
        0 <= i < x.infos.len(),
        is_on(x.infos[i].place, q),
    ensures
        is_stepped(x.paths, q),
        is_sound(x.paths),
{
    let n = data.loans@.len() as int;
    let r = extraction::resolved(data.loans@, n)->Ok_0;
    lemma_resolved(data, n);
    lemma_walked(r.places, n, i, q);
}

proof fn lemma_resolved(data: BorrowData, n: int)
    requires
        0 <= n,
        extraction::resolved(data.loans@, n) is Ok,
    ensures
        extraction::resolved(data.loans@, n)->Ok_0.places.len() == n,
    decreases n,
{
    if n > 0 {
        lemma_resolved(data, n - 1);
    }
}

} // verus!
