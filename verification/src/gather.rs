//! Lists that are put together piece by piece, each of which may fail.
use vstd::prelude::*;

verus! {

/// The pieces `f(0)`, `f(1)`, .. `f(n - 1)` in a row.
pub open spec fn concat<A>(f: spec_fn(int) -> Seq<A>, n: int) -> Seq<A>
    decreases n,
{
    if n <= 0 {
        Seq::empty()
    } else {
        concat(f, n - 1) + f(n - 1)
    }
}

/// Two lists in a row; the first failure decides.
pub open spec fn join<A, E>(a: Result<Seq<A>, E>, b: Result<Seq<A>, E>) -> Result<Seq<A>, E> {
    match a {
        Err(e) => Err(e),
        Ok(s) => match b {
            Err(e) => Err(e),
            Ok(t) => Ok(s + t),
        },
    }
}

/// The pieces `f(0)`, `f(1)`, .. `f(n - 1)` in a row; the first failure
/// decides.
pub open spec fn gather<A, E>(f: spec_fn(int) -> Result<Seq<A>, E>, n: int) -> Result<Seq<A>, E>
    decreases n,
{
    if n <= 0 {
        Ok(Seq::empty())
    } else {
        join(gather(f, n - 1), f(n - 1))
    }
}

/// The list of the one item, unless getting it failed.
pub open spec fn one<A, E>(r: Result<A, E>) -> Result<Seq<A>, E> {
    match r {
        Ok(x) => Ok(seq![x]),
        Err(e) => Err(e),
    }
}

/// A step that was to append `want` has done so, or failed as `want` does.
pub open spec fn appends<A, E>(
    r: Result<(), E>,
    before: Seq<A>,
    after: Seq<A>,
    want: Result<Seq<A>, E>,
) -> bool {
    match r {
        Ok(_) => want is Ok && after == before + want->Ok_0,
        Err(e) => want == Err::<Seq<A>, E>(e),
    }
}

/// A failure among the first pieces is the failure of the whole.
pub proof fn lemma_first_failure<A, E>(f: spec_fn(int) -> Result<Seq<A>, E>, k: int, n: int)
    requires
        k <= n,
        gather(f, k) is Err,
    ensures
        gather(f, n) == gather(f, k),
    decreases n - k,
{
    if k < n {
        lemma_first_failure(f, k, n - 1);
    }
}

/// What holds of every element of every piece holds of every element of all.
pub proof fn lemma_all<A>(f: spec_fn(int) -> Seq<A>, n: int, p: spec_fn(A) -> bool)
    requires
        forall|i: int, k: int| 0 <= i < n && 0 <= k < f(i).len() ==> p(#[trigger] f(i)[k]),
    ensures
        forall|k: int| 0 <= k < concat(f, n).len() ==> p(#[trigger] concat(f, n)[k]),
    decreases n,
{
    if n > 0 {
        lemma_all(f, n - 1, p);
        let before = concat(f, n - 1);
        assert forall|k: int| 0 <= k < concat(f, n).len() implies p(
            #[trigger] concat(f, n)[k],
        ) by {
            if k < before.len() {
                assert(p(before[k]));
            } else {
                assert(p(f(n - 1)[k - before.len()]));
            }
        }
    }
}

/// What is in a row is in one of the pieces, and the other way round.
pub proof fn lemma_in_piece<A>(f: spec_fn(int) -> Seq<A>, n: int, x: A)
    ensures
        concat(f, n).contains(x) <==> exists|i: int| 0 <= i < n && (#[trigger] f(i)).contains(x),
    decreases n,
{
    if n > 0 {
        lemma_in_piece(f, n - 1, x);
        lemma_in_both(concat(f, n - 1), f(n - 1), x);
        if exists|i: int| 0 <= i < n && (#[trigger] f(i)).contains(x) {
            let i = choose|i: int| 0 <= i < n && (#[trigger] f(i)).contains(x);
            if i < n - 1 {
                assert(f(i).contains(x));
            }
        }
    }
}

/// What is in two lists in a row is in one of them, and the other way round.
pub proof fn lemma_in_both<A>(a: Seq<A>, b: Seq<A>, x: A)
    ensures
        (a + b).contains(x) <==> a.contains(x) || b.contains(x),
{
    if a.contains(x) {
        let i = choose|i: int| 0 <= i < a.len() && a[i] == x;
        assert((a + b)[i] == x);
    }
    if b.contains(x) {
        let i = choose|i: int| 0 <= i < b.len() && b[i] == x;
        assert((a + b)[a.len() + i] == x);
    }
    if (a + b).contains(x) {
        let i = choose|i: int| 0 <= i < (a + b).len() && (a + b)[i] == x;
        if i < a.len() {
            assert(a[i] == x);
        } else {
            assert(b[i - a.len()] == x);
        }
    }
}

/// Where all the pieces could be had, what is in a row is in one of them, and
/// the other way round.
pub proof fn lemma_in_gathered<A, E>(f: spec_fn(int) -> Result<Seq<A>, E>, n: int, x: A)
    requires
        gather(f, n) is Ok,
    ensures
        forall|i: int| 0 <= i < n ==> (#[trigger] f(i)) is Ok,
        gather(f, n)->Ok_0.contains(x) <==> exists|i: int|
            0 <= i < n && (#[trigger] f(i))->Ok_0.contains(x),
    decreases n,
{
    if n > 0 {
        lemma_in_gathered(f, n - 1, x);
        lemma_in_both(gather(f, n - 1)->Ok_0, f(n - 1)->Ok_0, x);
        if exists|i: int| 0 <= i < n && (#[trigger] f(i))->Ok_0.contains(x) {
            let i = choose|i: int| 0 <= i < n && (#[trigger] f(i))->Ok_0.contains(x);
            if i < n - 1 {
                assert(f(i)->Ok_0.contains(x));
            }
        }
    }
}

} // verus!
