//! Laws of loop problems.
use super::lower;
use super::problem;
use super::problem::{Condition, LoopInstr, Scalar};
use super::separate;
use vstd::prelude::*;

verus! {

// ---------------------------------------------------------------------------
// Running
// ---------------------------------------------------------------------------

/// The state after a step, over the integers.
pub open spec fn run_one(ins: LoopInstr, s: Seq<int>) -> Seq<int>
    decreases ins, 0nat,
{
    match ins {
        LoopInstr::AddVar(i, c) => s.update(i as int, s[i as int] + c),
        LoopInstr::AddSat(i, c) => s.update(i as int, s[i as int] + c),
        LoopInstr::ConstVar(i, c) => s.update(i as int, c as int),
        LoopInstr::CopyVar(i, j) => s.update(i as int, s[j as int]),
        LoopInstr::If(c, t, e) => if c@.holds(s) {
            run(t@, t@.len(), s)
        } else {
            run(e@, e@.len(), s)
        },
        _ => s,
    }
}

/// The state after the first `k` steps.
pub open spec fn run(list: Seq<LoopInstr>, k: nat, s: Seq<int>) -> Seq<int>
    decreases list, k,
{
    if k == 0 || k > list.len() {
        s
    } else {
        run_one(list[k - 1], run(list, (k - 1) as nat, s))
    }
}

/// The expressions give the values of the variables of the loop, and the
/// variables that the loop only reads are as they were.
pub open spec fn tracks(vals: Seq<Scalar>, head: Seq<int>, s: Seq<int>) -> bool {
    &&& vals.len() <= head.len()
    &&& s.len() == head.len()
    &&& forall|k: int| 0 <= k < vals.len() ==> (#[trigger] vals[k]).value(head) == s[k]
    &&& forall|k: int| vals.len() <= k < s.len() ==> #[trigger] s[k] == head[k]
}

proof fn lemma_signs_do_not_matter(c: Condition, signed: Seq<bool>, n: nat, s: Seq<int>)
    ensures
        lower::with_signs(c, signed, n).holds(s) == c.holds(s),
    decreases c,
{
    match c {
        Condition::And(a, b) => {
            lemma_signs_do_not_matter(*a, signed, n, s);
            lemma_signs_do_not_matter(*b, signed, n, s);
        },
        Condition::Or(a, b) => {
            lemma_signs_do_not_matter(*a, signed, n, s);
            lemma_signs_do_not_matter(*b, signed, n, s);
        },
        Condition::Not(a) => {
            lemma_signs_do_not_matter(*a, signed, n, s);
        },
        _ => {},
    }
}

proof fn lemma_signs_keep_names(c: Condition, signed: Seq<bool>, n: nat, m: nat)
    ensures
        lower::with_signs(c, signed, n).names_below(m) == c.names_below(m),
    decreases c,
{
    match c {
        Condition::And(a, b) => {
            lemma_signs_keep_names(*a, signed, n, m);
            lemma_signs_keep_names(*b, signed, n, m);
        },
        Condition::Or(a, b) => {
            lemma_signs_keep_names(*a, signed, n, m);
            lemma_signs_keep_names(*b, signed, n, m);
        },
        Condition::Not(a) => lemma_signs_keep_names(*a, signed, n, m),
        _ => {},
    }
}

proof fn lemma_step_tracks(
    vals: Seq<Scalar>,
    ins: LoopInstr,
    signed: Seq<bool>,
    head: Seq<int>,
    s: Seq<int>,
)
    requires
        tracks(vals, head, s),
        lower::fits(ins, vals.len()),
        separate::in_range(ins, head.len()),
    ensures
        tracks(lower::step(vals, ins, signed), head, run_one(ins, s)),
        lower::step(vals, ins, signed).len() == vals.len(),
    decreases ins, 0nat,
{
    let after = lower::step(vals, ins, signed);
    let t = run_one(ins, s);
    match ins {
        LoopInstr::AddVar(i, c) => {
            assert(Scalar::Const(c as int).value(head) == c);
            assert(vals[i as int].value(head) == s[i as int]);
        },
        LoopInstr::AddSat(i, c) => {
            assert(Scalar::Const(c as int).value(head) == c);
            assert(vals[i as int].value(head) == s[i as int]);
        },
        LoopInstr::ConstVar(i, c) => {
            assert(Scalar::Const(c as int).value(head) == c);
        },
        LoopInstr::CopyVar(i, j) => {
            if j < vals.len() {
                assert(vals[j as int].value(head) == s[j as int]);
            } else {
                assert(Scalar::Var(j).value(head) == head[j as int]);
            }
        },
        LoopInstr::If(c, a, b) => {
            let fixed = lower::with_signs(c@, signed, vals.len());
            let cond = fixed.replaced(vals);
            lemma_signs_do_not_matter(c@, signed, vals.len(), s);
            lemma_signs_keep_names(c@, signed, vals.len(), head.len());
            assert(problem::stand_for(vals, head, head.len(), s));
            problem::law_replacing_keeps_truth(fixed, vals, head, head.len(), s);
            lemma_steps_track(vals, a@, a@.len(), signed, head, s);
            lemma_steps_track(vals, b@, b@.len(), signed, head, s);
            let (x, y) = (
                lower::steps(vals, a@, a@.len(), signed),
                lower::steps(vals, b@, b@.len(), signed),
            );
            assert forall|k: int| 0 <= k < after.len() implies (#[trigger] after[k]).value(head)
                == t[k] by {
                assert(x[k].value(head) == x[k].value(head));
                assert(y[k].value(head) == y[k].value(head));
                if x[k] != y[k] {
                    assert(after[k] == Scalar::Ite(Box::new(cond), Box::new(x[k]), Box::new(y[k])));
                }
            }
        },
        _ => {},
    }
    assert forall|k: int| 0 <= k < after.len() implies (#[trigger] after[k]).value(head)
        == t[k] by {
        if k < vals.len() {
            assert(vals[k].value(head) == s[k]);
        }
    }
}

pub proof fn lemma_steps_track(
    vals: Seq<Scalar>,
    list: Seq<LoopInstr>,
    k: nat,
    signed: Seq<bool>,
    head: Seq<int>,
    s: Seq<int>,
)
    requires
        tracks(vals, head, s),
        lower::all_fit(list, k, vals.len()),
        separate::all_in_range(list, k, head.len()),
    ensures
        tracks(lower::steps(vals, list, k, signed), head, run(list, k, s)),
        lower::steps(vals, list, k, signed).len() == vals.len(),
    decreases list, k,
{
    if 0 < k <= list.len() {
        let j = (k - 1) as nat;
        lemma_steps_track(vals, list, j, signed, head, s);
        lemma_step_tracks(
            lower::steps(vals, list, j, signed),
            list[k - 1],
            signed,
            head,
            run(list, j, s),
        );
    }
}

/// At the head, every variable is itself.
pub proof fn lemma_identity_tracks(n: nat, head: Seq<int>)
    requires
        n <= head.len(),
        n <= usize::MAX,
    ensures
        tracks(lower::identity(n), head, head),
{
}

/// The next values of a loop problem are what the steps of the loop compute:
/// in every state at the head, each variable of the loop has, after the
/// steps, the value of its expression, and every other variable keeps its
/// value.
pub proof fn law_lowering_runs(list: Seq<LoopInstr>, n: nat, signed: Seq<bool>, head: Seq<int>)
    requires
        n <= head.len(),
        n <= usize::MAX,
        lower::all_fit(list, list.len(), n),
        separate::all_in_range(list, list.len(), head.len()),
    ensures
        forall|i: int|
            0 <= i < n ==> (#[trigger] lower::steps(
                lower::identity(n),
                list,
                list.len(),
                signed,
            )[i]).value(head) == run(list, list.len(), head)[i],
        forall|i: int|
            n <= i < head.len() ==> #[trigger] run(list, list.len(), head)[i] == head[i],
{
    assert(tracks(lower::identity(n), head, head));
    lemma_steps_track(lower::identity(n), list, list.len(), signed, head, head);
}

/// The condition at the head holds exactly where every test holds.
pub proof fn law_conjunction_holds(parts: Seq<Condition>, s: Seq<int>)
    ensures
        lower::all_of(parts).holds(s) <==> (forall|k: int|
            0 <= k < parts.len() ==> (#[trigger] parts[k]).holds(s)),
    decreases parts.len(),
{
    if parts.len() > 0 {
        let before = parts.drop_last();
        law_conjunction_holds(before, s);
        let acc = lower::all_of(before);
        assert(parts.last() == parts[parts.len() - 1]);
        assert forall|k: int| 0 <= k < before.len() implies parts[k] == #[trigger] before[k] by {}
        if lower::all_of(parts).holds(s) {
            assert forall|k: int| 0 <= k < parts.len() implies (#[trigger] parts[k]).holds(s) by {
                if k < before.len() {
                    assert(before[k].holds(s));
                }
            }
        } else if forall|k: int| 0 <= k < parts.len() ==> (#[trigger] parts[k]).holds(s) {
            assert forall|k: int| 0 <= k < before.len() implies (#[trigger] before[k]).holds(
                s,
            ) by {
                assert(parts[k].holds(s));
            }
        }
    }
}

/// In this state, an addition does not go past the end of the range of its
/// variable.
pub open spec fn does_not_trap(
    ins: LoopInstr,
    s: Seq<int>,
    widths: Seq<u8>,
    signed: Seq<bool>,
) -> bool {
    match ins {
        LoopInstr::AddVar(i, c) => {
            let w = lower::width_at(widths, i as int);
            let g = lower::signed_at(signed, i as int);
            &&& c > 0 ==> s[i as int] + c <= lower::greatest(w, g)
            &&& c < 0 ==> s[i as int] + c >= lower::least(w, g)
        },
        _ => true,
    }
}

proof fn lemma_defined_step(
    vals: Seq<Scalar>,
    ins: LoopInstr,
    widths: Seq<u8>,
    signed: Seq<bool>,
    head: Seq<int>,
    s: Seq<int>,
)
    requires
        tracks(vals, head, s),
        lower::fits(ins, vals.len()),
    ensures
        lower::all_of(lower::defined_when(vals, ins, widths, signed)).holds(head)
            == does_not_trap(ins, s, widths, signed),
{
    let parts = lower::defined_when(vals, ins, widths, signed);
    law_conjunction_holds(parts, head);
    if let LoopInstr::AddVar(i, c) = ins {
        let w = lower::width_at(widths, i as int);
        let g = lower::signed_at(signed, i as int);
        assert(vals[i as int].value(head) == s[i as int]);
        assert(Scalar::Const(lower::greatest(w, g) - c).value(head) == lower::greatest(w, g) - c);
        assert(Scalar::Const(lower::least(w, g) - c).value(head) == lower::least(w, g) - c);
        if c != 0 {
            assert(parts.len() == 1);
            assert(parts[0].holds(head) == does_not_trap(ins, s, widths, signed));
        }
    }
}

pub proof fn lemma_all_of_both(a: Seq<Condition>, b: Seq<Condition>, s: Seq<int>)
    ensures
        lower::all_of(a + b).holds(s) == (lower::all_of(a).holds(s) && lower::all_of(b).holds(s)),
{
    law_conjunction_holds(a, s);
    law_conjunction_holds(b, s);
    law_conjunction_holds(a + b, s);
    let both = a + b;
    if lower::all_of(both).holds(s) {
        assert forall|k: int| 0 <= k < a.len() implies (#[trigger] a[k]).holds(s) by {
            assert(both[k].holds(s));
        }
        assert forall|k: int| 0 <= k < b.len() implies (#[trigger] b[k]).holds(s) by {
            assert(both[a.len() + k].holds(s));
        }
    } else if lower::all_of(a).holds(s) && lower::all_of(b).holds(s) {
        assert forall|k: int| 0 <= k < both.len() implies (#[trigger] both[k]).holds(s) by {
            if k < a.len() {
                assert(a[k].holds(s));
            } else {
                assert(b[k - a.len()].holds(s));
            }
        }
    }
}

proof fn lemma_defined_steps(
    list: Seq<LoopInstr>,
    k: nat,
    n: nat,
    widths: Seq<u8>,
    signed: Seq<bool>,
    head: Seq<int>,
)
    requires
        k <= list.len(),
        n <= head.len(),
        n <= usize::MAX,
        lower::all_fit(list, k, n),
        separate::all_in_range(list, k, head.len()),
    ensures
        lower::all_of(lower::definitions(n, list, k, widths, signed)).holds(head) <==> (forall|
            j: int,
        |
            0 <= j < k ==> does_not_trap(
                #[trigger] list[j],
                run(list, j as nat, head),
                widths,
                signed,
            )),
    decreases k,
{
    if k > 0 {
        let j = (k - 1) as nat;
        lemma_defined_steps(list, j, n, widths, signed, head);
        assert(tracks(lower::identity(n), head, head));
        lemma_steps_track(lower::identity(n), list, j, signed, head, head);
        let vals = lower::steps(lower::identity(n), list, j, signed);
        lemma_defined_step(vals, list[k - 1], widths, signed, head, run(list, j, head));
        lemma_all_of_both(
            lower::definitions(n, list, j, widths, signed),
            lower::defined_when(vals, list[k - 1], widths, signed),
            head,
        );
        assert(list[k - 1] == list[j as int]);
    }
}

/// The definedness of a loop problem holds exactly in the states at the head
/// from which no addition of the loop, in the state in which it is made, goes
/// past the end of the range of its variable.
pub proof fn law_definedness_is_no_trap(
    list: Seq<LoopInstr>,
    n: nat,
    widths: Seq<u8>,
    signed: Seq<bool>,
    head: Seq<int>,
)
    requires
        n <= head.len(),
        n <= usize::MAX,
        lower::all_fit(list, list.len(), n),
        separate::all_in_range(list, list.len(), head.len()),
    ensures
        lower::all_of(lower::definitions(n, list, list.len(), widths, signed)).holds(head) <==> (
        forall|j: int|
            0 <= j < list.len() ==> does_not_trap(
                #[trigger] list[j],
                run(list, j as nat, head),
                widths,
                signed,
            )),
{
    lemma_defined_steps(list, list.len(), n, widths, signed, head);
}

/// An addition that does not go past the end of the range leaves a variable
/// in its range where it was in it.
pub proof fn law_range_is_kept(
    i: usize,
    c: i128,
    s: Seq<int>,
    widths: Seq<u8>,
    signed: Seq<bool>,
)
    requires
        i < s.len(),
        lower::least(
            lower::width_at(widths, i as int),
            lower::signed_at(signed, i as int),
        ) <= s[i as int] <= lower::greatest(
            lower::width_at(widths, i as int),
            lower::signed_at(signed, i as int),
        ),
    ensures
        does_not_trap(LoopInstr::AddVar(i, c), s, widths, signed) <==> (lower::least(
            lower::width_at(widths, i as int),
            lower::signed_at(signed, i as int),
        ) <= run_one(LoopInstr::AddVar(i, c), s)[i as int] <= lower::greatest(
            lower::width_at(widths, i as int),
            lower::signed_at(signed, i as int),
        )),
{
}

// ---------------------------------------------------------------------------
// Moving variables
// ---------------------------------------------------------------------------

/// The second state is the first with its values moved to their new places.
pub open spec fn rearranged(a: Seq<int>, b: Seq<int>, map: Seq<nat>) -> bool {
    &&& a.len() == b.len()
    &&& a.len() == map.len()
    &&& forall|i: int| 0 <= i < a.len() ==> #[trigger] map[i] < b.len()
    &&& forall|i: int, j: int|
        0 <= i < j < a.len() ==> #[trigger] map[i] != #[trigger] map[j]
    &&& forall|i: int| 0 <= i < a.len() ==> #[trigger] a[i] == b[map[i] as int]
}

proof fn lemma_moved_step(
    x: LoopInstr,
    y: LoopInstr,
    map: Seq<nat>,
    a: Seq<int>,
    b: Seq<int>,
)
    requires
        separate::moved(x, y, map),
        a.len() <= usize::MAX,
        separate::in_range(x, a.len()),
        rearranged(a, b, map),
    ensures
        rearranged(run_one(x, a), run_one(y, b), map),
    decreases x, 0nat,
{
    match x {
        LoopInstr::If(c, t, e) => {
            match y {
                LoopInstr::If(d, u, f) => {
                    let by = separate::variables_at(map);
                    assert(problem::stand_for(by, b, a.len(), a)) by {
                        assert forall|i: int| 0 <= i < a.len() implies #[trigger] a[i]
                            == by[i].value(b) by {
                            assert(by[i] == Scalar::Var(map[i] as usize));
                        }
                    }
                    problem::law_replacing_keeps_truth(c@, by, b, a.len(), a);
                    if c@.holds(a) {
                        lemma_moved_steps(t@, u@, t@.len(), map, a, b);
                    } else {
                        lemma_moved_steps(e@, f@, e@.len(), map, a, b);
                    }
                },
                _ => {},
            }
        },
        _ => {
            let (s, t) = (run_one(x, a), run_one(y, b));
            assert forall|i: int| 0 <= i < s.len() implies #[trigger] s[i] == t[map[i] as int] by {
                assert(a[i] == b[map[i] as int]);
            }
        },
    }
}

proof fn lemma_moved_steps(
    x: Seq<LoopInstr>,
    y: Seq<LoopInstr>,
    k: nat,
    map: Seq<nat>,
    a: Seq<int>,
    b: Seq<int>,
)
    requires
        x.len() == y.len(),
        separate::all_moved(x, y, k, map),
        a.len() <= usize::MAX,
        separate::all_in_range(x, k, a.len()),
        rearranged(a, b, map),
    ensures
        rearranged(run(x, k, a), run(y, k, b), map),
    decreases x, k,
{
    if 0 < k <= x.len() {
        let j = (k - 1) as nat;
        lemma_moved_steps(x, y, j, map, a, b);
        lemma_run_len(x, j, a);
        lemma_moved_step(
            x[k - 1],
            y[k - 1],
            map,
            run(x, j, a),
            run(y, j, b),
        );
    }
}

proof fn lemma_run_one_len(ins: LoopInstr, s: Seq<int>)
    requires
        separate::in_range(ins, s.len()),
    ensures
        run_one(ins, s).len() == s.len(),
    decreases ins, 0nat,
{
    match ins {
        LoopInstr::If(_, t, e) => {
            lemma_run_len(t@, t@.len(), s);
            lemma_run_len(e@, e@.len(), s);
        },
        _ => {},
    }
}

proof fn lemma_run_len(list: Seq<LoopInstr>, k: nat, s: Seq<int>)
    requires
        separate::all_in_range(list, k, s.len()),
    ensures
        run(list, k, s).len() == s.len(),
    decreases list, k,
{
    if 0 < k <= list.len() {
        lemma_run_len(list, (k - 1) as nat, s);
        lemma_run_one_len(list[k - 1], run(list, (k - 1) as nat, s));
    }
}

/// Parting a loop keeps what it computes: from the rearranged state, the moved
/// steps lead to the rearranged result.
pub proof fn law_separation_runs(
    init: Seq<LoopInstr>,
    body: Seq<LoopInstr>,
    new_body: Seq<LoopInstr>,
    head: Seq<int>,
    new_head: Seq<int>,
)
    requires
        head.len() <= usize::MAX,
        head.len() == new_head.len(),
        forall|i: int|
            0 <= i < head.len() ==> #[trigger] head[i] == new_head[separate::place(
                init,
                body,
                head.len(),
                i as nat,
            ) as int],
        separate::all_in_range(body, body.len(), head.len()),
        new_body.len() == body.len(),
        separate::all_moved(
            body,
            new_body,
            body.len(),
            separate::places(init, body, head.len()),
        ),
    ensures
        rearranged(
            run(body, body.len(), head),
            run(new_body, new_body.len(), new_head),
            separate::places(init, body, head.len()),
        ),
{
    let n = head.len();
    let map = separate::places(init, body, n);
    assert forall|i: int| 0 <= i < n implies #[trigger] map[i] < n by {
        separate::law_places_rearrange(init, body, n, i as nat);
    }
    assert forall|i: int, j: int| 0 <= i < j < n implies #[trigger] map[i] != #[trigger] map[j] by {
        separate::law_places_rearrange(init, body, n, i as nat);
        separate::law_places_rearrange(init, body, n, j as nat);
    }
    lemma_moved_steps(body, new_body, body.len(), map, head, new_head);
}

} // verus!
