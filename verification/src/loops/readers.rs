//! What a loop changes, and what it only reads.
use super::guards;
use super::laws;
use super::problem::LoopInstr;
use super::separate;
use vstd::prelude::*;

verus! {

/// The step gives the variable a value, or a step of one of its arms does, at most `depth`
/// deep.
pub open spec fn changes(ins: LoopInstr, i: int, depth: nat) -> bool
    decreases depth,
{
    match ins {
        LoopInstr::AddVar(k, _) => k == i,
        LoopInstr::AddSat(k, _) => k == i,
        LoopInstr::ConstVar(k, _) => k == i,
        LoopInstr::CopyVar(k, _) => k == i,
        LoopInstr::If(_, t, e) => depth > 0 && {
            ||| exists|j: int|
                0 <= j < t@.len() && changes(#[trigger] t@[j], i, (depth - 1) as nat)
            ||| exists|j: int|
                0 <= j < e@.len() && changes(#[trigger] e@[j], i, (depth - 1) as nat)
        },
        _ => false,
    }
}

proof fn lemma_any(list: Seq<LoopInstr>, k: nat, i: int, j: int)
    requires
        0 <= j < k <= list.len(),
        separate::assigns(list[j], i),
    ensures
        separate::any_assigns(list, k, i),
    decreases k,
{
    if j < k - 1 {
        lemma_any(list, (k - 1) as nat, i, j);
    }
}

proof fn lemma_changes(ins: LoopInstr, i: int, depth: nat)
    requires
        changes(ins, i, depth),
    ensures
        separate::assigns(ins, i),
    decreases depth,
{
    if let LoopInstr::If(_, t, e) = ins {
        if exists|j: int| 0 <= j < t@.len() && changes(#[trigger] t@[j], i, (depth - 1) as nat) {
            let j = choose|j: int|
                0 <= j < t@.len() && changes(#[trigger] t@[j], i, (depth - 1) as nat);
            lemma_changes(t@[j], i, (depth - 1) as nat);
            lemma_any(t@, t@.len(), i, j);
        } else {
            let j = choose|j: int|
                0 <= j < e@.len() && changes(#[trigger] e@[j], i, (depth - 1) as nat);
            lemma_changes(e@[j], i, (depth - 1) as nat);
            lemma_any(e@, e@.len(), i, j);
        }
    }
}

/// A variable that a step of the loop changes, however deep in its branches, is one of the
/// loop, and so is one that is set before the loop.
pub proof fn law_changed_variables_are_carried(
    init: Seq<LoopInstr>,
    body: Seq<LoopInstr>,
    i: int,
    j: int,
    depth: nat,
)
    ensures
        0 <= j < body.len() && changes(body[j], i, depth) ==> separate::carried(init, body, i),
        0 <= j < init.len() && (init[j] matches LoopInstr::ConstVar(k, _) && k == i)
            ==> separate::carried(init, body, i),
{
    if 0 <= j < body.len() && changes(body[j], i, depth) {
        lemma_changes(body[j], i, depth);
        lemma_any(body, body.len(), i, j);
    }
    if 0 <= j < init.len() {
        if let LoopInstr::ConstVar(k, _) = init[j] {
            if k == i {
                lemma_starts(init, init.len(), i, j);
            }
        }
    }
}

proof fn lemma_starts(list: Seq<LoopInstr>, k: nat, i: int, j: int)
    requires
        0 <= j < k <= list.len(),
        list[j] matches LoopInstr::ConstVar(x, _) && x == i,
    ensures
        separate::starts(list, k, i),
    decreases k,
{
    if j < k - 1 {
        lemma_starts(list, (k - 1) as nat, i, j);
    }
}

proof fn lemma_read_one(ins: LoopInstr, s: Seq<int>, i: int)
    requires
        !separate::assigns(ins, i),
        separate::in_range(ins, s.len()),
        0 <= i < s.len(),
    ensures
        laws::run_one(ins, s)[i] == s[i],
        laws::run_one(ins, s).len() == s.len(),
    decreases ins, 0nat,
{
    if let LoopInstr::If(c, t, e) = ins {
        lemma_read(t@, t@.len(), s, i);
        lemma_read(e@, e@.len(), s, i);
    }
}

proof fn lemma_read(list: Seq<LoopInstr>, k: nat, s: Seq<int>, i: int)
    requires
        !separate::any_assigns(list, k, i),
        separate::all_in_range(list, k, s.len()),
        0 <= i < s.len(),
        k <= list.len(),
    ensures
        laws::run(list, k, s)[i] == s[i],
        laws::run(list, k, s).len() == s.len(),
    decreases list, k,
{
    if k > 0 {
        lemma_read(list, (k - 1) as nat, s, i);
        lemma_read_one(list[k - 1], laws::run(list, (k - 1) as nat, s), i);
    }
}

/// A variable that is not one of the loop keeps its value through the loop.
pub proof fn law_others_are_only_read(
    init: Seq<LoopInstr>,
    body: Seq<LoopInstr>,
    s: Seq<int>,
    i: int,
)
    requires
        !separate::carried(init, body, i),
        separate::all_in_range(body, body.len(), s.len()),
        0 <= i < s.len(),
    ensures
        laws::run(body, body.len(), s)[i] == s[i],
{
    lemma_read(body, body.len(), s, i);
}

/// A variable that is one of the loop is changed by a step of it, or set before it.
pub proof fn law_carried_variables_are_changed(
    init: Seq<LoopInstr>,
    body: Seq<LoopInstr>,
    i: int,
) -> (r: (int, nat))
    requires
        separate::carried(init, body, i),
    ensures
        ({
            ||| 0 <= r.0 < body.len() && changes(body[r.0], i, r.1)
            ||| 0 <= r.0 < init.len() && (init[r.0] matches LoopInstr::ConstVar(k, _) && k == i)
        }),
{
    if separate::any_assigns(body, body.len(), i) {
        lemma_some_change(body, body.len(), i)
    } else {
        (lemma_some_start(init, init.len(), i), 0)
    }
}

proof fn lemma_some_start(list: Seq<LoopInstr>, k: nat, i: int) -> (j: int)
    requires
        separate::starts(list, k, i),
        k <= list.len(),
    ensures
        0 <= j < k,
        list[j] matches LoopInstr::ConstVar(x, _) && x == i,
    decreases k,
{
    if separate::starts(list, (k - 1) as nat, i) {
        lemma_some_start(list, (k - 1) as nat, i)
    } else {
        k - 1
    }
}

proof fn lemma_some_change(list: Seq<LoopInstr>, k: nat, i: int) -> (r: (int, nat))
    requires
        separate::any_assigns(list, k, i),
    ensures
        0 <= r.0 < k <= list.len(),
        changes(list[r.0], i, r.1),
    decreases list, k,
{
    if separate::any_assigns(list, (k - 1) as nat, i) {
        lemma_some_change(list, (k - 1) as nat, i)
    } else {
        (k - 1, lemma_change(list[k - 1], i))
    }
}

proof fn lemma_change(ins: LoopInstr, i: int) -> (depth: nat)
    requires
        separate::assigns(ins, i),
    ensures
        changes(ins, i, depth),
    decreases ins, 0nat,
{
    if let LoopInstr::If(_, t, e) = ins {
        if separate::any_assigns(t@, t@.len(), i) {
            let (j, d) = lemma_some_change(t@, t@.len(), i);
            assert(changes(t@[j], i, d));
            d + 1
        } else {
            let (j, d) = lemma_some_change(e@, e@.len(), i);
            assert(changes(e@[j], i, d));
            d + 1
        }
    } else {
        0
    }
}

/// Parting a loop keeps its tests: a moved test passes in the rearranged state exactly where
/// the test passes.
pub proof fn law_separation_keeps_tests(
    x: LoopInstr,
    y: LoopInstr,
    map: Seq<nat>,
    a: Seq<int>,
    b: Seq<int>,
)
    requires
        separate::moved(x, y, map),
        separate::in_range(x, a.len()),
        laws::rearranged(a, b, map),
    ensures
        guards::passes(x, a) == guards::passes(y, b),
{
    match x {
        LoopInstr::TestLe(i, c) => {
            assert(a[i as int] == b[map[i as int] as int]);
        },
        LoopInstr::TestGe(i, c) => {
            assert(a[i as int] == b[map[i as int] as int]);
        },
        LoopInstr::TestDiffLe(i, j, c) => {
            assert(a[i as int] == b[map[i as int] as int]);
            assert(a[j as int] == b[map[j as int] as int]);
        },
        _ => {},
    }
}

} // verus!
