//! The variables of a loop that the loop only reads.
use super::lower;
use super::lower::{bits_of, sign_of};
use super::problem;
use super::problem::{BiiVar, LoopInstr, Scalar, ScalarExpr};
use crate::symbol::Symbol;
use vstd::prelude::*;

verus! {

/// A loop with the variables that it changes apart from those that it only
/// reads.
#[derive(Debug)]
pub struct SeparatedLoop {
    /// The variables that the loop changes or that have a value before it.
    pub vars: Vec<Symbol>,
    pub init: Vec<LoopInstr>,
    pub body: Vec<LoopInstr>,
    /// The widths, those of `vars` first and those of `params` after them.
    pub bit_widths: Vec<u8>,
    /// The signedness, in the same order.
    pub signed: Vec<bool>,
    /// The variables that the loop only reads.
    pub params: Vec<BiiVar>,
}

// ---------------------------------------------------------------------------
// Meaning
// ---------------------------------------------------------------------------

/// A step changes the variable `i`.
pub open spec fn assigns(ins: LoopInstr, i: int) -> bool
    decreases ins, 0nat,
{
    match ins {
        LoopInstr::AddVar(k, _) => k == i,
        LoopInstr::AddSat(k, _) => k == i,
        LoopInstr::ConstVar(k, _) => k == i,
        LoopInstr::CopyVar(k, _) => k == i,
        LoopInstr::If(_, t, e) => any_assigns(t@, t@.len(), i) || any_assigns(e@, e@.len(), i),
        _ => false,
    }
}

/// One of the first `k` steps changes the variable `i`.
pub open spec fn any_assigns(list: Seq<LoopInstr>, k: nat, i: int) -> bool
    decreases list, k,
{
    k != 0 && k <= list.len() && (any_assigns(list, (k - 1) as nat, i) || assigns(list[k - 1], i))
}

/// One of the first `k` steps sets the variable `i` to a constant.
pub open spec fn starts(list: Seq<LoopInstr>, k: nat, i: int) -> bool
    decreases k,
{
    k != 0 && (starts(list, (k - 1) as nat, i) || match list[k - 1] {
        LoopInstr::ConstVar(j, _) => j == i,
        _ => false,
    })
}

/// The variable `i` is one of the loop.
pub open spec fn carried(init: Seq<LoopInstr>, body: Seq<LoopInstr>, i: int) -> bool {
    any_assigns(body, body.len(), i) || starts(init, init.len(), i)
}

/// The variables of the loop, or the others, among the first `n`.
pub open spec fn chosen(
    init: Seq<LoopInstr>,
    body: Seq<LoopInstr>,
    want: bool,
    n: nat,
) -> Seq<usize>
    decreases n,
{
    if n == 0 {
        Seq::empty()
    } else {
        let before = chosen(init, body, want, (n - 1) as nat);
        if carried(init, body, n - 1) == want {
            before.push((n - 1) as usize)
        } else {
            before
        }
    }
}

/// The variables in their new order: those of the loop, then the others.
pub open spec fn order(init: Seq<LoopInstr>, body: Seq<LoopInstr>, n: nat) -> Seq<usize> {
    chosen(init, body, true, n) + chosen(init, body, false, n)
}

/// The new place of the variable `i`.
pub open spec fn place(init: Seq<LoopInstr>, body: Seq<LoopInstr>, n: nat, i: nat) -> nat {
    if carried(init, body, i as int) {
        chosen(init, body, true, i).len()
    } else {
        chosen(init, body, true, n).len() + chosen(init, body, false, i).len()
    }
}

/// The new places of the variables.
pub open spec fn places(init: Seq<LoopInstr>, body: Seq<LoopInstr>, n: nat) -> Seq<nat> {
    Seq::new(n, |i: int| place(init, body, n, i as nat))
}

/// Every variable that a step names is among the first `n`.
pub open spec fn in_range(ins: LoopInstr, n: nat) -> bool
    decreases ins, 0nat,
{
    match ins {
        LoopInstr::TestLe(i, _) => i < n,
        LoopInstr::TestGe(i, _) => i < n,
        LoopInstr::TestDiffLe(i, j, _) => i < n && j < n,
        LoopInstr::AddVar(i, _) => i < n,
        LoopInstr::AddSat(i, _) => i < n,
        LoopInstr::ConstVar(i, _) => i < n,
        LoopInstr::CopyVar(i, j) => i < n && j < n,
        LoopInstr::If(c, t, e) => c@.names_below(n) && all_in_range(t@, t@.len(), n)
            && all_in_range(e@, e@.len(), n),
    }
}

/// Every variable that the first `k` steps name is among the first `n`.
pub open spec fn all_in_range(list: Seq<LoopInstr>, k: nat, n: nat) -> bool
    decreases list, k,
{
    k == 0 || k > list.len() || (all_in_range(list, (k - 1) as nat, n) && in_range(list[k - 1], n))
}

/// The variables at the new places.
pub open spec fn variables_at(map: Seq<nat>) -> Seq<Scalar> {
    Seq::new(map.len(), |i: int| Scalar::Var(map[i] as usize))
}

/// A step is another one with its variables moved to their new places.
pub open spec fn moved(a: LoopInstr, b: LoopInstr, map: Seq<nat>) -> bool
    decreases a, 0nat,
{
    match a {
        LoopInstr::TestLe(i, c) => b matches LoopInstr::TestLe(k, d) && k == map[i as int] && d
            == c,
        LoopInstr::TestGe(i, c) => b matches LoopInstr::TestGe(k, d) && k == map[i as int] && d
            == c,
        LoopInstr::TestDiffLe(i, j, c) => b matches LoopInstr::TestDiffLe(k, l, d) && k
            == map[i as int] && l == map[j as int] && d == c,
        LoopInstr::AddVar(i, c) => b matches LoopInstr::AddVar(k, d) && k == map[i as int] && d
            == c,
        LoopInstr::AddSat(i, c) => b matches LoopInstr::AddSat(k, d) && k == map[i as int] && d
            == c,
        LoopInstr::ConstVar(i, c) => b matches LoopInstr::ConstVar(k, d) && k == map[i as int] && d
            == c,
        LoopInstr::CopyVar(i, j) => b matches LoopInstr::CopyVar(k, l) && k == map[i as int] && l
            == map[j as int],
        LoopInstr::If(c, t, e) => b matches LoopInstr::If(d, u, f) && d@ == c@.replaced(
            variables_at(map),
        ) && t@.len() == u@.len() && e@.len() == f@.len() && all_moved(t@, u@, t@.len(), map) && all_moved(
            e@,
            f@,
            e@.len(),
            map,
        ),
    }
}

/// The first `k` steps are others with their variables moved.
pub open spec fn all_moved(
    a: Seq<LoopInstr>,
    b: Seq<LoopInstr>,
    k: nat,
    map: Seq<nat>,
) -> bool
    decreases a, k,
{
    k == 0 || k > a.len() || (all_moved(a, b, (k - 1) as nat, map) && moved(a[k - 1], b[k - 1], map))
}

// ---------------------------------------------------------------------------
// Steps
// ---------------------------------------------------------------------------

/// Marks the variables that a step changes.
fn mark_assigned(assigned: &mut Vec<bool>, ins: &LoopInstr)
    ensures
        final(assigned)@.len() == old(assigned)@.len(),
        forall|i: int|
            0 <= i < old(assigned)@.len() ==> #[trigger] final(assigned)@[i] == (old(assigned)@[i]
                || assigns(*ins, i)),
    decreases *ins, 0nat,
{
    match ins {
        LoopInstr::AddVar(k, _) => mark(assigned, *k),
        LoopInstr::AddSat(k, _) => mark(assigned, *k),
        LoopInstr::ConstVar(k, _) => mark(assigned, *k),
        LoopInstr::CopyVar(k, _) => mark(assigned, *k),
        LoopInstr::If(_, t, e) => {
            mark_all(assigned, t);
            mark_all(assigned, e);
        },
        _ => {},
    }
}

fn mark(assigned: &mut Vec<bool>, k: usize)
    ensures
        final(assigned)@.len() == old(assigned)@.len(),
        forall|i: int|
            0 <= i < old(assigned)@.len() ==> #[trigger] final(assigned)@[i] == (old(assigned)@[i]
                || k == i),
{
    if k < assigned.len() {
        assigned.set(k, true);
    }
}

/// Marks the variables that steps change.
fn mark_all(assigned: &mut Vec<bool>, list: &Vec<LoopInstr>)
    ensures
        final(assigned)@.len() == old(assigned)@.len(),
        forall|i: int|
            0 <= i < old(assigned)@.len() ==> #[trigger] final(assigned)@[i] == (old(assigned)@[i]
                || any_assigns(list@, list@.len(), i)),
    decreases *list, 0nat,
{
    for k in 0..list.len()
        invariant
            assigned@.len() == old(assigned)@.len(),
            forall|i: int|
                0 <= i < old(assigned)@.len() ==> #[trigger] assigned@[i] == (old(assigned)@[i]
                    || any_assigns(list@, k as nat, i)),
    {
        mark_assigned(assigned, &list[k]);
    }
}

proof fn lemma_in_range(list: Seq<LoopInstr>, k: nat, n: nat, i: int)
    requires
        all_in_range(list, k, n),
        0 <= i < k <= list.len(),
    ensures
        in_range(list[i], n),
    decreases k,
{
    if i < k - 1 {
        lemma_in_range(list, (k - 1) as nat, n, i);
    }
}

/// The new places, as machine numbers.
pub open spec fn as_places(map: Seq<usize>) -> Seq<nat> {
    Seq::new(map.len(), |i: int| map[i] as nat)
}

/// The variables at the new places.
fn moved_variables(map: &Vec<usize>) -> (r: Vec<ScalarExpr>)
    ensures
        problem::models(r@) == variables_at(as_places(map@)),
{
    let mut out: Vec<ScalarExpr> = Vec::new();
    for k in 0..map.len()
        invariant
            out@.len() == k,
            forall|j: int| 0 <= j < k ==> #[trigger] out@[j].model() == Scalar::Var(map@[j]),
    {
        out.push(ScalarExpr::Var(map[k]));
    }
    assert(problem::models(out@) =~= variables_at(as_places(map@)));
    out
}

fn remap_ins(ins: &LoopInstr, map: &Vec<usize>) -> (r: LoopInstr)
    requires
        in_range(*ins, map@.len()),
    ensures
        moved(*ins, r, as_places(map@)),
    decreases *ins, 0nat,
{
    match ins {
        LoopInstr::TestLe(i, c) => LoopInstr::TestLe(map[*i], *c),
        LoopInstr::TestGe(i, c) => LoopInstr::TestGe(map[*i], *c),
        LoopInstr::TestDiffLe(i, j, c) => LoopInstr::TestDiffLe(map[*i], map[*j], *c),
        LoopInstr::AddVar(i, c) => LoopInstr::AddVar(map[*i], *c),
        LoopInstr::AddSat(i, c) => LoopInstr::AddSat(map[*i], *c),
        LoopInstr::ConstVar(i, c) => LoopInstr::ConstVar(map[*i], *c),
        LoopInstr::CopyVar(i, j) => LoopInstr::CopyVar(map[*i], map[*j]),
        LoopInstr::If(c, t, e) => LoopInstr::If(
            Box::new(c.replace(&moved_variables(map))),
            remap_all(t, map),
            remap_all(e, map),
        ),
    }
}

fn remap_all(list: &Vec<LoopInstr>, map: &Vec<usize>) -> (r: Vec<LoopInstr>)
    requires
        all_in_range(list@, list@.len(), map@.len()),
    ensures
        r@.len() == list@.len(),
        all_moved(list@, r@, list@.len(), as_places(map@)),
    decreases *list, 0nat,
{
    let mut out: Vec<LoopInstr> = Vec::new();
    for k in 0..list.len()
        invariant
            out@.len() == k,
            all_in_range(list@, list@.len(), map@.len()),
            all_moved(list@, out@, k as nat, as_places(map@)),
    {
        proof {
            lemma_in_range(list@, list@.len(), map@.len(), k as int);
        }
        let ghost before = out@;
        let ins = remap_ins(&list[k], map);
        out.push(ins);
        proof {
            lemma_moved_prefix(list@, before, out@, k as nat, as_places(map@));
        }
    }
    out
}

/// Only the first `k` steps matter.
proof fn lemma_moved_prefix(
    a: Seq<LoopInstr>,
    b: Seq<LoopInstr>,
    c: Seq<LoopInstr>,
    k: nat,
    map: Seq<nat>,
)
    requires
        all_moved(a, b, k, map),
        k <= a.len(),
        k <= b.len(),
        k <= c.len(),
        forall|i: int| 0 <= i < k ==> b[i] == c[i],
    ensures
        all_moved(a, c, k, map),
    decreases k,
{
    if k > 0 {
        lemma_moved_prefix(a, b, c, (k - 1) as nat, map);
    }
}

/// The variables of the loop are marked.
fn marked(vars_len: usize, init: &Vec<LoopInstr>, body: &Vec<LoopInstr>) -> (r: Vec<bool>)
    ensures
        r@.len() == vars_len,
        forall|i: int| 0 <= i < vars_len ==> #[trigger] r@[i] == carried(init@, body@, i),
{
    let mut out: Vec<bool> = Vec::new();
    for i in 0..vars_len
        invariant
            out@.len() == i,
            forall|j: int| 0 <= j < i ==> #[trigger] out@[j] == false,
    {
        out.push(false);
    }
    mark_all(&mut out, body);
    let ghost before = out@;
    for k in 0..init.len()
        invariant
            out@.len() == vars_len,
            before.len() == vars_len,
            forall|i: int|
                0 <= i < vars_len ==> #[trigger] out@[i] == (before[i] || starts(
                    init@,
                    k as nat,
                    i,
                )),
    {
        if let LoopInstr::ConstVar(i, _) = &init[k] {
            mark(&mut out, *i);
        }
    }
    out
}

/// The marked variables, or those that are not.
fn choose_marked(
    marks: &Vec<bool>,
    want: bool,
    Ghost(init): Ghost<Seq<LoopInstr>>,
    Ghost(body): Ghost<Seq<LoopInstr>>,
) -> (r: Vec<usize>)
    requires
        forall|i: int| 0 <= i < marks@.len() ==> #[trigger] marks@[i] == carried(init, body, i),
    ensures
        r@ == chosen(init, body, want, marks@.len()),
{
    let mut out: Vec<usize> = Vec::new();
    for i in 0..marks.len()
        invariant
            forall|j: int|
                0 <= j < marks@.len() ==> #[trigger] marks@[j] == carried(init, body, j),
            out@ == chosen(init, body, want, i as nat),
    {
        if marks[i] == want {
            out.push(i);
        }
    }
    out
}

proof fn lemma_chosen(init: Seq<LoopInstr>, body: Seq<LoopInstr>, n: nat)
    ensures
        chosen(init, body, true, n).len() + chosen(init, body, false, n).len() == n,
        forall|k: int, want: bool|
            0 <= k < chosen(init, body, want, n).len() ==> #[trigger] chosen(
                init,
                body,
                want,
                n,
            )[k] < n,
    decreases n,
{
    if n > 0 {
        lemma_chosen(init, body, (n - 1) as nat);
    }
}

/// The first variables that are chosen stay the first.
pub proof fn lemma_chosen_prefix(
    init: Seq<LoopInstr>,
    body: Seq<LoopInstr>,
    want: bool,
    i: nat,
    n: nat,
)
    requires
        i < n,
        n <= usize::MAX,
        carried(init, body, i as int) == want,
    ensures
        chosen(init, body, want, i).len() < chosen(init, body, want, n).len(),
        chosen(init, body, want, n)[chosen(init, body, want, i).len() as int] == i,
    decreases n,
{
    if i < n - 1 {
        lemma_chosen_prefix(init, body, want, i, (n - 1) as nat);
    }
}

/// The new places of the variables.
fn new_places(
    marks: &Vec<bool>,
    loop_count: usize,
    Ghost(init): Ghost<Seq<LoopInstr>>,
    Ghost(body): Ghost<Seq<LoopInstr>>,
) -> (r: Vec<usize>)
    requires
        forall|i: int| 0 <= i < marks@.len() ==> #[trigger] marks@[i] == carried(init, body, i),
        loop_count == chosen(init, body, true, marks@.len()).len(),
    ensures
        r@.len() == marks@.len(),
        as_places(r@) == places(init, body, marks@.len()),
{
    let mut out: Vec<usize> = Vec::new();
    let mut loops: usize = 0;
    let mut others: usize = 0;
    let ghost n = marks@.len();
    for i in 0..marks.len()
        invariant
            n == marks@.len(),
            n <= usize::MAX,
            forall|j: int| 0 <= j < n ==> #[trigger] marks@[j] == carried(init, body, j),
            loop_count == chosen(init, body, true, n).len(),
            loops == chosen(init, body, true, i as nat).len(),
            others == chosen(init, body, false, i as nat).len(),
            out@.len() == i,
            forall|j: int|
                0 <= j < i ==> #[trigger] out@[j] == place(init, body, n, j as nat),
    {
        proof {
            lemma_chosen(init, body, n);
            lemma_chosen(init, body, i as nat);
            lemma_chosen_prefix(init, body, marks@[i as int], i as nat, n);
        }
        if marks[i] {
            out.push(loops);
            loops = loops + 1;
        } else {
            out.push(loop_count + others);
            others = others + 1;
        }
    }
    assert(as_places(out@) =~= places(init, body, n));
    out
}

/// Parts a loop into the variables that it changes and those that it only
/// reads, with the variables in their new order. There is nothing to part
/// where every variable is one of the loop.
pub fn separate_loop_params(
    vars: &Vec<Symbol>,
    init: &Vec<LoopInstr>,
    body: &Vec<LoopInstr>,
    bit_widths: &Vec<u8>,
    signed: &Vec<bool>,
) -> (r: Option<SeparatedLoop>)
    requires
        (exists|i: int| 0 <= i < vars@.len() && !#[trigger] carried(init@, body@, i)) ==> (
        all_in_range(init@, init@.len(), vars@.len()) && all_in_range(
            body@,
            body@.len(),
            vars@.len(),
        )),
    ensures
        r is None <==> (forall|i: int| 0 <= i < vars@.len() ==> #[trigger] carried(init@, body@, i)),
        r is Some ==> {
            let s = r->0;
            let n = vars@.len();
            let kept = chosen(init@, body@, true, n);
            let others = chosen(init@, body@, false, n);
            let all = order(init@, body@, n);
            let map = places(init@, body@, n);
            &&& s.vars@ == Seq::new(kept.len(), |k: int| vars@[kept[k] as int])
            &&& s.params@ == Seq::new(
                others.len(),
                |k: int| lower::variable(vars@, bit_widths@, signed@, others[k] as int),
            )
            &&& s.bit_widths@ == Seq::new(n, |k: int| lower::width_at(bit_widths@, all[k] as int))
            &&& s.signed@ == Seq::new(n, |k: int| lower::signed_at(signed@, all[k] as int))
            &&& s.init@.len() == init@.len()
            &&& all_moved(init@, s.init@, init@.len(), map)
            &&& s.body@.len() == body@.len()
            &&& all_moved(body@, s.body@, body@.len(), map)
        },
{
    let n: usize = vars.len();
    let marks = marked(n, init, body);
    let kept = choose_marked(&marks, true, Ghost(init@), Ghost(body@));
    let others = choose_marked(&marks, false, Ghost(init@), Ghost(body@));
    proof {
        lemma_chosen(init@, body@, n as nat);
    }
    if others.len() == 0 {
        proof {
            assert forall|i: int| 0 <= i < n implies #[trigger] carried(init@, body@, i) by {
                if !carried(init@, body@, i) {
                    lemma_chosen_prefix(init@, body@, false, i as nat, n as nat);
                }
            }
        }
        return None;
    }
    proof {
        let first = others@[0] as int;
        lemma_chosen_are(init@, body@, false, n as nat);
        assert(!carried(init@, body@, first));
    }
    let map = new_places(&marks, kept.len(), Ghost(init@), Ghost(body@));
    let new_init = remap_all(init, &map);
    let new_body = remap_all(body, &map);
    let mut new_vars: Vec<Symbol> = Vec::new();
    let mut widths: Vec<u8> = Vec::new();
    let mut signs: Vec<bool> = Vec::new();
    let ghost all = order(init@, body@, n as nat);
    for k in 0..kept.len()
        invariant
            n == vars@.len(),
            all == order(init@, body@, n as nat),
            kept@ == chosen(init@, body@, true, n as nat),
            forall|j: int| 0 <= j < kept@.len() ==> #[trigger] kept@[j] < n,
            new_vars@.len() == k,
            widths@.len() == k,
            signs@.len() == k,
            forall|j: int| 0 <= j < k ==> #[trigger] new_vars@[j] == vars@[kept@[j] as int],
            forall|j: int|
                0 <= j < k ==> #[trigger] widths@[j] == lower::width_at(
                    bit_widths@,
                    all[j] as int,
                ),
            forall|j: int|
                0 <= j < k ==> #[trigger] signs@[j] == lower::signed_at(signed@, all[j] as int),
    {
        new_vars.push(vars[kept[k]]);
        widths.push(bits_of(bit_widths, kept[k]));
        signs.push(sign_of(signed, kept[k]));
    }
    let mut params: Vec<BiiVar> = Vec::new();
    for k in 0..others.len()
        invariant
            n == vars@.len(),
            all == order(init@, body@, n as nat),
            kept@ == chosen(init@, body@, true, n as nat),
            others@ == chosen(init@, body@, false, n as nat),
            forall|j: int| 0 <= j < others@.len() ==> #[trigger] others@[j] < n,
            params@.len() == k,
            widths@.len() == kept@.len() + k,
            signs@.len() == kept@.len() + k,
            forall|j: int|
                0 <= j < k ==> #[trigger] params@[j] == lower::variable(
                    vars@,
                    bit_widths@,
                    signed@,
                    others@[j] as int,
                ),
            forall|j: int|
                0 <= j < widths@.len() ==> #[trigger] widths@[j] == lower::width_at(
                    bit_widths@,
                    all[j] as int,
                ),
            forall|j: int|
                0 <= j < signs@.len() ==> #[trigger] signs@[j] == lower::signed_at(
                    signed@,
                    all[j] as int,
                ),
    {
        let i: usize = others[k];
        let bw: u8 = bits_of(bit_widths, i);
        let sign = sign_of(signed, i);
        params.push(BiiVar { symbol: vars[i], bw, signed: sign });
        widths.push(bw);
        signs.push(sign);
    }
    let out = SeparatedLoop {
        vars: new_vars,
        init: new_init,
        body: new_body,
        bit_widths: widths,
        signed: signs,
        params,
    };
    proof {
        assert(out.vars@ =~= Seq::new(kept@.len(), |k: int| vars@[kept@[k] as int]));
        assert(out.params@ =~= Seq::new(
            others@.len(),
            |k: int| lower::variable(vars@, bit_widths@, signed@, others@[k] as int),
        ));
        assert(out.bit_widths@ =~= Seq::new(
            n as nat,
            |k: int| lower::width_at(bit_widths@, all[k] as int),
        ));
        assert(out.signed@ =~= Seq::new(
            n as nat,
            |k: int| lower::signed_at(signed@, all[k] as int),
        ));
    }
    Some(out)
}

/// What is chosen is as it should be.
proof fn lemma_chosen_are(init: Seq<LoopInstr>, body: Seq<LoopInstr>, want: bool, n: nat)
    requires
        n <= usize::MAX,
    ensures
        forall|k: int|
            0 <= k < chosen(init, body, want, n).len() ==> carried(
                init,
                body,
                #[trigger] chosen(init, body, want, n)[k] as int,
            ) == want,
    decreases n,
{
    if n > 0 {
        lemma_chosen_are(init, body, want, (n - 1) as nat);
        let before = chosen(init, body, want, (n - 1) as nat);
        let now = chosen(init, body, want, n);
        assert forall|k: int| 0 <= k < now.len() implies carried(
            init,
            body,
            #[trigger] now[k] as int,
        ) == want by {
            if k < before.len() {
                assert(now[k] == before[k]);
            } else {
                assert(now[k] == (n - 1) as usize);
            }
        }
    }
}

/// The new places are a rearrangement: the variable at the new place of `i`
/// is `i`, so no two variables share a place.
pub proof fn law_places_rearrange(init: Seq<LoopInstr>, body: Seq<LoopInstr>, n: nat, i: nat)
    requires
        i < n,
        n <= usize::MAX,
    ensures
        place(init, body, n, i) < n,
        order(init, body, n).len() == n,
        order(init, body, n)[place(init, body, n, i) as int] == i,
{
    lemma_chosen(init, body, n);
    lemma_chosen_prefix(init, body, carried(init, body, i as int), i, n);
}

/// The variables of the loop keep their order, and so do the others.
pub proof fn law_order_is_kept(
    init: Seq<LoopInstr>,
    body: Seq<LoopInstr>,
    n: nat,
    i: nat,
    j: nat,
)
    requires
        i < j < n,
        n <= usize::MAX,
        carried(init, body, i as int) == carried(init, body, j as int),
    ensures
        place(init, body, n, i) < place(init, body, n, j),
{
    lemma_chosen_prefix(init, body, carried(init, body, i as int), i, j);
}

} // verus!
