//! What calls and signatures add to the facts.
use super::calls;
use super::extraction;
use super::facts::PoloniusFacts;
use super::input::{Block, CalleeEntry};
use super::outputs;
use super::signature::BorrowSignature;
use crate::gather;
use crate::hir::{HirExpr, HirStmt};
use crate::symbol::Symbol;
use vstd::prelude::*;

verus! {

// ---------------------------------------------------------------------------
// Which calls there are
// ---------------------------------------------------------------------------

/// The second expression is an argument, an element, the value of a field or an operand of
/// the first.
pub open spec fn is_operand(e: HirExpr, c: HirExpr) -> bool {
    match e {
        HirExpr::Call { callee, args } => args@.contains(c),
        HirExpr::Tuple(elems) => elems@.contains(c),
        HirExpr::Array(elems) => elems@.contains(c),
        HirExpr::StructLit { fields } => exists|k: int|
            0 <= k < fields@.len() && (#[trigger] fields@[k]).1 == c,
        HirExpr::BinaryOp { left, right } => c == *left || c == *right,
        HirExpr::Index { base, index } => c == *base || c == *index,
        HirExpr::Move(inner) => c == *inner,
        HirExpr::UnaryOp { op, expr } => c == *expr,
        _ => false,
    }
}

/// The second expression is the first, or an operand of it at most `depth` deep.
pub open spec fn is_within(e: HirExpr, c: HirExpr, depth: nat) -> bool
    decreases depth,
{
    ||| e == c
    ||| depth > 0 && exists|m: HirExpr| #[trigger]
        is_operand(e, m) && is_within(m, c, (depth - 1) as nat)
}

/// The expression calls the function of this name.
pub open spec fn is_call(e: HirExpr, name: Symbol) -> bool {
    match e {
        HirExpr::Call { callee, args } => *callee == HirExpr::Ident(name),
        _ => false,
    }
}

/// Of the entries of functions, not methods, with this name, entry `k` is the first.
pub open spec fn is_entry(registry: Seq<CalleeEntry>, name: Symbol, k: int) -> bool {
    &&& 0 <= k < registry.len()
    &&& registry[k].name == name && !registry[k].is_method
    &&& forall|j: int|
        0 <= j < k ==> (#[trigger] registry[j]).name != name || registry[j].is_method
}

proof fn lemma_callee(registry: Seq<CalleeEntry>, name: Symbol, k: int, n: int)
    requires
        is_entry(registry, name, k),
        0 <= n <= registry.len(),
    ensures
        calls::callee(registry, name, n) == (if k < n {
            Some(k)
        } else {
            None
        }),
    decreases n,
{
    if n > 0 {
        lemma_callee(registry, name, k, n - 1);
    }
}

proof fn lemma_calls_at(registry: Seq<CalleeEntry>, s: Seq<HirExpr>, n: int, i: int, k: int)
    requires
        0 <= i < n <= s.len(),
        calls::known_calls(registry, s[i]).contains(k),
    ensures
        calls::known_calls_all(registry, s, n).contains(k),
    decreases n,
{
    gather::lemma_in_both(
        calls::known_calls_all(registry, s, n - 1),
        calls::known_calls(registry, s[n - 1]),
        k,
    );
    if i < n - 1 {
        lemma_calls_at(registry, s, n - 1, i, k);
    }
}

proof fn lemma_field_calls_at(
    registry: Seq<CalleeEntry>,
    s: Seq<(Symbol, HirExpr)>,
    n: int,
    i: int,
    k: int,
)
    requires
        0 <= i < n <= s.len(),
        calls::known_calls(registry, s[i].1).contains(k),
    ensures
        calls::known_calls_fields(registry, s, n).contains(k),
    decreases n,
{
    gather::lemma_in_both(
        calls::known_calls_fields(registry, s, n - 1),
        calls::known_calls(registry, s[n - 1].1),
        k,
    );
    if i < n - 1 {
        lemma_field_calls_at(registry, s, n - 1, i, k);
    }
}

proof fn lemma_operand_calls(registry: Seq<CalleeEntry>, e: HirExpr, c: HirExpr, k: int)
    requires
        is_operand(e, c),
        calls::known_calls(registry, c).contains(k),
    ensures
        calls::known_calls(registry, e).contains(k),
{
    match e {
        HirExpr::Call { callee, args } => {
            let i = choose|i: int| 0 <= i < args@.len() && args@[i] == c;
            let all = calls::known_calls_all(registry, args@, args@.len() as int);
            lemma_calls_at(registry, args@, args@.len() as int, i, k);
            gather::lemma_in_both(calls::called(registry, *callee), all, k);
            assert(calls::known_calls(registry, e) == calls::called(registry, *callee) + all);
        },
        HirExpr::Tuple(elems) => {
            let i = choose|i: int| 0 <= i < elems@.len() && elems@[i] == c;
            lemma_calls_at(registry, elems@, elems@.len() as int, i, k);
        },
        HirExpr::Array(elems) => {
            let i = choose|i: int| 0 <= i < elems@.len() && elems@[i] == c;
            lemma_calls_at(registry, elems@, elems@.len() as int, i, k);
        },
        HirExpr::StructLit { fields } => {
            let i = choose|i: int| 0 <= i < fields@.len() && (#[trigger] fields@[i]).1 == c;
            lemma_field_calls_at(registry, fields@, fields@.len() as int, i, k);
        },
        HirExpr::BinaryOp { left, right } => {
            let a = calls::known_calls(registry, *left);
            let b = calls::known_calls(registry, *right);
            gather::lemma_in_both(a, b, k);
            assert(calls::known_calls(registry, e) == a + b);
        },
        HirExpr::Index { base, index } => {
            let a = calls::known_calls(registry, *base);
            let b = calls::known_calls(registry, *index);
            gather::lemma_in_both(a, b, k);
            assert(calls::known_calls(registry, e) == a + b);
        },
        _ => {},
    }
}

proof fn lemma_within_calls(
    registry: Seq<CalleeEntry>,
    e: HirExpr,
    c: HirExpr,
    depth: nat,
    name: Symbol,
    k: int,
)
    requires
        is_within(e, c, depth),
        is_call(c, name),
        is_entry(registry, name, k),
    ensures
        calls::known_calls(registry, e).contains(k),
    decreases depth,
{
    if e == c {
        if let HirExpr::Call { callee, args } = e {
            lemma_callee(registry, name, k, registry.len() as int);
            let all = calls::known_calls_all(registry, args@, args@.len() as int);
            let one = calls::called(registry, *callee);
            assert(one[0] == k);
            gather::lemma_in_both(one, all, k);
            assert(calls::known_calls(registry, e) == one + all);
        }
    } else {
        let m = choose|m: HirExpr| #[trigger]
            is_operand(e, m) && is_within(m, c, (depth - 1) as nat);
        lemma_within_calls(registry, m, c, (depth - 1) as nat, name, k);
        lemma_operand_calls(registry, e, m, k);
    }
}

/// The expression that a statement of the body evaluates.
pub open spec fn evaluates(stmt: HirStmt, e: HirExpr) -> bool {
    match stmt {
        HirStmt::VariableDef { name, value } => value == Some(e),
        HirStmt::Assign { target, value } => value == e,
        HirStmt::Expression(x) => x == e,
        HirStmt::Return { value, span } => value == Some(e),
        _ => false,
    }
}

/// A call of a function that the registry knows, however deep in the operands of what a
/// statement evaluates, is a call site at the start of the statement.
pub proof fn law_calls_are_found(
    registry: Seq<CalleeEntry>,
    blocks: Seq<Block>,
    b: int,
    s: int,
    e: HirExpr,
    c: HirExpr,
    depth: nat,
    name: Symbol,
    k: int,
)
    requires
        0 <= b < blocks.len(),
        0 <= s < blocks[b].stmts@.len(),
        evaluates(blocks[b].stmts@[s], e),
        is_within(e, c, depth),
        is_call(c, name),
        is_entry(registry, name, k),
    ensures
        calls::call_sites(registry, blocks).contains((k, extraction::at(b, s, 0).code())),
{
    let p = extraction::at(b, s, 0).code();
    let y = (k, p);
    lemma_within_calls(registry, e, c, depth, name, k);
    let stmts = blocks[b].stmts@;
    let found = calls::stmt_calls(registry, stmts[s]);
    assert(found == calls::known_calls(registry, e));
    let g = calls::sites_in_stmt(registry, stmts, b);
    let i = choose|i: int| 0 <= i < found.len() && found[i] == k;
    assert(g(s)[i] == y);
    assert(g(s).contains(y));
    gather::lemma_in_piece(g, stmts.len() as int, y);
    let f = calls::sites_in_block(registry, blocks);
    assert(f(b).contains(y));
    gather::lemma_in_piece(f, blocks.len() as int, y);
}

// ---------------------------------------------------------------------------
// What a call adds
// ---------------------------------------------------------------------------

/// A call issues one loan for each reference parameter of the callee, and what the callee
/// declares is declared of them, all with numbers moved up by `base`: its placeholder
/// origins, the flows between them, and, at the point of the call, the flows out of the
/// references that are handed over.
pub proof fn law_calls_bring_facts(
    facts: PoloniusFacts,
    x: extraction::Extraction,
    registry: Seq<CalleeEntry>,
    sites: Seq<(int, u64)>,
    base: u32,
    j: int,
)
    requires
        facts.holds_calls(x, registry, sites, base, sites.len() as int),
        0 <= j < sites.len(),
        calls::entry_fits(registry[sites[j].0], base as int),
    ensures
        forall|i: u32|
            i < registry[sites[j].0].positions@.len() ==> #[trigger] facts.loan_issued_at@.contains(
                ((base + i) as u32, (base + i) as u32, sites[j].1),
            ),
        forall|o: u32|
            registry[sites[j].0].signature.universal_region@.contains(o)
                ==> #[trigger] facts.universal_region@.contains((o + base) as u32),
        forall|a: u32, o: u32|
            registry[sites[j].0].signature.known_placeholder_subset@.contains((a, o))
                ==> #[trigger] facts.known_placeholder_subset@.contains(
                ((a + base) as u32, (o + base) as u32),
            ),
        forall|a: u32, o: u32|
            a < registry[sites[j].0].positions@.len()
                && registry[sites[j].0].signature.known_placeholder_subset@.contains((a, o))
                ==> #[trigger] facts.subset_base@.contains(
                ((a + base) as u32, (o + base) as u32, sites[j].1),
            ),
{
    let n = sites.len() as int;
    let entry = registry[sites[j].0];
    let p = sites[j].1;
    assert forall|i: u32|
        i < entry.positions@.len() implies #[trigger] facts.loan_issued_at@.contains(
        ((base + i) as u32, (base + i) as u32, p),
    ) by {
        let y = ((base + i) as u32, (base + i) as u32, p);
        let f = calls::site_loans(registry, sites, base);
        assert(f(j)[i as int] == y);
        assert(f(j).contains(y));
        gather::lemma_in_piece(f, n, y);
        gather::lemma_in_both(x.loans.issued, gather::concat(f, n), y);
    }
    assert forall|o: u32|
        entry.signature.universal_region@.contains(
            o,
        ) implies #[trigger] facts.universal_region@.contains((o + base) as u32) by {
        let y = (o + base) as u32;
        let f = calls::site_regions(registry, sites, base);
        let all = entry.signature.universal_region@;
        let i = choose|i: int| 0 <= i < all.len() && all[i] == o;
        assert(f(j)[i] == y);
        assert(f(j).contains(y));
        gather::lemma_in_piece(f, n, y);
    }
    let flows = entry.signature.known_placeholder_subset@;
    assert forall|a: u32, o: u32|
        flows.contains((a, o)) implies #[trigger] facts.known_placeholder_subset@.contains(
        ((a + base) as u32, (o + base) as u32),
    ) by {
        let y = ((a + base) as u32, (o + base) as u32);
        let f = calls::site_known(registry, sites, base);
        let i = choose|i: int| 0 <= i < flows.len() && flows[i] == (a, o);
        assert(f(j)[i] == y);
        assert(f(j).contains(y));
        gather::lemma_in_piece(f, n, y);
    }
    assert forall|a: u32, o: u32|
        a < entry.positions@.len() && flows.contains(
            (a, o),
        ) implies #[trigger] facts.subset_base@.contains(
        ((a + base) as u32, (o + base) as u32, p),
    ) by {
        let y = ((a + base) as u32, (o + base) as u32, p);
        let f = calls::site_flows(registry, sites, base);
        let g = calls::flows_of_input(flows, p, base);
        let h = calls::input_flows(flows, a as int, p, base);
        let i = choose|i: int| 0 <= i < flows.len() && flows[i] == (a, o);
        assert(h(i)[0] == y);
        assert(h(i).contains(y));
        gather::lemma_in_piece(h, flows.len() as int, y);
        assert(g(a as int).contains(y));
        gather::lemma_in_piece(g, entry.positions@.len() as int, y);
        assert(f(j).contains(y));
        gather::lemma_in_piece(f, n, y);
    }
}

/// A call adds nothing else: each flow at a point is one that the callee of a call there
/// declares, out of a reference that is handed over, and each origin and declared flow that
/// is added is one of a callee.
pub proof fn law_call_facts_have_causes(
    facts: PoloniusFacts,
    x: extraction::Extraction,
    registry: Seq<CalleeEntry>,
    sites: Seq<(int, u64)>,
    base: u32,
)
    requires
        facts.holds_calls(x, registry, sites, base, sites.len() as int),
        forall|j: int|
            0 <= j < sites.len() ==> calls::entry_fits(
                registry[(#[trigger] sites[j]).0],
                base as int,
            ),
    ensures
        forall|a: u32, o: u32, p: u64| #[trigger]
            facts.subset_base@.contains((a, o, p)) ==> a >= base && o >= base && exists|j: int|
                0 <= j < sites.len() && (#[trigger] sites[j]).1 == p && a - base
                    < registry[sites[j].0].positions@.len()
                    && registry[sites[j].0].signature.known_placeholder_subset@.contains(
                    ((a - base) as u32, (o - base) as u32),
                ),
        forall|o: u32| #[trigger]
            facts.universal_region@.contains(o) ==> o >= base && exists|j: int|
                0 <= j < sites.len() && registry[(
                #[trigger] sites[j]).0].signature.universal_region@.contains((o - base) as u32),
        forall|a: u32, o: u32| #[trigger]
            facts.known_placeholder_subset@.contains((a, o)) ==> a >= base && o >= base
                && exists|j: int|
                0 <= j < sites.len() && registry[(
                #[trigger] sites[j]).0].signature.known_placeholder_subset@.contains(
                    ((a - base) as u32, (o - base) as u32),
                ),
{
    let n = sites.len() as int;
    assert forall|a: u32, o: u32, p: u64| #[trigger]
        facts.subset_base@.contains((a, o, p)) implies a >= base && o >= base && exists|j: int|
        0 <= j < sites.len() && (#[trigger] sites[j]).1 == p && a - base
            < registry[sites[j].0].positions@.len()
            && registry[sites[j].0].signature.known_placeholder_subset@.contains(
            ((a - base) as u32, (o - base) as u32),
        ) by {
        let y = (a, o, p);
        let f = calls::site_flows(registry, sites, base);
        gather::lemma_in_piece(f, n, y);
        let j = choose|j: int| 0 <= j < n && (#[trigger] f(j)).contains(y);
        let entry = registry[sites[j].0];
        let flows = entry.signature.known_placeholder_subset@;
        let g = calls::flows_of_input(flows, sites[j].1, base);
        gather::lemma_in_piece(g, entry.positions@.len() as int, y);
        let i = choose|i: int| 0 <= i < entry.positions@.len() && (#[trigger] g(i)).contains(y);
        let h = calls::input_flows(flows, i, sites[j].1, base);
        gather::lemma_in_piece(h, flows.len() as int, y);
        let m = choose|m: int| 0 <= m < flows.len() && (#[trigger] h(m)).contains(y);
        assert(calls::entry_fits(registry[sites[j].0], base as int));
        assert(flows[m].0 == i);
        assert(flows[m] == ((a - base) as u32, (o - base) as u32));
        assert(sites[j].1 == p);
    }
    assert forall|o: u32| #[trigger] facts.universal_region@.contains(o) implies o >= base
        && exists|j: int|
        0 <= j < sites.len() && registry[(
        #[trigger] sites[j]).0].signature.universal_region@.contains((o - base) as u32) by {
        let f = calls::site_regions(registry, sites, base);
        gather::lemma_in_piece(f, n, o);
        let j = choose|j: int| 0 <= j < n && (#[trigger] f(j)).contains(o);
        let entry = registry[sites[j].0];
        let all = entry.signature.universal_region@;
        let moved = f(j);
        let i = choose|i: int| 0 <= i < moved.len() && moved[i] == o;
        assert(calls::entry_fits(registry[sites[j].0], base as int));
        assert(all[i] + base <= u32::MAX);
        assert(all[i] == (o - base) as u32);
    }
    assert forall|a: u32, o: u32| #[trigger]
        facts.known_placeholder_subset@.contains((a, o)) implies a >= base && o >= base && exists|
        j: int,
    |
        0 <= j < sites.len() && registry[(
        #[trigger] sites[j]).0].signature.known_placeholder_subset@.contains(
            ((a - base) as u32, (o - base) as u32),
        ) by {
        let f = calls::site_known(registry, sites, base);
        gather::lemma_in_piece(f, n, (a, o));
        let j = choose|j: int| 0 <= j < n && (#[trigger] f(j)).contains((a, o));
        let entry = registry[sites[j].0];
        let all = entry.signature.known_placeholder_subset@;
        let moved = f(j);
        let i = choose|i: int| 0 <= i < moved.len() && moved[i] == (a, o);
        assert(calls::entry_fits(registry[sites[j].0], base as int));
        assert(all[i].0 + base <= u32::MAX);
        assert(all[i] == ((a - base) as u32, (o - base) as u32));
    }
}

// ---------------------------------------------------------------------------
// Signatures
// ---------------------------------------------------------------------------

/// Each reference that is returned has an origin of its own, and the declared flows are
/// those from the inputs that an output can derive from to all of the outputs.
pub proof fn law_signatures_declare_flows(sig: BorrowSignature, deriving: Seq<usize>, a: u32, b: u32)
    requires
        sig.input_borrows@.len() + sig.output_borrows@.len() <= u32::MAX,
    ensures
        gather::concat(sig.flows(deriving), sig.inputs()).contains((a, b)) <==> exists|
            i: usize,
            k: int,
        |
            i < sig.input_borrows@.len() && 0 <= k < sig.output_borrows@.len()
                && #[trigger] deriving.contains(i) && a == sig.regions()[i as int] && b
                == #[trigger] sig.regions()[sig.input_borrows@.len() + k],
        sig.regions().len() == sig.input_borrows@.len() + sig.output_borrows@.len(),
        forall|j: int, k: int|
            0 <= j < k < sig.regions().len() && k >= sig.input_borrows@.len()
                ==> #[trigger] sig.regions()[j] != #[trigger] sig.regions()[k],
{
    let n = sig.input_borrows@.len() as int;
    let f = sig.flows(deriving);
    gather::lemma_in_piece(f, n, (a, b));
    lemma_origins(sig, n);
    if exists|i: int| 0 <= i < n && (#[trigger] f(i)).contains((a, b)) {
        let i = choose|i: int| 0 <= i < n && (#[trigger] f(i)).contains((a, b));
        let list = f(i);
        let k = choose|k: int| 0 <= k < list.len() && list[k] == (a, b);
        assert(deriving.contains(i as usize));
        assert(sig.regions()[n + k] == b);
    }
    if exists|i: usize, k: int|
        i < n && 0 <= k < sig.output_borrows@.len() && #[trigger] deriving.contains(i) && a
            == sig.regions()[i as int] && b == #[trigger] sig.regions()[n + k] {
        let (i, k) = choose|i: usize, k: int|
            i < n && 0 <= k < sig.output_borrows@.len() && #[trigger] deriving.contains(i) && a
                == sig.regions()[i as int] && b == #[trigger] sig.regions()[n + k];
        assert(f(i as int)[k] == (a, b));
        assert(f(i as int).contains((a, b)));
    }
    assert forall|j: int, k: int|
        0 <= j < k < sig.regions().len() && k >= n implies #[trigger] sig.regions()[j]
        != #[trigger] sig.regions()[k] by {
        if j < n {
            lemma_origin_below(sig, j, n);
        }
    }
}

proof fn lemma_origins(sig: BorrowSignature, n: int)
    requires
        0 <= n,
    ensures
        0 <= sig.origins(n) <= n,
    decreases n,
{
    if n > 0 {
        lemma_origins(sig, n - 1);
    }
}

proof fn lemma_origins_rise(sig: BorrowSignature, a: int, b: int)
    requires
        0 <= a <= b,
    ensures
        sig.origins(a) <= sig.origins(b),
    decreases b - a,
{
    if a < b {
        lemma_origins_rise(sig, a, b - 1);
    }
}

proof fn lemma_first_twin(sig: BorrowSignature, i: int, n: int)
    requires
        0 <= n,
        sig.earlier_twin(i, n) is Some,
    ensures
        0 <= sig.earlier_twin(i, n)->0 < n,
        sig.lifetime(i) is Some,
        sig.lifetime(sig.earlier_twin(i, n)->0) == sig.lifetime(i),
        forall|j: int|
            0 <= j < sig.earlier_twin(i, n)->0 ==> #[trigger] sig.lifetime(j) != sig.lifetime(i),
    decreases n,
{
    if n > 0 {
        if sig.earlier_twin(i, n - 1) is Some {
            lemma_first_twin(sig, i, n - 1);
        } else {
            lemma_without_twin(sig, i, n - 1);
        }
    }
}

proof fn lemma_without_twin(sig: BorrowSignature, i: int, n: int)
    requires
        sig.earlier_twin(i, n) is None,
    ensures
        sig.lifetime(i) is Some ==> forall|j: int|
            0 <= j < n ==> #[trigger] sig.lifetime(j) != sig.lifetime(i),
    decreases n,
{
    if n > 0 {
        lemma_without_twin(sig, i, n - 1);
    }
}

proof fn lemma_origin_below(sig: BorrowSignature, i: int, n: int)
    requires
        0 <= i < n,
    ensures
        0 <= sig.origin(i) < sig.origins(n),
{
    if sig.earlier_twin(i, i) is Some {
        lemma_first_twin(sig, i, i);
        let k = sig.earlier_twin(i, i)->0;
        lemma_origins(sig, k);
        assert(sig.earlier_twin(k, k) is None) by {
            if sig.earlier_twin(k, k) is Some {
                lemma_first_twin(sig, k, k);
                let m = sig.earlier_twin(k, k)->0;
                assert(sig.lifetime(m) == sig.lifetime(i));
            }
        }
        assert(sig.origins(k + 1) == sig.origins(k) + 1);
        lemma_origins_rise(sig, k + 1, n);
    } else {
        lemma_origins(sig, i);
        assert(sig.origins(i + 1) == sig.origins(i) + 1);
        lemma_origins_rise(sig, i + 1, n);
    }
}

proof fn lemma_as_many(params: Seq<(Symbol, bool, bool, Option<Symbol>)>, n: int)
    requires
        0 <= n <= params.len(),
    ensures
        outputs::reference_params(params, n).len() == outputs::reference_lifetimes(
            params,
            n,
        ).len(),
    decreases n,
{
    if n > 0 {
        lemma_as_many(params, n - 1);
    }
}

/// Each parameter that is a reference is an input of the signature, with its mutability and
/// its lifetime.
pub proof fn law_references_are_inputs(
    params: Seq<(Symbol, bool, bool, Option<Symbol>)>,
    n: int,
    k: int,
) -> (j: int)
    requires
        0 <= k < n <= params.len(),
        params[k].1,
    ensures
        0 <= j < outputs::reference_params(params, n).len(),
        outputs::reference_params(params, n)[j] == (params[k].0, params[k].2),
        outputs::reference_lifetimes(params, n)[j] == params[k].3,
    decreases n,
{
    lemma_as_many(params, n - 1);
    if k < n - 1 {
        law_references_are_inputs(params, n - 1, k)
    } else {
        outputs::reference_params(params, n - 1).len() as int
    }
}

/// No other parameter is an input of the signature, and the inputs are in the order of the
/// parameters.
pub proof fn law_inputs_are_references(
    params: Seq<(Symbol, bool, bool, Option<Symbol>)>,
    n: int,
    j: int,
) -> (k: int)
    requires
        0 <= n <= params.len(),
        0 <= j < outputs::reference_params(params, n).len(),
    ensures
        j <= k < n,
        params[k].1,
        outputs::reference_params(params, n)[j] == (params[k].0, params[k].2),
        outputs::reference_lifetimes(params, n)[j] == params[k].3,
    decreases n,
{
    lemma_as_many(params, n - 1);
    lemma_no_more(params, n - 1);
    if j < outputs::reference_params(params, n - 1).len() {
        law_inputs_are_references(params, n - 1, j)
    } else {
        n - 1
    }
}

proof fn lemma_no_more(params: Seq<(Symbol, bool, bool, Option<Symbol>)>, n: int)
    ensures
        n >= 0 ==> outputs::reference_params(params, n).len() <= n,
    decreases n,
{
    if n > 0 {
        lemma_no_more(params, n - 1);
    }
}

} // verus!
