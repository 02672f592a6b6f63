//! What every step of name resolution keeps.
use super::diag::Diagnostic;
use super::state::State;
use super::table;
use super::table::{FunctionBinding, Scope, SymbolTable};
use crate::ast::Stmt;
use crate::list::List;
use crate::symbol::Symbol;
use crate::types::Types;
use std::rc::Rc;
use vstd::prelude::*;

verus! {

/// Nothing that was reported is gone: the older list is the tail of the
/// newer one.
pub open spec fn adds_to(old_list: List<Diagnostic>, new_list: List<Diagnostic>) -> bool {
    &&& old_list@.len() <= new_list@.len()
    &&& new_list@.skip(new_list@.len() - old_list@.len()) == old_list@
}

/// The outermost scope has a function of this name.
pub open spec fn knows_function(scopes: List<Scope>, name: Symbol) -> bool {
    table::entry(table::root_scope(scopes).functions, name) is Some
}

/// The functions of the outermost scope stay.
pub open spec fn functions_stay(a: List<Scope>, b: List<Scope>) -> bool {
    forall|name: Symbol| #[trigger] knows_function(a, name) ==> knows_function(b, name)
}

/// The second state comes from the first by resolving: there are as many
/// scopes as before, the functions of the outermost one stay, no definition is
/// taken twice, no diagnostic and no type is lost, and a `main` function stays
/// found.
#[verifier::opaque]
pub open spec fn grows(a: State, b: State) -> bool {
    &&& a.symbols.scopes@.len() > 0 ==> a.symbols.scopes@.len() == b.symbols.scopes@.len()
    &&& functions_stay(a.symbols.scopes, b.symbols.scopes)
    &&& a.symbols.next_def <= b.symbols.next_def
    &&& adds_to(a.diagnostics, b.diagnostics)
    &&& a.ctx.types.is_prefix_of(b.ctx.types)
    &&& a.has_main ==> b.has_main
    &&& a.modules == b.modules
    &&& a.local_crate_id == b.local_crate_id
}

pub broadcast proof fn lemma_grows_same(a: State)
    ensures
        #[trigger] grows(a, a),
{
    reveal(grows);
    assert(a.diagnostics@.skip(0) =~= a.diagnostics@);
}

pub broadcast proof fn lemma_grows_transitive(a: State, b: State, c: State)
    requires
        #[trigger] grows(a, b),
        #[trigger] grows(b, c),
    ensures
        grows(a, c),
{
    reveal(grows);
    let (x, y, z) = (a.diagnostics@, b.diagnostics@, c.diagnostics@);
    assert(z.skip(z.len() - x.len()) =~= z.skip(z.len() - y.len()).skip(y.len() - x.len()));
    assert forall|i: int| 0 <= i < a.ctx.types.len() implies a.ctx.types[i] == c.ctx.types[i] by {
        assert(a.ctx.types[i] == b.ctx.types[i]);
    }
    assert(a.ctx.types.is_prefix_of(c.ctx.types));
}

/// A scope that is entered and left again leaves no trace.
pub broadcast proof fn lemma_grows_scope(s: State, t: State)
    requires
        #[trigger] grows(s.enter(), t),
    ensures
        grows(s, #[trigger] t.exit()),
{
    reveal(grows);
    let scopes = t.symbols.scopes;
    assert(s.enter().symbols.scopes@.len() == s.symbols.scopes@.len() + 1);
    assert(scopes is Cons);
    assert(scopes@.len() == scopes.rest()@.len() + 1);
    if t.symbols.outer() is Nil {
        assert(t.symbols.outer()@.len() == 0);
    }
    assert forall|name: Symbol| #[trigger] knows_function(s.symbols.scopes, name) implies knows_function(
        t.exit().symbols.scopes,
        name,
    ) by {
        assert(knows_function(s.enter().symbols.scopes, name) || s.symbols.scopes is Nil);
    }
}

/// A step that touches none of what grows.
pub proof fn lemma_aside(a: State, b: State)
    requires
        b.symbols == a.symbols,
        b.ctx == a.ctx,
        b.diagnostics == a.diagnostics,
        b.has_main == a.has_main || b.has_main,
        b.modules == a.modules,
        b.local_crate_id == a.local_crate_id,
    ensures
        grows(a, b),
{
    reveal(grows);
    assert(a.diagnostics@.skip(0) =~= a.diagnostics@);
}

/// A step to another context that has the same types and more.
pub proof fn lemma_types_grow(a: State, ctx: Types)
    requires
        a.ctx.types.is_prefix_of(ctx.types),
    ensures
        grows(a, State { ctx, ..a }),
{
    reveal(grows);
    assert(a.diagnostics@.skip(0) =~= a.diagnostics@);
}

/// A step to another symbol table.
pub proof fn lemma_table_grows(a: State, symbols: SymbolTable)
    requires
        a.symbols.next_def <= symbols.next_def,
        functions_stay(a.symbols.scopes, symbols.scopes),
        symbols.scopes == a.symbols.scopes || (exists|s: Scope|
            symbols.scopes == #[trigger] a.symbols.outer().cons(s)) || symbols.scopes@.len()
            == a.symbols.scopes@.len() || a.symbols.scopes@.len() == 0,
    ensures
        grows(a, State { symbols, ..a }),
{
    reveal(grows);
    assert(a.diagnostics@.skip(0) =~= a.diagnostics@);
    if a.symbols.scopes is Cons {
        assert(a.symbols.scopes@.len() == a.symbols.outer()@.len() + 1);
        if exists|s: Scope| symbols.scopes == #[trigger] a.symbols.outer().cons(s) {
            let s = choose|s: Scope| symbols.scopes == #[trigger] a.symbols.outer().cons(s);
            assert(a.symbols.outer().cons(s)@.len() == a.symbols.outer()@.len() + 1);
        }
    }
}

/// One more diagnostic.
pub proof fn lemma_one_more(a: State, d: Diagnostic)
    ensures
        grows(a, State { diagnostics: a.diagnostics.cons(d), ..a }),
{
    reveal(grows);
    assert(a.diagnostics.cons(d)@.skip(1) =~= a.diagnostics@);
}

/// The diagnostics of an earlier state put back.
pub proof fn lemma_restored(a: State, b: State)
    requires
        grows(a, b),
    ensures
        grows(a, State { diagnostics: a.diagnostics, ..b }),
{
    reveal(grows);
    assert(a.diagnostics@.skip(0) =~= a.diagnostics@);
}

/// A function that goes to the root keeps the number of scopes and the other
/// functions there.
pub proof fn lemma_root_scopes(scopes: List<Scope>, name: Symbol, b: Rc<FunctionBinding>)
    ensures
        scopes@.len() > 0 ==> table::with_root_function(scopes, name, b)@.len()
            == scopes@.len(),
        functions_stay(scopes, table::with_root_function(scopes, name, b)),
        knows_function(table::with_root_function(scopes, name, b), name),
    decreases scopes,
{
    let after = table::with_root_function(scopes, name, b);
    if scopes is Cons {
        if scopes.rest() is Cons {
            lemma_root_scopes(scopes.rest(), name, b);
            assert(table::with_root_function(scopes.rest(), name, b) is Cons);
            assert forall|n: Symbol| #[trigger] knows_function(scopes, n) implies knows_function(
                after,
                n,
            ) by {
                assert(knows_function(scopes.rest(), n));
            }
            assert(knows_function(table::with_root_function(scopes.rest(), name, b), name));
        } else {
            assert(table::root_scope(after).functions == scopes.first().functions.cons((name, b)));
        }
    } else {
        assert(table::root_scope(after).functions == List::Nil.cons((name, b)));
    }
}

/// A change of the innermost scope that keeps its functions.
pub proof fn lemma_top_stays(t: SymbolTable, s: Scope)
    requires
        forall|name: Symbol|
            table::entry(t.top().functions, name) is Some ==> #[trigger] table::entry(
                s.functions,
                name,
            ) is Some,
    ensures
        functions_stay(t.scopes, t.with_top(s).scopes),
{
}

/// A function of the outermost scope is found from every scope.
pub proof fn lemma_known_is_found(scopes: List<Scope>, name: Symbol)
    requires
        knows_function(scopes, name),
    ensures
        table::function_in(scopes, name) is Some,
    decreases scopes,
{
    if scopes is Cons && scopes.rest() is Cons {
        assert(knows_function(scopes.rest(), name));
        lemma_known_is_found(scopes.rest(), name);
    }
}

/// The functions of a list of items are known.
pub open spec fn functions_known(list: List<Stmt>, scopes: List<Scope>) -> bool
    decreases list,
{
    match list {
        List::Nil => true,
        List::Cons(link) => {
            &&& match link.head {
                Stmt::FunctionDef { name, .. } => knows_function(scopes, name),
                _ => true,
            }
            &&& functions_known(link.tail, scopes)
        },
    }
}

/// Functions that are known stay so.
pub proof fn lemma_functions_known(list: List<Stmt>, a: List<Scope>, b: List<Scope>)
    requires
        functions_known(list, a),
        functions_stay(a, b),
    ensures
        functions_known(list, b),
    decreases list,
{
    if list is Cons {
        lemma_functions_known(list.rest(), a, b);
    }
}

} // verus!
