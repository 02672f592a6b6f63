//! Items that a program may name without defining them.
use super::table::{SymbolTable, TraitBinding, TypeBinding};
use crate::symbol::Symbol;
use crate::types::DefId;
use std::rc::Rc;
use vstd::prelude::*;

verus! {

/// A built-in item, such as the type of results or the trait of what is dropped.
#[derive(Debug)]
pub enum Builtin {
    Type(Symbol, TypeBinding),
    Trait(Symbol, TraitBinding),
}

impl Builtin {
    /// The table with the item, which takes the next definition. A name that the
    /// table has already stays what it is.
    pub open spec fn added_to(self, t: SymbolTable) -> SymbolTable {
        let (s, d) = t.with_def();
        match self {
            Builtin::Type(name, b) => s.with_type(
                name,
                Rc::new(TypeBinding { def_id: d, ..b }),
                b.span,
            ).0,
            Builtin::Trait(name, b) => s.with_trait(
                name,
                Rc::new(TraitBinding { def_id: d, ..b }),
                b.span,
            ).0,
        }
    }
}

/// The table with some built-in items, in order.
pub open spec fn with_builtins(t: SymbolTable, items: Seq<Builtin>) -> SymbolTable
    decreases items.len(),
{
    if items.len() == 0 {
        t
    } else {
        with_builtins(items[0].added_to(t), items.skip(1))
    }
}

/// Adds a built-in item to a table.
fn add_builtin(t: &mut SymbolTable, item: Builtin)
    ensures
        *final(t) == item.added_to(*old(t)),
{
    let d: DefId = t.allocate_def_id();
    match item {
        Builtin::Type(name, b) => {
            let mut b = b;
            b.def_id = d;
            let span = b.span;
            let _ = t.insert_type(name, Rc::new(b), span);
        },
        Builtin::Trait(name, b) => {
            let mut b = b;
            b.def_id = d;
            let span = b.span;
            let _ = t.insert_trait(name, Rc::new(b), span);
        },
    }
}

/// Adds built-in items to a table.
pub fn register_builtins(t: &mut SymbolTable, items: Vec<Builtin>)
    ensures
        *final(t) == with_builtins(*old(t), items@),
{
    let mut items = items;
    let ghost all = items@;
    let ghost start = *t;
    let mut rest: Vec<Builtin> = Vec::new();
    while items.len() > 0
        invariant
            rest@ + items@.reverse() == all.reverse(),
        decreases items.len(),
    {
        let ghost before = items@;
        if let Some(item) = items.pop() {
            proof {
                assert(before.reverse() =~= seq![item] + items@.reverse());
                assert(rest@ + before.reverse() =~= rest@.push(item) + items@.reverse());
            }
            rest.push(item);
        }
    }
    assert(rest@ =~= all.reverse()) by {
        assert(items@.reverse() =~= Seq::<Builtin>::empty());
    }
    assert(rest@.reverse() =~= all);
    while rest.len() > 0
        invariant
            with_builtins(*t, rest@.reverse()) == with_builtins(start, all),
        decreases rest.len(),
    {
        let ghost before = rest@;
        if let Some(item) = rest.pop() {
            proof {
                assert(before.reverse()[0] == item);
                assert(before.reverse().skip(1) =~= rest@.reverse());
            }
            add_builtin(t, item);
        }
    }
}

} // verus!
