//! What the symbol table finds.
use super::diag::{DiagKind, Diagnostic};
use super::table;
use super::table::{
    ConstraintBinding, FunctionBinding, Scope, SymbolTable, TraitBinding, TypeBinding,
};
use crate::list::List;
use crate::symbol::{Span, Symbol};
use crate::types::DefId;
use std::rc::Rc;
use vstd::prelude::*;

verus! {

/// The item at `i` is the first with this name.
pub open spec fn is_first<V>(s: Seq<(Symbol, V)>, name: Symbol, i: int) -> bool {
    &&& 0 <= i < s.len() && s[i].0 == name
    &&& forall|j: int| 0 <= j < i ==> (#[trigger] s[j]).0 != name
}

/// A name stands for what the first entry with that name says; where no entry has the name,
/// for nothing.
pub proof fn law_first_entry_counts<V>(list: List<(Symbol, V)>, name: Symbol)
    ensures
        forall|i: int| #[trigger]
            is_first(list@, name, i) ==> table::entry(list, name) == Some(list@[i].1),
        table::entry(list, name) is None <==> forall|j: int|
            0 <= j < list@.len() ==> (#[trigger] list@[j]).0 != name,
    decreases list,
{
    if list is Cons {
        let rest = list.rest();
        law_first_entry_counts(rest, name);
        assert(list@ == seq![list.first()] + rest@);
        assert(list@[0] == list.first());
        assert forall|i: int| #[trigger] is_first(list@, name, i) implies table::entry(list, name)
            == Some(list@[i].1) by {
            if i > 0 {
                assert(list@[0].0 != name);
                assert forall|j: int| 0 <= j < i - 1 implies (#[trigger] rest@[j]).0 != name by {
                    assert(rest@[j] == list@[j + 1]);
                }
                assert(rest@[i - 1] == list@[i]);
                assert(is_first(rest@, name, i - 1));
            }
        }
        if table::entry(list, name) is None {
            assert forall|j: int| 0 <= j < list@.len() implies (#[trigger] list@[j]).0 != name by {
                if j > 0 {
                    assert(list@[j] == rest@[j - 1]);
                }
            }
        }
        if forall|j: int| 0 <= j < list@.len() ==> (#[trigger] list@[j]).0 != name {
            assert forall|j: int| 0 <= j < rest@.len() implies (#[trigger] rest@[j]).0 != name by {
                assert(rest@[j] == list@[j + 1]);
            }
        }
    }
}

/// The entry at `i` is the first of this definition.
pub open spec fn is_first_of<V>(s: Seq<(DefId, V)>, d: DefId, i: int) -> bool {
    &&& 0 <= i < s.len() && s[i].0 == d
    &&& forall|j: int| 0 <= j < i ==> (#[trigger] s[j]).0 != d
}

/// A definition is what its first entry says; where it has none, nothing.
pub proof fn law_first_definition_counts<V>(list: List<(DefId, V)>, d: DefId)
    ensures
        forall|i: int| #[trigger]
            is_first_of(list@, d, i) ==> table::def_entry(list, d) == Some(list@[i].1),
        table::def_entry(list, d) is None <==> forall|j: int|
            0 <= j < list@.len() ==> (#[trigger] list@[j]).0 != d,
    decreases list,
{
    if list is Cons {
        let rest = list.rest();
        law_first_definition_counts(rest, d);
        assert(list@ == seq![list.first()] + rest@);
        assert(list@[0] == list.first());
        assert forall|i: int| #[trigger] is_first_of(list@, d, i) implies table::def_entry(list, d)
            == Some(list@[i].1) by {
            if i > 0 {
                assert(list@[0].0 != d);
                assert forall|j: int| 0 <= j < i - 1 implies (#[trigger] rest@[j]).0 != d by {
                    assert(rest@[j] == list@[j + 1]);
                }
                assert(rest@[i - 1] == list@[i]);
                assert(is_first_of(rest@, d, i - 1));
            }
        }
        if table::def_entry(list, d) is None {
            assert forall|j: int| 0 <= j < list@.len() implies (#[trigger] list@[j]).0 != d by {
                if j > 0 {
                    assert(list@[j] == rest@[j - 1]);
                }
            }
        }
        if forall|j: int| 0 <= j < list@.len() ==> (#[trigger] list@[j]).0 != d {
            assert forall|j: int| 0 <= j < rest@.len() implies (#[trigger] rest@[j]).0 != d by {
                assert(rest@[j] == list@[j + 1]);
            }
        }
    }
}

/// The scopes inside the one at `i` bind nothing of this name.
pub open spec fn is_unbound_inside(scopes: Seq<Scope>, name: Symbol, i: int) -> bool {
    &&& 0 <= i <= scopes.len()
    &&& forall|j: int|
        0 <= j < i ==> {
            let s = #[trigger] scopes[j];
            &&& forall|k: int| 0 <= k < s.variables@.len() ==> (#[trigger] s.variables@[k]).0 != name
            &&& forall|k: int| 0 <= k < s.functions@.len() ==> (#[trigger] s.functions@[k]).0 != name
            &&& forall|k: int| 0 <= k < s.types@.len() ==> (#[trigger] s.types@[k]).0 != name
            &&& forall|k: int| 0 <= k < s.traits@.len() ==> (#[trigger] s.traits@[k]).0 != name
        }
}

/// A name means what it means in the innermost scope that binds it; a name that no scope
/// binds means nothing.
pub proof fn law_innermost_scope_counts(scopes: List<Scope>, name: Symbol, i: int)
    requires
        is_unbound_inside(scopes@, name, i),
    ensures
        i < scopes@.len() ==> {
            let s = scopes@[i];
            &&& forall|k: int| #[trigger]
                is_first(s.variables@, name, k) ==> table::variable_in(scopes, name) == Some(
                    s.variables@[k].1,
                )
            &&& forall|k: int| #[trigger]
                is_first(s.functions@, name, k) ==> table::function_in(scopes, name) == Some(
                    s.functions@[k].1,
                )
            &&& forall|k: int| #[trigger]
                is_first(s.types@, name, k) ==> table::type_in(scopes, name) == Some(s.types@[k].1)
            &&& forall|k: int| #[trigger]
                is_first(s.traits@, name, k) ==> table::trait_in(scopes, name) == Some(
                    s.traits@[k].1,
                )
        },
        i == scopes@.len() ==> {
            &&& table::variable_in(scopes, name) is None
            &&& table::function_in(scopes, name) is None
            &&& table::type_in(scopes, name) is None
            &&& table::trait_in(scopes, name) is None
        },
    decreases scopes,
{
    if scopes is Cons {
        let rest = scopes.rest();
        let top = scopes.first();
        assert(scopes@ == seq![top] + rest@);
        assert(scopes@[0] == top);
        law_first_entry_counts(top.variables, name);
        law_first_entry_counts(top.functions, name);
        law_first_entry_counts(top.types, name);
        law_first_entry_counts(top.traits, name);
        if i > 0 {
            assert forall|j: int| 0 <= j < i - 1 implies #[trigger] rest@[j] == scopes@[j + 1] by {}
            assert(is_unbound_inside(rest@, name, i - 1));
            law_innermost_scope_counts(rest, name, i - 1);
            if i < scopes@.len() {
                assert(rest@[i - 1] == scopes@[i]);
            }
        }
    }
}

/// What is bound is found from then on, and the other names mean what they meant; a name
/// that the innermost scope has bound already is reported, and nothing changes.
pub proof fn law_functions_are_bound(
    t: SymbolTable,
    name: Symbol,
    b: Rc<FunctionBinding>,
    span: Span,
    other: Symbol,
)
    ensures
        ({
            let (u, d) = t.with_function(name, b, span);
            if exists|k: int|
                0 <= k < t.top().functions@.len() && (#[trigger] t.top().functions@[k]).0 == name {
                &&& u == t
                &&& d == Some(
                    Diagnostic { kind: DiagKind::DuplicateFunction(name), span: Some(span) },
                )
            } else {
                &&& d is None
                &&& table::function_in(u.scopes, name) == Some(b)
            }
        }),
        ({
            let u = t.with_function(name, b, span).0;
            &&& other != name ==> table::function_in(u.scopes, other) == table::function_in(
                t.scopes,
                other,
            )
            &&& table::variable_in(u.scopes, other) == table::variable_in(t.scopes, other)
            &&& table::type_in(u.scopes, other) == table::type_in(t.scopes, other)
            &&& table::trait_in(u.scopes, other) == table::trait_in(t.scopes, other)
            &&& u.type_defs == t.type_defs && u.trait_defs == t.trait_defs
        }),
{
    law_first_entry_counts(t.top().functions, name);
}

/// A type that is bound is found from then on, with its definition, and the other names mean
/// what they meant; a name that the innermost scope has bound already is reported, and
/// nothing changes.
pub proof fn law_types_are_bound(
    t: SymbolTable,
    name: Symbol,
    b: Rc<TypeBinding>,
    span: Span,
    other: Symbol,
)
    ensures
        ({
            let (u, d) = t.with_type(name, b, span);
            if exists|k: int|
                0 <= k < t.top().types@.len() && (#[trigger] t.top().types@[k]).0 == name {
                &&& u == t
                &&& d == Some(Diagnostic { kind: DiagKind::DuplicateType(name), span: Some(span) })
            } else {
                &&& d is None
                &&& table::type_in(u.scopes, name) == Some(b.def_id)
                &&& u.named_type(name) == Some(b)
            }
        }),
        ({
            let u = t.with_type(name, b, span).0;
            &&& other != name ==> table::type_in(u.scopes, other) == table::type_in(
                t.scopes,
                other,
            )
            &&& table::variable_in(u.scopes, other) == table::variable_in(t.scopes, other)
            &&& table::function_in(u.scopes, other) == table::function_in(t.scopes, other)
            &&& table::trait_in(u.scopes, other) == table::trait_in(t.scopes, other)
            &&& u.trait_defs == t.trait_defs
        }),
{
    law_first_entry_counts(t.top().types, name);
}

/// A trait that is bound is found from then on, with its definition, and the other names mean
/// what they meant; a name that the innermost scope has bound already is reported, and
/// nothing changes.
pub proof fn law_traits_are_bound(
    t: SymbolTable,
    name: Symbol,
    b: Rc<TraitBinding>,
    span: Span,
    other: Symbol,
)
    ensures
        ({
            let (u, d) = t.with_trait(name, b, span);
            if exists|k: int|
                0 <= k < t.top().traits@.len() && (#[trigger] t.top().traits@[k]).0 == name {
                &&& u == t
                &&& d == Some(Diagnostic { kind: DiagKind::DuplicateTrait(name), span: Some(span) })
            } else {
                &&& d is None
                &&& table::trait_in(u.scopes, name) == Some(b.def_id)
                &&& u.named_trait(name) == Some(b)
            }
        }),
        ({
            let u = t.with_trait(name, b, span).0;
            &&& other != name ==> table::trait_in(u.scopes, other) == table::trait_in(
                t.scopes,
                other,
            )
            &&& table::variable_in(u.scopes, other) == table::variable_in(t.scopes, other)
            &&& table::function_in(u.scopes, other) == table::function_in(t.scopes, other)
            &&& table::type_in(u.scopes, other) == table::type_in(t.scopes, other)
            &&& u.type_defs == t.type_defs
        }),
{
    law_first_entry_counts(t.top().traits, name);
}

/// A constraint that is bound is in the innermost scope from then on; a name that this scope
/// has bound already is reported, and nothing changes.
pub proof fn law_constraints_are_bound(
    t: SymbolTable,
    name: Symbol,
    b: Rc<ConstraintBinding>,
    span: Span,
    other: Symbol,
)
    ensures
        ({
            let (u, d) = t.with_constraint(name, b, span);
            if exists|k: int|
                0 <= k < t.top().constraints@.len() && (#[trigger] t.top().constraints@[k]).0
                    == name {
                &&& u == t
                &&& d == Some(
                    Diagnostic { kind: DiagKind::DuplicateConstraint(name), span: Some(span) },
                )
            } else {
                &&& d is None
                &&& table::entry(u.top().constraints, name) == Some(b)
            }
        }),
        ({
            let u = t.with_constraint(name, b, span).0;
            &&& other != name ==> table::entry(u.top().constraints, other) == table::entry(
                t.top().constraints,
                other,
            )
            &&& table::variable_in(u.scopes, other) == table::variable_in(t.scopes, other)
            &&& table::function_in(u.scopes, other) == table::function_in(t.scopes, other)
            &&& table::type_in(u.scopes, other) == table::type_in(t.scopes, other)
            &&& table::trait_in(u.scopes, other) == table::trait_in(t.scopes, other)
        }),
{
    law_first_entry_counts(t.top().constraints, name);
}

/// A scope that is entered binds nothing and hides nothing; leaving it brings back the scopes
/// from before. The outermost scope cannot be left.
pub proof fn law_scopes_nest(t: SymbolTable, name: Symbol)
    ensures
        t.entered().scopes@ == seq![Scope::none()] + t.scopes@,
        table::variable_in(t.entered().scopes, name) == table::variable_in(t.scopes, name),
        table::function_in(t.entered().scopes, name) == table::function_in(t.scopes, name),
        table::type_in(t.entered().scopes, name) == table::type_in(t.scopes, name),
        table::trait_in(t.entered().scopes, name) == table::trait_in(t.scopes, name),
        t.scopes is Cons ==> t.entered().left() == t,
        t.scopes@.len() == 1 ==> t.left() == t,
        t.scopes@.len() > 1 ==> t.left().scopes@ == t.scopes@.drop_first(),
{
    if t.scopes is Cons {
        let rest = t.scopes.rest();
        assert(t.scopes@ == seq![t.scopes.first()] + rest@);
        assert(rest is Cons ==> rest@.len() > 0) by {
            if rest is Cons {
                assert(rest@ == seq![rest.first()] + rest.rest()@);
            }
        }
        assert(t.scopes@.drop_first() == rest@);
    }
}

/// Definitions that are taken one after the other have numbers that follow each other.
pub proof fn law_definitions_are_numbered(t: SymbolTable)
    requires
        t.next_def < u64::MAX,
    ensures
        t.with_def().1 == DefId(t.next_def),
        t.with_def().0.with_def().1.0 == t.next_def + 1,
        t.with_def().0.scopes == t.scopes,
        t.with_def().0.type_defs == t.type_defs,
        t.with_def().0.trait_defs == t.trait_defs,
        t.with_def().0.method_ids == t.method_ids,
{
}

/// A single name means the type that the scopes bind it to. Where they bind it to none, and
/// for a longer path, the type is the one with just this full path.
pub proof fn law_types_are_found_by_path(t: SymbolTable, path: List<Symbol>)
    ensures
        path@.len() == 0 ==> t.type_by_path(path) is None,
        path@.len() == 1 ==> t.type_by_path(path) == match table::type_in(t.scopes, path@[0]) {
            Some(d) => Some(d),
            None => table::path_entry(t.full_paths, path@),
        },
        path@.len() > 1 ==> t.type_by_path(path) == table::path_entry(t.full_paths, path@),
{
    if path is Cons {
        let rest = path.rest();
        assert(path@ == seq![path.first()] + rest@);
        assert(rest is Cons ==> rest@.len() > 0) by {
            if rest is Cons {
                assert(rest@ == seq![rest.first()] + rest.rest()@);
            }
        }
    }
}

/// A path means the trait that the scopes bind its last name to.
pub proof fn law_traits_are_found_by_path(t: SymbolTable, path: List<Symbol>)
    ensures
        path@.len() == 0 ==> t.trait_by_path(path) is None,
        path@.len() > 0 ==> t.trait_by_path(path) == table::trait_in(t.scopes, path@.last()),
    decreases path,
{
    if path is Cons {
        let rest = path.rest();
        assert(path@ == seq![path.first()] + rest@);
        law_traits_are_found_by_path(t, rest);
        if rest is Cons {
            assert(rest@ == seq![rest.first()] + rest.rest()@);
            assert(path@.last() == rest@.last());
        }
    }
}

/// The entry at `i` is the first of this path.
pub open spec fn is_first_path(s: Seq<(List<Symbol>, DefId)>, path: Seq<Symbol>, i: int) -> bool {
    &&& 0 <= i < s.len() && s[i].0@ == path
    &&& forall|j: int| 0 <= j < i ==> (#[trigger] s[j]).0@ != path
}

/// A full path means what its first entry says; where it has none, nothing.
pub proof fn law_first_path_counts(list: List<(List<Symbol>, DefId)>, path: Seq<Symbol>)
    ensures
        forall|i: int| #[trigger]
            is_first_path(list@, path, i) ==> table::path_entry(list, path) == Some(list@[i].1),
        table::path_entry(list, path) is None <==> forall|j: int|
            0 <= j < list@.len() ==> (#[trigger] list@[j]).0@ != path,
    decreases list,
{
    if list is Cons {
        let rest = list.rest();
        law_first_path_counts(rest, path);
        assert(list@ == seq![list.first()] + rest@);
        assert(list@[0] == list.first());
        assert forall|i: int| #[trigger] is_first_path(list@, path, i) implies table::path_entry(
            list,
            path,
        ) == Some(list@[i].1) by {
            if i > 0 {
                assert(list@[0].0@ != path);
                assert forall|j: int| 0 <= j < i - 1 implies (#[trigger] rest@[j]).0@ != path by {
                    assert(rest@[j] == list@[j + 1]);
                }
                assert(rest@[i - 1] == list@[i]);
                assert(is_first_path(rest@, path, i - 1));
            }
        }
        if table::path_entry(list, path) is None {
            assert forall|j: int| 0 <= j < list@.len() implies (#[trigger] list@[j]).0@ != path by {
                if j > 0 {
                    assert(list@[j] == rest@[j - 1]);
                }
            }
        }
        if forall|j: int| 0 <= j < list@.len() ==> (#[trigger] list@[j]).0@ != path {
            assert forall|j: int| 0 <= j < rest@.len() implies (#[trigger] rest@[j]).0@ != path by {
                assert(rest@[j] == list@[j + 1]);
            }
        }
    }
}

/// A function that is bound in the outermost scope is there from then on, before the ones that
/// were there; the scopes inside stay as they are. A name that the outermost scope has bound
/// already is reported, and nothing changes.
pub proof fn law_root_functions_are_bound(
    t: SymbolTable,
    name: Symbol,
    b: Rc<FunctionBinding>,
    span: Span,
)
    requires
        t.scopes is Cons,
    ensures
        ({
            let (u, d) = t.with_function_at_root(name, b, span);
            let n = t.scopes@.len();
            let root = t.scopes@.last();
            if exists|k: int| 0 <= k < root.functions@.len() && (#[trigger] root.functions@[k]).0
                == name {
                &&& u == t
                &&& d == Some(
                    Diagnostic { kind: DiagKind::DuplicateFunction(name), span: Some(span) },
                )
            } else {
                &&& d is None
                &&& n > 0 && u.scopes@.len() == n
                &&& u.scopes@.drop_last() == t.scopes@.drop_last()
                &&& u.scopes@.last().functions@ == seq![(name, b)] + root.functions@
                &&& u.scopes@.last().variables == root.variables
                &&& u.scopes@.last().types == root.types
                &&& u.scopes@.last().traits == root.traits
                &&& u.scopes@.last().constraints == root.constraints
            }
        }),
{
    lemma_root(t.scopes, name, b);
    let root = t.scopes@.last();
    law_first_entry_counts(root.functions, name);
    assert(root.functions.cons((name, b))@ == seq![(name, b)] + root.functions@);
}

proof fn lemma_root(scopes: List<Scope>, name: Symbol, b: Rc<FunctionBinding>)
    requires
        scopes is Cons,
    ensures
        scopes@.len() > 0,
        table::root_scope(scopes) == scopes@.last(),
        ({
            let now = table::with_root_function(scopes, name, b)@;
            let root = scopes@.last();
            &&& now == scopes@.drop_last().push(
                (Scope { functions: root.functions.cons((name, b)), ..root }),
            )
        }),
    decreases scopes,
{
    let rest = scopes.rest();
    let top = scopes.first();
    assert(scopes@ == seq![top] + rest@);
    let now = table::with_root_function(scopes, name, b);
    if rest is Cons {
        lemma_root(rest, name, b);
        let below = table::with_root_function(rest, name, b);
        assert(now@ == seq![top] + below@);
        assert(scopes@.last() == rest@.last());
        assert(scopes@.drop_last() == seq![top] + rest@.drop_last());
    } else {
        let nil = List::<Scope>::Nil;
        assert(nil@ == Seq::<Scope>::empty());
        assert(rest@ == Seq::<Scope>::empty());
        assert(now@ == seq![now.first()] + nil@);
        assert(scopes@.drop_last() == Seq::<Scope>::empty());
    }
}

} // verus!
