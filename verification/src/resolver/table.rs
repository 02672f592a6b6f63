//! The symbol table: what names are bound to, scope by scope.
use super::diag::{DiagKind, Diagnostic};
use crate::ast::{Attribute, Expr, ImplMethod, Type, TypeParam, VariantDef};
use crate::list::List;
use crate::symbol::{Span, Symbol};
use crate::types::{CrateId, DefId, TypeId};
use std::rc::Rc;
use vstd::prelude::*;

verus! {

/// A variable.
#[derive(Clone, Copy, Debug, PartialEq, Eq, Structural)]
pub struct VariableBinding {
    pub ty: TypeId,
    pub mutable: bool,
    pub span: Span,
    pub def_id: DefId,
}

/// A parameter of a function.
#[derive(Debug)]
pub struct Parameter {
    pub name: Symbol,
    pub ty: TypeId,
    pub span: Span,
    pub default: Option<Rc<Expr>>,
}

/// The types of a function.
#[derive(Debug)]
pub struct FunctionSignature {
    pub params: List<Parameter>,
    pub return_type: TypeId,
    pub type_params: List<TypeParam>,
}

/// A function.
#[derive(Debug)]
pub struct FunctionBinding {
    pub def_id: DefId,
    pub signature: FunctionSignature,
    pub is_comptime: bool,
    pub is_async: bool,
    pub is_pure: bool,
    pub is_ieee_contracts: bool,
    pub hints: List<Expr>,
    pub contracts: List<Expr>,
    pub attributes: List<Attribute>,
}

/// The sorts of types.
#[derive(Clone, Copy, Debug, PartialEq, Eq, Structural)]
pub enum TypeKind {
    Struct,
    Enum,
    Alias,
    Opaque,
    Trait,
    Impl,
    Constraint,
}

/// The order of bytes.
#[derive(Clone, Copy, Debug, PartialEq, Eq, Structural)]
pub enum Endianness {
    Little,
    Big,
}

/// The order of bits.
#[derive(Clone, Copy, Debug, PartialEq, Eq, Structural)]
pub enum BitOrder {
    LsbToMsb,
    MsbToLsb,
}

/// A field of a struct, or the payload of a variant.
#[derive(Debug)]
pub struct FieldBinding {
    pub name: Symbol,
    pub ty: TypeId,
    pub default: Option<Rc<Expr>>,
    pub span: Span,
}

/// What the attributes of a type say of its layout.
#[derive(Debug)]
pub struct Layout {
    pub c_layout: bool,
    pub transparent: bool,
    pub packed: bool,
    pub endian: Option<Endianness>,
    pub bit_order: Option<BitOrder>,
    pub align: Option<u64>,
    pub pad: Option<u64>,
    /// The attributes as they were written, and after them those of the layout
    /// aliases that they name, each name once.
    pub expanded: List<Attribute>,
}

/// A type.
#[derive(Debug)]
pub struct TypeBinding {
    pub def_id: DefId,
    pub params: List<TypeParam>,
    pub kind: TypeKind,
    pub span: Span,
    pub alias_ast: Option<Rc<Type>>,
    pub attributes: List<Attribute>,
    pub fields: List<FieldBinding>,
    pub variants: List<VariantDef>,
    pub default_value: Option<Rc<Expr>>,
    pub no_default: bool,
    pub crate_id: CrateId,
    pub missing_match: Option<Rc<Expr>>,
    pub exhaustive: bool,
    pub layout: Layout,
}

/// A trait.
#[derive(Debug)]
pub struct TraitBinding {
    pub def_id: DefId,
    pub methods: List<(Symbol, FunctionSignature)>,
    pub associated_types: List<(Symbol, Option<Rc<Type>>)>,
    pub span: Span,
    pub attributes: List<Attribute>,
    pub crate_id: CrateId,
}

/// A predicate of a constraint.
#[derive(Debug)]
pub struct ConstraintPredicate {
    pub subject: TypeId,
    pub bounds: List<TypeId>,
}

/// A constraint.
#[derive(Debug)]
pub struct ConstraintBinding {
    pub predicates: List<ConstraintPredicate>,
    pub params: List<TypeParam>,
    pub span: Span,
}

/// An impl block.
#[derive(Debug)]
pub struct ImplBinding {
    pub def_id: DefId,
    pub methods: List<ImplMethod>,
    pub span: Span,
}

/// The names of one scope, the latest first.
#[derive(Debug)]
pub struct Scope {
    pub variables: List<(Symbol, VariableBinding)>,
    pub functions: List<(Symbol, Rc<FunctionBinding>)>,
    pub types: List<(Symbol, DefId)>,
    pub traits: List<(Symbol, DefId)>,
    pub constraints: List<(Symbol, Rc<ConstraintBinding>)>,
}

/// The table.
#[derive(Debug)]
pub struct SymbolTable {
    /// The open scopes, the innermost first; the last one is the root.
    pub scopes: List<Scope>,
    /// The definitions of types, the latest first.
    pub type_defs: List<(DefId, Rc<TypeBinding>)>,
    /// The definitions of traits, the latest first.
    pub trait_defs: List<(DefId, Rc<TraitBinding>)>,
    /// Types by their full paths, the latest first.
    pub full_paths: List<(List<Symbol>, DefId)>,
    /// The impl blocks, the latest first.
    pub impls: List<Rc<ImplBinding>>,
    /// The definitions of methods by type and name, the latest first.
    pub method_ids: List<(DefId, Symbol, DefId)>,
    pub next_def: u64,
    pub local_crate_id: CrateId,
}

// ---------------------------------------------------------------------------
// Lookup
// ---------------------------------------------------------------------------

/// The first entry of a name.
pub open spec fn entry<V>(list: List<(Symbol, V)>, name: Symbol) -> Option<V>
    decreases list,
{
    match list {
        List::Nil => None,
        List::Cons(link) => if link.head.0 == name {
            Some(link.head.1)
        } else {
            entry(link.tail, name)
        },
    }
}

/// The first entry of a definition.
pub open spec fn def_entry<V>(list: List<(DefId, V)>, d: DefId) -> Option<V>
    decreases list,
{
    match list {
        List::Nil => None,
        List::Cons(link) => if link.head.0 == d {
            Some(link.head.1)
        } else {
            def_entry(link.tail, d)
        },
    }
}

/// The first entry of a path.
pub open spec fn path_entry(list: List<(List<Symbol>, DefId)>, path: Seq<Symbol>) -> Option<DefId>
    decreases list,
{
    match list {
        List::Nil => None,
        List::Cons(link) => if link.head.0@ == path {
            Some(link.head.1)
        } else {
            path_entry(link.tail, path)
        },
    }
}

/// The variable of this name in the innermost scope that has one.
pub open spec fn variable_in(scopes: List<Scope>, name: Symbol) -> Option<VariableBinding>
    decreases scopes,
{
    match scopes {
        List::Nil => None,
        List::Cons(link) => match entry(link.head.variables, name) {
            Some(b) => Some(b),
            None => variable_in(link.tail, name),
        },
    }
}

/// The function of this name in the innermost scope that has one.
pub open spec fn function_in(scopes: List<Scope>, name: Symbol) -> Option<Rc<FunctionBinding>>
    decreases scopes,
{
    match scopes {
        List::Nil => None,
        List::Cons(link) => match entry(link.head.functions, name) {
            Some(b) => Some(b),
            None => function_in(link.tail, name),
        },
    }
}

/// The type of this name in the innermost scope that has one.
pub open spec fn type_in(scopes: List<Scope>, name: Symbol) -> Option<DefId>
    decreases scopes,
{
    match scopes {
        List::Nil => None,
        List::Cons(link) => match entry(link.head.types, name) {
            Some(b) => Some(b),
            None => type_in(link.tail, name),
        },
    }
}

/// The trait of this name in the innermost scope that has one.
pub open spec fn trait_in(scopes: List<Scope>, name: Symbol) -> Option<DefId>
    decreases scopes,
{
    match scopes {
        List::Nil => None,
        List::Cons(link) => match entry(link.head.traits, name) {
            Some(b) => Some(b),
            None => trait_in(link.tail, name),
        },
    }
}

fn find<'a, V>(list: &'a List<(Symbol, V)>, name: Symbol) -> (r: Option<&'a V>)
    ensures
        match r {
            Some(v) => entry(*list, name) == Some(*v),
            None => entry(*list, name) is None,
        },
    decreases *list,
{
    match list {
        List::Nil => None,
        List::Cons(link) => if link.head.0 == name {
            Some(&link.head.1)
        } else {
            find(&link.tail, name)
        },
    }
}

fn find_def<'a, V>(list: &'a List<(DefId, V)>, d: DefId) -> (r: Option<&'a V>)
    ensures
        match r {
            Some(v) => def_entry(*list, d) == Some(*v),
            None => def_entry(*list, d) is None,
        },
    decreases *list,
{
    match list {
        List::Nil => None,
        List::Cons(link) => if link.head.0 == d {
            Some(&link.head.1)
        } else {
            find_def(&link.tail, d)
        },
    }
}

/// Whether two paths are the same.
pub fn same_path(a: &List<Symbol>, b: &List<Symbol>) -> (r: bool)
    ensures
        r == (a@ == b@),
    decreases *a,
{
    match (a, b) {
        (List::Nil, List::Nil) => true,
        (List::Cons(x), List::Cons(y)) => {
            let rest = same_path(&x.tail, &y.tail);
            proof {
                assert(a@[0] == x.head && b@[0] == y.head);
                assert(a@.skip(1) =~= x.tail@);
                assert(b@.skip(1) =~= y.tail@);
                if x.head == y.head && x.tail@ == y.tail@ {
                    assert(a@ =~= b@);
                }
            }
            x.head == y.head && rest
        },
        (List::Nil, List::Cons(y)) => {
            assert(b@.len() == y.tail@.len() + 1);
            false
        },
        (List::Cons(x), List::Nil) => {
            assert(a@.len() == x.tail@.len() + 1);
            false
        },
    }
}

fn find_path(list: &List<(List<Symbol>, DefId)>, path: &List<Symbol>) -> (r: Option<DefId>)
    ensures
        r == path_entry(*list, path@),
    decreases *list,
{
    match list {
        List::Nil => None,
        List::Cons(link) => if same_path(&link.head.0, path) {
            Some(link.head.1)
        } else {
            find_path(&link.tail, path)
        },
    }
}

fn find_variable(scopes: &List<Scope>, name: Symbol) -> (r: Option<VariableBinding>)
    ensures
        r == variable_in(*scopes, name),
    decreases *scopes,
{
    match scopes {
        List::Nil => None,
        List::Cons(link) => match find(&link.head.variables, name) {
            Some(b) => Some(*b),
            None => find_variable(&link.tail, name),
        },
    }
}

fn find_function<'a>(scopes: &'a List<Scope>, name: Symbol) -> (r: Option<&'a Rc<FunctionBinding>>)
    ensures
        match r {
            Some(b) => function_in(*scopes, name) == Some(*b),
            None => function_in(*scopes, name) is None,
        },
    decreases *scopes,
{
    match scopes {
        List::Nil => None,
        List::Cons(link) => match find(&link.head.functions, name) {
            Some(b) => Some(b),
            None => find_function(&link.tail, name),
        },
    }
}

fn find_type(scopes: &List<Scope>, name: Symbol) -> (r: Option<DefId>)
    ensures
        r == type_in(*scopes, name),
    decreases *scopes,
{
    match scopes {
        List::Nil => None,
        List::Cons(link) => match find(&link.head.types, name) {
            Some(b) => Some(*b),
            None => find_type(&link.tail, name),
        },
    }
}

fn find_trait(scopes: &List<Scope>, name: Symbol) -> (r: Option<DefId>)
    ensures
        r == trait_in(*scopes, name),
    decreases *scopes,
{
    match scopes {
        List::Nil => None,
        List::Cons(link) => match find(&link.head.traits, name) {
            Some(b) => Some(*b),
            None => find_trait(&link.tail, name),
        },
    }
}

// ---------------------------------------------------------------------------
// Change
// ---------------------------------------------------------------------------

impl Scope {
    /// The scope without names.
    pub open spec fn none() -> Scope {
        Scope {
            variables: List::Nil,
            functions: List::Nil,
            types: List::Nil,
            traits: List::Nil,
            constraints: List::Nil,
        }
    }

    /// The scope without names.
    pub fn new() -> (r: Self)
        ensures
            r == Scope::none(),
    {
        Scope {
            variables: List::Nil,
            functions: List::Nil,
            types: List::Nil,
            traits: List::Nil,
            constraints: List::Nil,
        }
    }
}

impl Clone for Scope {
    fn clone(&self) -> (r: Self)
        ensures
            r == *self,
    {
        Scope {
            variables: self.variables.clone(),
            functions: self.functions.clone(),
            types: self.types.clone(),
            traits: self.traits.clone(),
            constraints: self.constraints.clone(),
        }
    }
}

/// The outermost scope replaced.
pub open spec fn with_root_function(
    scopes: List<Scope>,
    name: Symbol,
    b: Rc<FunctionBinding>,
) -> List<Scope>
    decreases scopes,
{
    match scopes {
        List::Nil => List::Nil.cons(
            Scope { functions: List::Nil.cons((name, b)), ..Scope::none() },
        ),
        List::Cons(link) => if link.tail is Nil {
            List::Nil.cons(Scope { functions: link.head.functions.cons((name, b)), ..link.head })
        } else {
            with_root_function(link.tail, name, b).cons(link.head)
        },
    }
}

/// The outermost scope.
pub open spec fn root_scope(scopes: List<Scope>) -> Scope
    decreases scopes,
{
    match scopes {
        List::Nil => Scope::none(),
        List::Cons(link) => if link.tail is Nil {
            link.head
        } else {
            root_scope(link.tail)
        },
    }
}

fn root_has_function(scopes: &List<Scope>, name: Symbol) -> (r: bool)
    ensures
        r == (entry(root_scope(*scopes).functions, name) is Some),
    decreases *scopes,
{
    match scopes {
        List::Nil => false,
        List::Cons(link) => if link.tail.is_empty() {
            find(&link.head.functions, name).is_some()
        } else {
            root_has_function(&link.tail, name)
        },
    }
}

fn push_root_function(
    scopes: &List<Scope>,
    name: Symbol,
    b: Rc<FunctionBinding>,
) -> (r: List<Scope>)
    ensures
        r == with_root_function(*scopes, name, b),
    decreases *scopes,
{
    match scopes {
        List::Nil => {
            let mut s = Scope::new();
            s.functions = List::Nil.push((name, b));
            List::Nil.push(s)
        },
        List::Cons(link) => if link.tail.is_empty() {
            let mut s = link.head.clone();
            s.functions = link.head.functions.clone().push((name, b));
            List::Nil.push(s)
        } else {
            push_root_function(&link.tail, name, b).push(link.head.clone())
        },
    }
}

impl SymbolTable {
    /// The innermost scope.
    pub open spec fn top(self) -> Scope {
        match self.scopes {
            List::Nil => Scope::none(),
            List::Cons(link) => link.head,
        }
    }

    /// The scopes around the innermost one.
    pub open spec fn outer(self) -> List<Scope> {
        match self.scopes {
            List::Nil => List::Nil,
            List::Cons(link) => link.tail,
        }
    }

    /// The table with the innermost scope replaced.
    pub open spec fn with_top(self, s: Scope) -> SymbolTable {
        SymbolTable { scopes: self.outer().cons(s), ..self }
    }

    /// A name of the innermost scope that is bound already.
    pub open spec fn clash(kind: DiagKind, span: Span) -> Option<Diagnostic> {
        Some(Diagnostic { kind, span: Some(span) })
    }

    pub open spec fn with_variable(self, name: Symbol, b: VariableBinding, span: Span) -> (
        SymbolTable,
        Option<Diagnostic>,
    ) {
        if entry(self.top().variables, name) is Some {
            (self, SymbolTable::clash(DiagKind::DuplicateVariable(name), span))
        } else {
            (
                self.with_top(
                    Scope { variables: self.top().variables.cons((name, b)), ..self.top() },
                ),
                None,
            )
        }
    }

    pub open spec fn with_function(
        self,
        name: Symbol,
        b: Rc<FunctionBinding>,
        span: Span,
    ) -> (SymbolTable, Option<Diagnostic>) {
        if entry(self.top().functions, name) is Some {
            (self, SymbolTable::clash(DiagKind::DuplicateFunction(name), span))
        } else {
            (
                self.with_top(
                    Scope { functions: self.top().functions.cons((name, b)), ..self.top() },
                ),
                None,
            )
        }
    }

    pub open spec fn with_function_at_root(
        self,
        name: Symbol,
        b: Rc<FunctionBinding>,
        span: Span,
    ) -> (SymbolTable, Option<Diagnostic>) {
        if entry(root_scope(self.scopes).functions, name) is Some {
            (self, SymbolTable::clash(DiagKind::DuplicateFunction(name), span))
        } else {
            (
                SymbolTable { scopes: with_root_function(self.scopes, name, b), ..self },
                None,
            )
        }
    }

    pub open spec fn with_type(self, name: Symbol, b: Rc<TypeBinding>, span: Span) -> (
        SymbolTable,
        Option<Diagnostic>,
    ) {
        if entry(self.top().types, name) is Some {
            (self, SymbolTable::clash(DiagKind::DuplicateType(name), span))
        } else {
            (
                SymbolTable {
                    type_defs: self.type_defs.cons((b.def_id, b)),
                    ..self.with_top(
                        Scope { types: self.top().types.cons((name, b.def_id)), ..self.top() },
                    )
                },
                None,
            )
        }
    }

    pub open spec fn with_trait(self, name: Symbol, b: Rc<TraitBinding>, span: Span) -> (
        SymbolTable,
        Option<Diagnostic>,
    ) {
        if entry(self.top().traits, name) is Some {
            (self, SymbolTable::clash(DiagKind::DuplicateTrait(name), span))
        } else {
            (
                SymbolTable {
                    trait_defs: self.trait_defs.cons((b.def_id, b)),
                    ..self.with_top(
                        Scope { traits: self.top().traits.cons((name, b.def_id)), ..self.top() },
                    )
                },
                None,
            )
        }
    }

    pub open spec fn with_constraint(
        self,
        name: Symbol,
        b: Rc<ConstraintBinding>,
        span: Span,
    ) -> (SymbolTable, Option<Diagnostic>) {
        if entry(self.top().constraints, name) is Some {
            (self, SymbolTable::clash(DiagKind::DuplicateConstraint(name), span))
        } else {
            (
                self.with_top(
                    Scope { constraints: self.top().constraints.cons((name, b)), ..self.top() },
                ),
                None,
            )
        }
    }

    /// The table of a crate, with nothing in it but an empty root scope.
    pub open spec fn fresh(local_crate_id: CrateId) -> SymbolTable {
        SymbolTable {
            scopes: List::Nil.cons(Scope::none()),
            type_defs: List::Nil,
            trait_defs: List::Nil,
            full_paths: List::Nil,
            impls: List::Nil,
            method_ids: List::Nil,
            next_def: 0,
            local_crate_id,
        }
    }

    /// The table with one more scope inside.
    pub open spec fn entered(self) -> SymbolTable {
        SymbolTable { scopes: self.scopes.cons(Scope::none()), ..self }
    }

    /// The table without its innermost scope; the root stays.
    pub open spec fn left(self) -> SymbolTable {
        if self.outer() is Nil {
            self
        } else {
            SymbolTable { scopes: self.outer(), ..self }
        }
    }

    /// The table with one definition taken, and that definition.
    pub open spec fn with_def(self) -> (SymbolTable, DefId) {
        (
            SymbolTable {
                next_def: if self.next_def < u64::MAX {
                    (self.next_def + 1) as u64
                } else {
                    self.next_def
                },
                ..self
            },
            DefId(self.next_def),
        )
    }

    /// The type that a path names: for one name, that of the innermost scope
    /// that has one; else that of this full path.
    pub open spec fn type_by_path(self, path: List<Symbol>) -> Option<DefId> {
        match path {
            List::Nil => None,
            List::Cons(link) => if link.tail is Nil && type_in(
                self.scopes,
                link.head,
            ) is Some {
                type_in(self.scopes, link.head)
            } else {
                path_entry(self.full_paths, path@)
            },
        }
    }

    /// The trait that a path names, by its last name.
    pub open spec fn trait_by_path(self, path: List<Symbol>) -> Option<DefId>
        decreases path,
    {
        match path {
            List::Nil => None,
            List::Cons(link) => if link.tail is Nil {
                trait_in(self.scopes, link.head)
            } else {
                self.trait_by_path(link.tail)
            },
        }
    }

    pub open spec fn type_def(self, d: DefId) -> Option<Rc<TypeBinding>> {
        def_entry(self.type_defs, d)
    }

    pub open spec fn trait_def(self, d: DefId) -> Option<Rc<TraitBinding>> {
        def_entry(self.trait_defs, d)
    }

    /// The table with a root scope only.
    pub fn new(local_crate_id: CrateId) -> (r: Self)
        ensures
            r == SymbolTable::fresh(local_crate_id),
    {
        SymbolTable {
            scopes: List::Nil.push(Scope::new()),
            type_defs: List::Nil,
            trait_defs: List::Nil,
            full_paths: List::Nil,
            impls: List::Nil,
            method_ids: List::Nil,
            next_def: 0,
            local_crate_id,
        }
    }

    fn top_scope(&self) -> (r: Scope)
        ensures
            r == self.top(),
    {
        match &self.scopes {
            List::Nil => Scope::new(),
            List::Cons(link) => link.head.clone(),
        }
    }

    fn outer_scopes(&self) -> (r: List<Scope>)
        ensures
            r == self.outer(),
    {
        match &self.scopes {
            List::Nil => List::Nil,
            List::Cons(link) => link.tail.clone(),
        }
    }

    fn replace_top(&mut self, s: Scope)
        ensures
            *final(self) == old(self).with_top(s),
    {
        self.scopes = self.outer_scopes().push(s);
    }

    /// The variable of this name.
    pub fn lookup_variable(&self, name: Symbol) -> (r: Option<VariableBinding>)
        ensures
            r == variable_in(self.scopes, name),
    {
        find_variable(&self.scopes, name)
    }

    /// The function of this name.
    pub fn lookup_function(&self, name: Symbol) -> (r: Option<&Rc<FunctionBinding>>)
        ensures
            match r {
                Some(b) => function_in(self.scopes, name) == Some(*b),
                None => function_in(self.scopes, name) is None,
            },
    {
        find_function(&self.scopes, name)
    }

    /// The type of this name.
    pub fn lookup_type(&self, name: Symbol) -> (r: Option<&Rc<TypeBinding>>)
        ensures
            match r {
                Some(b) => self.named_type(name) == Some(*b),
                None => self.named_type(name) is None,
            },
    {
        match find_type(&self.scopes, name) {
            Some(d) => find_def(&self.type_defs, d),
            None => None,
        }
    }

    /// The definition of the type of this name.
    pub open spec fn named_type(self, name: Symbol) -> Option<Rc<TypeBinding>> {
        match type_in(self.scopes, name) {
            Some(d) => self.type_def(d),
            None => None,
        }
    }

    /// The definition of the trait of this name.
    pub open spec fn named_trait(self, name: Symbol) -> Option<Rc<TraitBinding>> {
        match trait_in(self.scopes, name) {
            Some(d) => self.trait_def(d),
            None => None,
        }
    }

    /// The type with this definition.
    pub fn lookup_type_by_def_id(&self, d: DefId) -> (r: Option<&Rc<TypeBinding>>)
        ensures
            match r {
                Some(b) => self.type_def(d) == Some(*b),
                None => self.type_def(d) is None,
            },
    {
        find_def(&self.type_defs, d)
    }

    /// The type that a path names.
    pub fn lookup_type_by_path(&self, path: &List<Symbol>) -> (r: Option<DefId>)
        ensures
            r == self.type_by_path(*path),
    {
        match path {
            List::Nil => None,
            List::Cons(link) => {
                if link.tail.is_empty() {
                    if let Some(d) = find_type(&self.scopes, link.head) {
                        return Some(d);
                    }
                }
                find_path(&self.full_paths, path)
            },
        }
    }

    /// The trait of this name.
    pub fn lookup_trait(&self, name: Symbol) -> (r: Option<&Rc<TraitBinding>>)
        ensures
            match r {
                Some(b) => self.named_trait(name) == Some(*b),
                None => self.named_trait(name) is None,
            },
    {
        match find_trait(&self.scopes, name) {
            Some(d) => find_def(&self.trait_defs, d),
            None => None,
        }
    }

    /// The trait with this definition.
    pub fn lookup_trait_by_def_id(&self, d: DefId) -> (r: Option<&Rc<TraitBinding>>)
        ensures
            match r {
                Some(b) => self.trait_def(d) == Some(*b),
                None => self.trait_def(d) is None,
            },
    {
        find_def(&self.trait_defs, d)
    }

    /// The trait that a path names.
    pub fn lookup_trait_by_path(&self, path: &List<Symbol>) -> (r: Option<DefId>)
        ensures
            r == self.trait_by_path(*path),
        decreases *path,
    {
        match path {
            List::Nil => None,
            List::Cons(link) => if link.tail.is_empty() {
                find_trait(&self.scopes, link.head)
            } else {
                self.lookup_trait_by_path(&link.tail)
            },
        }
    }

    /// Binds a variable in the innermost scope.
    pub fn insert_variable(&mut self, name: Symbol, b: VariableBinding, span: Span) -> (r: Option<
        Diagnostic,
    >)
        ensures
            (*final(self), r) == old(self).with_variable(name, b, span),
    {
        let mut s = self.top_scope();
        if find(&s.variables, name).is_some() {
            return Some(
                Diagnostic { kind: DiagKind::DuplicateVariable(name), span: Some(span) },
            );
        }
        s.variables = s.variables.clone().push((name, b));
        self.replace_top(s);
        None
    }

    /// Binds a function in the innermost scope.
    pub fn insert_function(
        &mut self,
        name: Symbol,
        b: Rc<FunctionBinding>,
        span: Span,
    ) -> (r: Option<Diagnostic>)
        ensures
            (*final(self), r) == old(self).with_function(name, b, span),
    {
        let mut s = self.top_scope();
        if find(&s.functions, name).is_some() {
            return Some(
                Diagnostic { kind: DiagKind::DuplicateFunction(name), span: Some(span) },
            );
        }
        s.functions = s.functions.clone().push((name, b));
        self.replace_top(s);
        None
    }

    /// Binds a function in the outermost scope.
    pub fn insert_function_at_root(
        &mut self,
        name: Symbol,
        b: Rc<FunctionBinding>,
        span: Span,
    ) -> (r: Option<Diagnostic>)
        ensures
            (*final(self), r) == old(self).with_function_at_root(name, b, span),
    {
        if root_has_function(&self.scopes, name) {
            return Some(
                Diagnostic { kind: DiagKind::DuplicateFunction(name), span: Some(span) },
            );
        }
        self.scopes = push_root_function(&self.scopes, name, b);
        None
    }

    /// Binds a type in the innermost scope.
    pub fn insert_type(&mut self, name: Symbol, b: Rc<TypeBinding>, span: Span) -> (r: Option<
        Diagnostic,
    >)
        ensures
            (*final(self), r) == old(self).with_type(name, b, span),
    {
        let mut s = self.top_scope();
        if find(&s.types, name).is_some() {
            return Some(Diagnostic { kind: DiagKind::DuplicateType(name), span: Some(span) });
        }
        let d = b.def_id;
        s.types = s.types.clone().push((name, d));
        self.replace_top(s);
        self.type_defs = self.type_defs.clone().push((d, b));
        None
    }

    /// Binds a trait in the innermost scope.
    pub fn insert_trait(&mut self, name: Symbol, b: Rc<TraitBinding>, span: Span) -> (r: Option<
        Diagnostic,
    >)
        ensures
            (*final(self), r) == old(self).with_trait(name, b, span),
    {
        let mut s = self.top_scope();
        if find(&s.traits, name).is_some() {
            return Some(Diagnostic { kind: DiagKind::DuplicateTrait(name), span: Some(span) });
        }
        let d = b.def_id;
        s.traits = s.traits.clone().push((name, d));
        self.replace_top(s);
        self.trait_defs = self.trait_defs.clone().push((d, b));
        None
    }

    /// Binds a constraint in the innermost scope.
    pub fn insert_constraint(
        &mut self,
        name: Symbol,
        b: Rc<ConstraintBinding>,
        span: Span,
    ) -> (r: Option<Diagnostic>)
        ensures
            (*final(self), r) == old(self).with_constraint(name, b, span),
    {
        let mut s = self.top_scope();
        if find(&s.constraints, name).is_some() {
            return Some(
                Diagnostic { kind: DiagKind::DuplicateConstraint(name), span: Some(span) },
            );
        }
        s.constraints = s.constraints.clone().push((name, b));
        self.replace_top(s);
        None
    }

    /// Records an impl block.
    pub fn insert_impl(&mut self, b: Rc<ImplBinding>)
        ensures
            *final(self) == (SymbolTable { impls: old(self).impls.cons(b), ..*old(self) }),
    {
        self.impls = self.impls.clone().push(b);
    }

    /// Records the definition of a method of a type.
    pub fn insert_method_def_id(&mut self, receiver: DefId, name: Symbol, d: DefId)
        ensures
            *final(self) == (SymbolTable {
                method_ids: old(self).method_ids.cons((receiver, name, d)),
                ..*old(self)
            }),
    {
        self.method_ids = self.method_ids.clone().push((receiver, name, d));
    }

    /// Records the full path of a type.
    pub fn register_full_path(&mut self, path: List<Symbol>, d: DefId)
        ensures
            *final(self) == (SymbolTable {
                full_paths: old(self).full_paths.cons((path, d)),
                ..*old(self)
            }),
    {
        self.full_paths = self.full_paths.clone().push((path, d));
    }

    /// Opens a scope.
    pub fn push_scope(&mut self)
        ensures
            *final(self) == old(self).entered(),
    {
        self.scopes = self.scopes.clone().push(Scope::new());
    }

    /// Closes the innermost scope.
    pub fn pop_scope(&mut self)
        ensures
            *final(self) == old(self).left(),
    {
        let outer = self.outer_scopes();
        if !outer.is_empty() {
            self.scopes = outer;
        }
    }

    /// Takes a definition.
    pub fn allocate_def_id(&mut self) -> (r: DefId)
        ensures
            (*final(self), r) == old(self).with_def(),
    {
        let r = DefId(self.next_def);
        if self.next_def < u64::MAX {
            self.next_def += 1;
        }
        r
    }
}

} // verus!
