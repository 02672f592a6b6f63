//! Resolved types.
use crate::ast::Expr;
use crate::list::List;
use crate::symbol::Symbol;
use std::rc::Rc;
use vstd::prelude::*;

verus! {

/// A type in a type context.
#[derive(Clone, Copy, Debug, PartialEq, Eq, Structural)]
pub struct TypeId(pub usize);

/// A definition.
#[derive(Clone, Copy, Debug, PartialEq, Eq, Structural)]
pub struct DefId(pub u64);

/// A crate.
#[derive(Clone, Copy, Debug, PartialEq, Eq, Structural)]
pub struct CrateId(pub DefId);

/// The two sorts of types with fields.
#[derive(Clone, Copy, Debug, PartialEq, Eq, Structural)]
pub enum AdtKind {
    Struct,
    Enum,
}

/// An edition of the language.
#[derive(Clone, Copy, Debug, PartialEq, Eq, Structural)]
pub enum Edition {
    E2024,
    E2026,
}

impl Edition {
    /// The edition of this name.
    pub open spec fn named(text: Seq<char>) -> Option<Edition> {
        if text == "2024"@ {
            Some(Edition::E2024)
        } else if text == "2026"@ {
            Some(Edition::E2026)
        } else {
            None
        }
    }

    /// The edition of this name.
    pub fn from_str(text: &String) -> (r: Option<Edition>)
        ensures
            r == Edition::named(text@),
    {
        if *text == "2024".to_owned() {
            Some(Edition::E2024)
        } else if *text == "2026".to_owned() {
            Some(Edition::E2026)
        } else {
            None
        }
    }
}

/// What a type is.
#[derive(Debug)]
pub enum TypeData {
    Error,
    Unit,
    Never,
    Bool,
    Char,
    Byte,
    USize,
    Int { bits: u32, signed: bool },
    Float { bits: u32 },
    Rational { p: u8, q: u8 },
    Ptr { size: TypeId, pointee: TypeId },
    Pointer { ty: TypeId },
    Ref { ty: TypeId, mutable: bool, lifetime: Option<Symbol> },
    Slice { elem: TypeId },
    Array { elem: TypeId, size: u64 },
    Tuple { elems: List<TypeId> },
    Function { params: List<TypeId>, ret: TypeId },
    Adt { kind: AdtKind, def_id: DefId, args: List<TypeId> },
    GenericParam { index: usize, name: Symbol },
    Forall { index: u64, lifetime: Symbol, body: TypeId },
    Exists { index: u64, name: Symbol, base: TypeId, condition: Rc<Expr> },
    DynTrait { traits: List<DefId> },
    Regex(Rc<String>),
    /// A type that is not known yet.
    Infer,
}

/// The types of the fields of a struct, or of the payloads of an enum.
#[derive(Debug)]
pub struct AdtDef {
    pub fields: List<TypeId>,
    pub has_drop: bool,
}

/// A type context as mathematics.
#[verifier::ext_equal]
pub struct Types {
    pub types: Seq<TypeData>,
    /// Definitions, the latest first.
    pub adts: List<(DefId, AdtDef)>,
    /// Types that have turned out to be others, the latest first.
    pub bindings: List<(TypeId, TypeId)>,
    pub edition: Option<Edition>,
    pub next_param: u64,
}

/// The first entry of a definition.
pub open spec fn find_adt(adts: List<(DefId, AdtDef)>, d: DefId) -> Option<AdtDef>
    decreases adts,
{
    match adts {
        List::Nil => None,
        List::Cons(link) => if link.head.0 == d {
            Some(link.head.1)
        } else {
            find_adt(link.tail, d)
        },
    }
}

/// The first entry of a type.
pub open spec fn find_binding(bindings: List<(TypeId, TypeId)>, t: TypeId) -> Option<TypeId>
    decreases bindings,
{
    match bindings {
        List::Nil => None,
        List::Cons(link) => if link.head.0 == t {
            Some(link.head.1)
        } else {
            find_binding(link.tail, t)
        },
    }
}

/// The number of the type of what could not be resolved.
pub const TY_ERROR: usize = 0;

/// The number of the unit type.
pub const TY_UNIT: usize = 1;

/// The number of the type without values.
pub const TY_NEVER: usize = 2;

/// The number of the type of truth values.
pub const TY_BOOL: usize = 3;

/// The number of the type of characters.
pub const TY_CHAR: usize = 4;

/// The number of the type of bytes.
pub const TY_BYTE: usize = 5;

/// The number of the type of sizes.
pub const TY_USIZE: usize = 6;

impl Types {
    /// The types that every context starts with, by their numbers.
    pub open spec fn basic() -> Seq<TypeData> {
        seq![
            TypeData::Error,
            TypeData::Unit,
            TypeData::Never,
            TypeData::Bool,
            TypeData::Char,
            TypeData::Byte,
            TypeData::USize,
        ]
    }

    /// What a type is, if it is of this context.
    pub open spec fn data(self, t: TypeId) -> Option<TypeData> {
        if (t.0 as int) < self.types.len() {
            Some(self.types[t.0 as int])
        } else {
            None
        }
    }

    /// The context with one more type, and that type.
    pub open spec fn with(self, d: TypeData) -> (Types, TypeId) {
        (Types { types: self.types.push(d), ..self }, TypeId(self.types.len() as usize))
    }

    /// The definition that a type is an instance of.
    pub open spec fn def_of(self, t: TypeId) -> Option<DefId> {
        match self.data(t) {
            Some(TypeData::Adt { kind, def_id, args }) => Some(def_id),
            _ => None,
        }
    }

    /// What a type has turned out to be after at most `n` steps.
    pub open spec fn bound(self, t: TypeId, n: nat) -> TypeId
        decreases n,
    {
        if n == 0 {
            t
        } else {
            match find_binding(self.bindings, t) {
                Some(u) => self.bound(u, (n - 1) as nat),
                None => t,
            }
        }
    }

    /// The context with a definition.
    pub open spec fn with_adt(self, d: DefId, def: AdtDef) -> Types {
        Types { adts: self.adts.cons((d, def)), ..self }
    }

    /// The context in which the definition has a drop.
    pub open spec fn with_drop(self, d: DefId) -> Types {
        match find_adt(self.adts, d) {
            Some(def) => self.with_adt(d, AdtDef { fields: def.fields, has_drop: true }),
            None => self,
        }
    }

    /// The context with one parameter index taken, and that index.
    pub open spec fn with_param(self) -> (Types, u64) {
        (
            Types {
                next_param: if self.next_param < u64::MAX {
                    (self.next_param + 1) as u64
                } else {
                    self.next_param
                },
                ..self
            },
            self.next_param,
        )
    }
}

/// The types of a program.
#[derive(Debug)]
pub struct TypeContext {
    pub types: Vec<TypeData>,
    pub adts: List<(DefId, AdtDef)>,
    pub bindings: List<(TypeId, TypeId)>,
    pub edition: Option<Edition>,
    pub next_param: u64,
}

impl View for TypeContext {
    type V = Types;

    open spec fn view(&self) -> Types {
        Types {
            types: self.types@,
            adts: self.adts,
            bindings: self.bindings,
            edition: self.edition,
            next_param: self.next_param,
        }
    }
}

impl TypeContext {
    /// The context of the basic types.
    pub fn new() -> (r: Self)
        ensures
            r@ == (Types {
                types: Types::basic(),
                adts: List::Nil,
                bindings: List::Nil,
                edition: None,
                next_param: 0,
            }),
    {
        let mut types: Vec<TypeData> = Vec::new();
        types.push(TypeData::Error);
        types.push(TypeData::Unit);
        types.push(TypeData::Never);
        types.push(TypeData::Bool);
        types.push(TypeData::Char);
        types.push(TypeData::Byte);
        types.push(TypeData::USize);
        assert(types@ =~= Types::basic());
        TypeContext { types, adts: List::Nil, bindings: List::Nil, edition: None, next_param: 0 }
    }

    /// Adds a type.
    pub fn allocate(&mut self, data: TypeData) -> (r: TypeId)
        ensures
            (final(self)@, r) == old(self)@.with(data),
    {
        let r = TypeId(self.types.len());
        self.types.push(data);
        r
    }

    /// What a type is.
    pub fn get(&self, t: TypeId) -> (r: Option<&TypeData>)
        ensures
            match r {
                Some(d) => self@.data(t) == Some(*d),
                None => self@.data(t) is None,
            },
    {
        if t.0 < self.types.len() {
            Some(&self.types[t.0])
        } else {
            None
        }
    }

    /// The definition that a type is an instance of.
    pub fn get_def_id_for_type(&self, t: TypeId) -> (r: Option<DefId>)
        ensures
            r == self@.def_of(t),
    {
        match self.get(t) {
            Some(TypeData::Adt { def_id, .. }) => Some(*def_id),
            _ => None,
        }
    }

    /// The fields of a definition.
    pub fn adt_def(&self, d: DefId) -> (r: Option<&AdtDef>)
        ensures
            match r {
                Some(def) => find_adt(self@.adts, d) == Some(*def),
                None => find_adt(self@.adts, d) is None,
            },
    {
        let mut cur = &self.adts;
        loop
            invariant
                find_adt(self.adts, d) == find_adt(*cur, d),
            decreases *cur,
        {
            match cur {
                List::Nil => {
                    return None;
                },
                List::Cons(link) => {
                    if link.head.0 == d {
                        return Some(&link.head.1);
                    }
                    cur = &link.tail;
                },
            }
        }
    }

    /// Records a definition.
    pub fn register_adt(&mut self, d: DefId, def: AdtDef)
        ensures
            final(self)@ == old(self)@.with_adt(d, def),
    {
        let adts = self.adts.clone();
        self.adts = adts.push((d, def));
    }

    /// Records that a definition has a drop.
    pub fn set_adt_has_drop(&mut self, d: DefId)
        ensures
            final(self)@ == old(self)@.with_drop(d),
    {
        let fields = match self.adt_def(d) {
            Some(def) => Some(def.fields.clone()),
            None => None,
        };
        if let Some(fields) = fields {
            self.register_adt(d, AdtDef { fields, has_drop: true });
        }
    }

    /// Records that a type has turned out to be another one.
    pub fn bind(&mut self, t: TypeId, u: TypeId)
        ensures
            final(self)@ == (Types { bindings: old(self)@.bindings.cons((t, u)), ..old(self)@ }),
    {
        let bindings = self.bindings.clone();
        self.bindings = bindings.push((t, u));
    }

    /// What a type has turned out to be. A cycle is given up after as many
    /// steps as there are types.
    pub fn resolve_binding(&self, t: TypeId) -> (r: TypeId)
        ensures
            r == self@.bound(t, self@.types.len()),
    {
        let mut cur = t;
        let mut n: usize = self.types.len();
        while n > 0
            invariant
                self@.bound(t, self@.types.len()) == self@.bound(cur, n as nat),
            decreases n,
        {
            match self.binding_of(cur) {
                Some(u) => {
                    cur = u;
                },
                None => {
                    return cur;
                },
            }
            n -= 1;
        }
        cur
    }

    fn binding_of(&self, t: TypeId) -> (r: Option<TypeId>)
        ensures
            r == find_binding(self@.bindings, t),
    {
        let mut cur = &self.bindings;
        loop
            invariant
                find_binding(self.bindings, t) == find_binding(*cur, t),
            decreases *cur,
        {
            match cur {
                List::Nil => {
                    return None;
                },
                List::Cons(link) => {
                    if link.head.0 == t {
                        return Some(link.head.1);
                    }
                    cur = &link.tail;
                },
            }
        }
    }

    /// A parameter index that was not used before.
    pub fn fresh_param_index(&mut self) -> (r: u64)
        ensures
            (final(self)@, r) == old(self)@.with_param(),
    {
        let r: u64 = self.next_param;
        if self.next_param < u64::MAX {
            self.next_param += 1;
        }
        r
    }

    /// Sets the edition.
    pub fn set_edition(&mut self, e: Edition)
        ensures
            final(self)@ == (Types { edition: Some(e), ..old(self)@ }),
    {
        self.edition = Some(e);
    }
}

} // verus!
