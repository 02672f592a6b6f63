//! Diagnostics of name resolution.
use crate::ast::Type;
use crate::list::List;
use crate::symbol::{Interner, Span, Symbol};
use std::rc::Rc;
use vstd::prelude::*;

verus! {

/// What is wrong.
#[derive(Debug)]
pub enum DiagKind {
    DuplicateVariable(Symbol),
    DuplicateFunction(Symbol),
    DuplicateType(Symbol),
    DuplicateTrait(Symbol),
    DuplicateConstraint(Symbol),
    /// A `when` constraint on a name that is no type parameter; the names
    /// that are.
    UnknownWhenParam(Symbol, List<Symbol>),
    /// The right side of a `when` constraint names a type parameter.
    WhenRefersToParam(Symbol),
    /// An `exists` variable has the name of a type parameter.
    ExistsShadows(Symbol),
    /// Two `when` constraints on one parameter exclude each other.
    Contradictory(Symbol, Rc<Type>, Rc<Type>),
    /// A default for an enum whose constraints involve its parameters.
    DefaultOnGeneric,
    EndianExpects(Symbol),
    EndianNeedsIdent,
    EndianNeedsArgument,
    BitOrderExpects(Symbol),
    BitOrderNeedsIdent,
    BitOrderNeedsArgument,
    /// The attribute with this name needs an integer, and has another
    /// argument or none.
    NeedsInteger(Symbol, bool),
    UnknownEdition(Rc<String>),
    DuplicateLayout(Symbol),
    NotTopLevel,
    CannotInfer,
    UndefinedName(Symbol),
    UnresolvedPath(List<Symbol>),
    UseUnitTuple,
    UndefinedType(List<Symbol>),
    GenericOnNonGeneric,
    TypeNotFound,
    ExpectedPath,
    ArraySize,
    CannotImport(List<Symbol>),
}

/// A diagnostic.
#[derive(Debug)]
pub struct Diagnostic {
    pub kind: DiagKind,
    pub span: Option<Span>,
}

// ---------------------------------------------------------------------------
// Texts
// ---------------------------------------------------------------------------

/// The text of a name; nothing for a name that is not in the table.
pub open spec fn shown(names: Seq<Seq<char>>, s: Symbol) -> Seq<char> {
    if s.0 < names.len() {
        names[s.0 as int]
    } else {
        Seq::empty()
    }
}

/// The texts of names, with a separator between them.
pub open spec fn joined(names: Seq<Seq<char>>, list: List<Symbol>, sep: Seq<char>) -> Seq<char>
    decreases list,
{
    match list {
        List::Nil => Seq::empty(),
        List::Cons(link) => match link.tail {
            List::Nil => shown(names, link.head),
            List::Cons(_) => shown(names, link.head) + sep + joined(names, link.tail, sep),
        },
    }
}

/// A text between two others.
pub open spec fn between(a: &str, m: Seq<char>, b: &str) -> Seq<char> {
    a@ + m + b@
}

fn push_shown(out: &mut String, names: &Interner, s: Symbol)
    ensures
        final(out)@ == old(out)@ + shown(names@, s),
{
    match names.text(s) {
        Some(t) => out.push_str(t.as_str()),
        None => {
            assert(out@ + Seq::<char>::empty() =~= out@);
        },
    }
}

fn push_joined(out: &mut String, names: &Interner, list: &List<Symbol>, sep: &str)
    ensures
        final(out)@ == old(out)@ + joined(names@, *list, sep@),
    decreases *list,
{
    match list {
        List::Nil => {
            assert(out@ + Seq::<char>::empty() =~= out@);
        },
        List::Cons(link) => {
            push_shown(out, names, link.head);
            if !link.tail.is_empty() {
                out.push_str(sep);
                push_joined(out, names, &link.tail, sep);
                assert(out@ =~= old(out)@ + joined(names@, *list, sep@));
            }
        },
    }
}

fn around(a: &str, names: &Interner, s: Symbol, b: &str) -> (r: String)
    ensures
        r@ == between(a, shown(names@, s), b),
{
    let mut out = String::new();
    out.push_str(a);
    push_shown(&mut out, names, s);
    out.push_str(b);
    assert(out@ =~= between(a, shown(names@, s), b));
    out
}

fn around_path(a: &str, names: &Interner, path: &List<Symbol>, b: &str) -> (r: String)
    ensures
        r@ == between(a, joined(names@, *path, "::"@), b),
{
    let mut out = String::new();
    out.push_str(a);
    push_joined(&mut out, names, path, "::");
    out.push_str(b);
    assert(out@ =~= between(a, joined(names@, *path, "::"@), b));
    out
}

fn plain(a: &str) -> (r: String)
    ensures
        r@ == a@,
{
    let mut out = String::new();
    out.push_str(a);
    assert(out@ =~= a@);
    out
}

impl Diagnostic {
    /// The code of a diagnostic, for those that have one.
    pub open spec fn code_text(self) -> Option<&'static str> {
        match self.kind {
            DiagKind::UnknownWhenParam(_, _) => Some("E062"),
            DiagKind::WhenRefersToParam(_) => Some("E064"),
            DiagKind::ExistsShadows(_) => Some("E063"),
            DiagKind::Contradictory(_, _, _) => Some("E065"),
            DiagKind::DefaultOnGeneric => Some("E061"),
            DiagKind::EndianExpects(_) => Some("E061"),
            DiagKind::EndianNeedsIdent => Some("E061"),
            DiagKind::EndianNeedsArgument => Some("E061"),
            DiagKind::BitOrderExpects(_) => Some("E061"),
            DiagKind::BitOrderNeedsIdent => Some("E061"),
            DiagKind::BitOrderNeedsArgument => Some("E061"),
            DiagKind::NeedsInteger(_, _) => Some("E060"),
            DiagKind::UnknownEdition(_) => Some("E070"),
            DiagKind::NotTopLevel => Some("E018"),
            DiagKind::UseUnitTuple => Some("E031"),
            _ => None,
        }
    }

    /// What is said of a diagnostic that is told by names alone. A
    /// contradiction also shows types, and a name that is bound twice is
    /// told by the table that it is bound in.
    pub open spec fn message_text(self, names: Seq<Seq<char>>) -> Option<Seq<char>> {
        match self.kind {
            DiagKind::UnknownWhenParam(n, _) => Some(
                between(
                    "unknown type parameter `",
                    shown(names, n),
                    "` in GADT `when` constraint",
                ),
            ),
            DiagKind::WhenRefersToParam(n) => Some(
                between(
                    "GADT `when` constraint right-hand side references type parameter `",
                    shown(names, n),
                    "` of the same enum",
                ),
            ),
            DiagKind::ExistsShadows(n) => Some(
                between("`exists ", shown(names, n), "` shadows enum type parameter `") + shown(
                    names,
                    n,
                ) + "`"@,
            ),
            DiagKind::DefaultOnGeneric => Some(
                "GADT enum with generic type parameters cannot have a `with default` clause"@,
            ),
            DiagKind::EndianExpects(n) => Some(
                between("`@endian` expects `little` or `big`, got `", shown(names, n), "`"),
            ),
            DiagKind::EndianNeedsIdent => Some(
                "`@endian` requires an identifier argument (`little` or `big`)"@,
            ),
            DiagKind::EndianNeedsArgument => Some("`@endian` requires an argument"@),
            DiagKind::BitOrderExpects(n) => Some(
                between(
                    "`@bit_order` expects `lsb_to_msb` or `msb_to_lsb`, got `",
                    shown(names, n),
                    "`",
                ),
            ),
            DiagKind::BitOrderNeedsIdent => Some(
                "`@bit_order` requires an identifier argument"@,
            ),
            DiagKind::BitOrderNeedsArgument => Some("`@bit_order` requires an argument"@),
            DiagKind::NeedsInteger(n, _) => Some(
                between("`@", shown(names, n), "` requires an integer argument"),
            ),
            DiagKind::UnknownEdition(v) => Some(between("unknown edition `", v@, "`")),
            DiagKind::DuplicateLayout(n) => Some(
                between("duplicate layout alias `", shown(names, n), "`"),
            ),
            DiagKind::NotTopLevel => Some(
                "`set` and `let` statements are not allowed at the top level; only declarations (`def`, `type`, `trait`, `import`, `impl`, `constraint`, `comptime`, `extern`, `edition`) are permitted here"@,
            ),
            DiagKind::CannotInfer => Some("cannot infer type without initializer"@),
            DiagKind::UndefinedName(n) => Some(between("undefined name: ", shown(names, n), "")),
            DiagKind::UnresolvedPath(p) => Some(
                between("unresolved path: ", joined(names, p, "::"@), ""),
            ),
            DiagKind::UseUnitTuple => Some("use `()` instead of `Unit`"@),
            DiagKind::UndefinedType(p) => Some(
                between("undefined type: ", joined(names, p, "::"@), ""),
            ),
            DiagKind::GenericOnNonGeneric => Some("generic type arguments on non-generic type"@),
            DiagKind::TypeNotFound => Some("type definition not found"@),
            DiagKind::ExpectedPath => Some("expected a path type for generic base"@),
            DiagKind::ArraySize => Some("array size must be a compile-time constant integer"@),
            DiagKind::CannotImport(p) => Some(
                between("cannot resolve import `", joined(names, p, "::"@), "`"),
            ),
            _ => None,
        }
    }

    /// What helps against a diagnostic.
    pub open spec fn help_text(self, names: Seq<Seq<char>>) -> Option<Seq<char>> {
        match self.kind {
            DiagKind::UnknownWhenParam(n, known) => Some(
                between(
                    "`",
                    shown(names, n),
                    "` is not a type parameter of this enum or an `exists` variable in this variant; use one of: ",
                ) + joined(names, known, ", "@),
            ),
            DiagKind::WhenRefersToParam(_) => Some(
                "the right-hand side of `when` must be a concrete type or an `exists` variable, not another type parameter of this enum"@,
            ),
            DiagKind::ExistsShadows(_) => Some(
                "rename the `exists` variable or the type parameter"@,
            ),
            DiagKind::Contradictory(_, _, _) => Some(
                "the same type parameter is constrained to two different concrete types; make the constraints consistent"@,
            ),
            DiagKind::DefaultOnGeneric => Some(
                "a GADT enum's type parameters are constrained by `when` clauses, so a single default value cannot satisfy all variants"@,
            ),
            DiagKind::UseUnitTuple => Some(
                "Posita uses `()` (empty tuple) to express the unit type"@,
            ),
            _ => None,
        }
    }

    /// What to write in place of what is wrong.
    pub open spec fn suggestion_text(self, names: Seq<Seq<char>>) -> Option<Seq<char>> {
        match self.kind {
            DiagKind::DefaultOnGeneric => Some(
                "remove the `with default` clause, or make the enum non-generic"@,
            ),
            DiagKind::EndianExpects(_) => Some("write `@endian(little)` or `@endian(big)`"@),
            DiagKind::EndianNeedsIdent => Some("write `@endian(little)` or `@endian(big)`"@),
            DiagKind::EndianNeedsArgument => Some("write `@endian(little)` or `@endian(big)`"@),
            DiagKind::BitOrderExpects(_) => Some(
                "write `@bit_order(lsb_to_msb)` or `@bit_order(msb_to_lsb)`"@,
            ),
            DiagKind::BitOrderNeedsIdent => Some(
                "write `@bit_order(lsb_to_msb)` or `@bit_order(msb_to_lsb)`"@,
            ),
            DiagKind::BitOrderNeedsArgument => Some(
                "write `@bit_order(lsb_to_msb)` or `@bit_order(msb_to_lsb)`"@,
            ),
            DiagKind::NeedsInteger(n, has_argument) => Some(
                if has_argument {
                    between("write `@", shown(names, n), "(N)` where N is a power of two")
                } else {
                    between("write `@", shown(names, n), "(128)`")
                },
            ),
            DiagKind::UnknownEdition(_) => Some(
                "use a valid edition: `\"2024\"` or `\"2026\"`"@,
            ),
            DiagKind::UseUnitTuple => Some("replace `Unit` with `()`"@),
            _ => None,
        }
    }

    /// What is said of two constraints that exclude each other, with the
    /// types as they are shown.
    pub open spec fn contradiction_text(
        names: Seq<Seq<char>>,
        n: Symbol,
        left: Seq<char>,
        right: Seq<char>,
    ) -> Seq<char> {
        between("GADT `when` constraints on `", shown(names, n), "` are contradictory (") + left
            + " vs "@ + right + "); the variant cannot be constructed at any instantiation"@
    }

    /// The code, for diagnostics that have one.
    pub fn code(&self) -> (r: Option<&'static str>)
        ensures
            match r {
                Some(c) => self.code_text() is Some && c@ == self.code_text()->0@,
                None => self.code_text() is None,
            },
    {
        match &self.kind {
            DiagKind::UnknownWhenParam(_, _) => Some("E062"),
            DiagKind::WhenRefersToParam(_) => Some("E064"),
            DiagKind::ExistsShadows(_) => Some("E063"),
            DiagKind::Contradictory(_, _, _) => Some("E065"),
            DiagKind::DefaultOnGeneric => Some("E061"),
            DiagKind::EndianExpects(_) => Some("E061"),
            DiagKind::EndianNeedsIdent => Some("E061"),
            DiagKind::EndianNeedsArgument => Some("E061"),
            DiagKind::BitOrderExpects(_) => Some("E061"),
            DiagKind::BitOrderNeedsIdent => Some("E061"),
            DiagKind::BitOrderNeedsArgument => Some("E061"),
            DiagKind::NeedsInteger(_, _) => Some("E060"),
            DiagKind::UnknownEdition(_) => Some("E070"),
            DiagKind::NotTopLevel => Some("E018"),
            DiagKind::UseUnitTuple => Some("E031"),
            _ => None,
        }
    }

    /// What is said, for diagnostics that names alone tell of.
    pub fn message(&self, names: &Interner) -> (r: Option<String>)
        ensures
            match r {
                Some(t) => self.message_text(names@) == Some(t@),
                None => self.message_text(names@) is None,
            },
    {
        match &self.kind {
            DiagKind::UnknownWhenParam(n, _) => Some(
                around(
                    "unknown type parameter `",
                    names,
                    *n,
                    "` in GADT `when` constraint",
                ),
            ),
            DiagKind::WhenRefersToParam(n) => Some(
                around(
                    "GADT `when` constraint right-hand side references type parameter `",
                    names,
                    *n,
                    "` of the same enum",
                ),
            ),
            DiagKind::ExistsShadows(n) => {
                let mut out = around(
                    "`exists ",
                    names,
                    *n,
                    "` shadows enum type parameter `",
                );
                push_shown(&mut out, names, *n);
                out.push_str("`");
                Some(out)
            },
            DiagKind::DefaultOnGeneric => Some(
                plain("GADT enum with generic type parameters cannot have a `with default` clause"),
            ),
            DiagKind::EndianExpects(n) => Some(
                around(
                    "`@endian` expects `little` or `big`, got `",
                    names,
                    *n,
                    "`",
                ),
            ),
            DiagKind::EndianNeedsIdent => Some(
                plain("`@endian` requires an identifier argument (`little` or `big`)"),
            ),
            DiagKind::EndianNeedsArgument => Some(plain("`@endian` requires an argument")),
            DiagKind::BitOrderExpects(n) => Some(
                around(
                    "`@bit_order` expects `lsb_to_msb` or `msb_to_lsb`, got `",
                    names,
                    *n,
                    "`",
                ),
            ),
            DiagKind::BitOrderNeedsIdent => Some(
                plain("`@bit_order` requires an identifier argument"),
            ),
            DiagKind::BitOrderNeedsArgument => Some(plain("`@bit_order` requires an argument")),
            DiagKind::NeedsInteger(n, _) => Some(
                around(
                    "`@",
                    names,
                    *n,
                    "` requires an integer argument",
                ),
            ),
            DiagKind::UnknownEdition(v) => {
                let mut out = plain("unknown edition `");
                out.push_str(v.as_str());
                out.push_str("`");
                Some(out)
            },
            DiagKind::DuplicateLayout(n) => Some(
                around(
                    "duplicate layout alias `",
                    names,
                    *n,
                    "`",
                ),
            ),
            DiagKind::NotTopLevel => Some(
                plain("`set` and `let` statements are not allowed at the top level; only declarations (`def`, `type`, `trait`, `import`, `impl`, `constraint`, `comptime`, `extern`, `edition`) are permitted here"),
            ),
            DiagKind::CannotInfer => Some(plain("cannot infer type without initializer")),
            DiagKind::UndefinedName(n) => Some(around("undefined name: ", names, *n, "")),
            DiagKind::UnresolvedPath(p) => Some(
                around_path("unresolved path: ", names, p, ""),
            ),
            DiagKind::UseUnitTuple => Some(plain("use `()` instead of `Unit`")),
            DiagKind::UndefinedType(p) => Some(
                around_path("undefined type: ", names, p, ""),
            ),
            DiagKind::GenericOnNonGeneric => Some(plain("generic type arguments on non-generic type")),
            DiagKind::TypeNotFound => Some(plain("type definition not found")),
            DiagKind::ExpectedPath => Some(plain("expected a path type for generic base")),
            DiagKind::ArraySize => Some(plain("array size must be a compile-time constant integer")),
            DiagKind::CannotImport(p) => Some(
                around_path("cannot resolve import `", names, p, "`"),
            ),
            _ => None,
        }
    }

    /// What helps, where something is said of that.
    pub fn help(&self, names: &Interner) -> (r: Option<String>)
        ensures
            match r {
                Some(t) => self.help_text(names@) == Some(t@),
                None => self.help_text(names@) is None,
            },
    {
        match &self.kind {
            DiagKind::UnknownWhenParam(n, known) => {
                let mut out = around(
                    "`",
                    names,
                    *n,
                    "` is not a type parameter of this enum or an `exists` variable in this variant; use one of: ",
                );
                push_joined(&mut out, names, known, ", ");
                Some(out)
            },
            DiagKind::WhenRefersToParam(_) => Some(
                plain("the right-hand side of `when` must be a concrete type or an `exists` variable, not another type parameter of this enum"),
            ),
            DiagKind::ExistsShadows(_) => Some(
                plain("rename the `exists` variable or the type parameter"),
            ),
            DiagKind::Contradictory(_, _, _) => Some(
                plain("the same type parameter is constrained to two different concrete types; make the constraints consistent"),
            ),
            DiagKind::DefaultOnGeneric => Some(
                plain("a GADT enum's type parameters are constrained by `when` clauses, so a single default value cannot satisfy all variants"),
            ),
            DiagKind::UseUnitTuple => Some(
                plain("Posita uses `()` (empty tuple) to express the unit type"),
            ),
            _ => None,
        }
    }

    /// What to write instead, where that is known.
    pub fn suggestion(&self, names: &Interner) -> (r: Option<String>)
        ensures
            match r {
                Some(t) => self.suggestion_text(names@) == Some(t@),
                None => self.suggestion_text(names@) is None,
            },
    {
        match &self.kind {
            DiagKind::DefaultOnGeneric => Some(
                plain("remove the `with default` clause, or make the enum non-generic"),
            ),
            DiagKind::EndianExpects(_) => Some(plain("write `@endian(little)` or `@endian(big)`")),
            DiagKind::EndianNeedsIdent => Some(plain("write `@endian(little)` or `@endian(big)`")),
            DiagKind::EndianNeedsArgument => Some(plain("write `@endian(little)` or `@endian(big)`")),
            DiagKind::BitOrderExpects(_) => Some(
                plain("write `@bit_order(lsb_to_msb)` or `@bit_order(msb_to_lsb)`"),
            ),
            DiagKind::BitOrderNeedsIdent => Some(
                plain("write `@bit_order(lsb_to_msb)` or `@bit_order(msb_to_lsb)`"),
            ),
            DiagKind::BitOrderNeedsArgument => Some(
                plain("write `@bit_order(lsb_to_msb)` or `@bit_order(msb_to_lsb)`"),
            ),
            DiagKind::NeedsInteger(n, has_argument) => Some(
                if *has_argument {
                    around("write `@", names, *n, "(N)` where N is a power of two")
                } else {
                    around("write `@", names, *n, "(128)`")
                },
            ),
            DiagKind::UnknownEdition(_) => Some(
                plain("use a valid edition: `\"2024\"` or `\"2026\"`"),
            ),
            DiagKind::UseUnitTuple => Some(plain("replace `Unit` with `()`")),
            _ => None,
        }
    }

    /// What is said of two constraints that exclude each other.
    pub fn contradiction(names: &Interner, n: Symbol, left: &str, right: &str) -> (r: String)
        ensures
            r@ == Diagnostic::contradiction_text(names@, n, left@, right@),
    {
        let mut out = around("GADT `when` constraints on `", names, n, "` are contradictory (");
        out.push_str(left);
        out.push_str(" vs ");
        out.push_str(right);
        out.push_str("); the variant cannot be constructed at any instantiation");
        out
    }
}

} // verus!
