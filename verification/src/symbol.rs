//! Interned names and source positions.
use vstd::prelude::*;

verus! {

/// An interned name.
#[derive(Clone, Copy, Debug, PartialEq, Eq, Structural)]
pub struct Symbol(pub u32);

impl Symbol {
    /// The number that stands for the name.
    pub fn to_u32(self) -> (r: u32)
        ensures
            r == self.0,
    {
        self.0
    }
}

/// A range of source positions.
#[derive(Clone, Copy, Debug, PartialEq, Eq, Structural)]
pub struct Span {
    pub start: usize,
    pub end: usize,
}

impl Span {
    pub fn new(start: usize, end: usize) -> (r: Self)
        ensures
            r == (Span { start, end }),
    {
        Span { start, end }
    }
}

/// The name `<internal>`.
pub const INTERNAL: u32 = 0;

/// The name `<region>`.
pub const REGION: u32 = 1;

/// The name `Self`.
pub const SELF_TYPE: u32 = 2;

/// The name `self`.
pub const SELF_VALUE: u32 = 3;

/// The name `main`.
pub const MAIN: u32 = 4;

/// The name `result`.
pub const RESULT: u32 = 5;

/// The name `value`.
pub const VALUE: u32 = 6;

/// The name `Drop`.
pub const DROP: u32 = 7;

/// The name `Bool`.
pub const BOOL: u32 = 8;

/// The name `Char`.
pub const CHAR: u32 = 9;

/// The name `Byte`.
pub const BYTE: u32 = 10;

/// The name `USize`.
pub const USIZE: u32 = 11;

/// The name `Unit`.
pub const UNIT: u32 = 12;

/// The name `Never`.
pub const NEVER: u32 = 13;

/// The name `Int`.
pub const INT: u32 = 14;

/// The name `UInt`.
pub const UINT: u32 = 15;

/// The name `Float`.
pub const FLOAT: u32 = 16;

/// The name `Rational`.
pub const RATIONAL: u32 = 17;

/// The name `Ptr`.
pub const PTR: u32 = 18;

/// The name `pure`.
pub const PURE: u32 = 19;

/// The name `ieee_contracts`.
pub const IEEE_CONTRACTS: u32 = 20;

/// The name `hint`.
pub const HINT: u32 = 21;

/// The name `exhaustive`.
pub const EXHAUSTIVE: u32 = 22;

/// The name `layout`.
pub const LAYOUT: u32 = 23;

/// The name `C`.
pub const LAYOUT_C: u32 = 24;

/// The name `transparent`.
pub const TRANSPARENT: u32 = 25;

/// The name `packed`.
pub const PACKED: u32 = 26;

/// The name `endian`.
pub const ENDIAN: u32 = 27;

/// The name `little`.
pub const LITTLE: u32 = 28;

/// The name `big`.
pub const BIG: u32 = 29;

/// The name `bit_order`.
pub const BIT_ORDER: u32 = 30;

/// The name `lsb_to_msb`.
pub const LSB_TO_MSB: u32 = 31;

/// The name `msb_to_lsb`.
pub const MSB_TO_LSB: u32 = 32;

/// The name `align`.
pub const ALIGN: u32 = 33;

/// The name `pad`.
pub const PAD: u32 = 34;

/// The name `auto_deref`.
pub const AUTO_DEREF: u32 = 35;

/// The texts of the names, by number.
#[derive(Debug)]
pub struct Interner {
    names: Vec<String>,
}

impl View for Interner {
    type V = Seq<Seq<char>>;

    closed spec fn view(&self) -> Seq<Seq<char>> {
        self.names@.map_values(|s: String| s@)
    }
}

/// The first name with this text, if there is one.
pub open spec fn first_named(names: Seq<Seq<char>>, text: Seq<char>, n: int) -> Option<int>
    decreases n,
{
    if n <= 0 {
        None
    } else {
        match first_named(names, text, n - 1) {
            Some(k) => Some(k),
            None => if names[n - 1] == text {
                Some(n - 1)
            } else {
                None
            },
        }
    }
}

/// The texts with this one in them, and its name.
pub open spec fn interned(names: Seq<Seq<char>>, text: Seq<char>) -> (Seq<Seq<char>>, Symbol) {
    match first_named(names, text, names.len() as int) {
        Some(k) => (names, Symbol(k as u32)),
        None => (names.push(text), Symbol(names.len() as u32)),
    }
}

impl Interner {
    /// The names that the analyses know.
    pub open spec fn well_known(names: Seq<Seq<char>>) -> bool {
        &&& names.len() >= 36
        &&& names[INTERNAL as int] == "<internal>"@
        &&& names[REGION as int] == "<region>"@
        &&& names[SELF_TYPE as int] == "Self"@
        &&& names[SELF_VALUE as int] == "self"@
        &&& names[MAIN as int] == "main"@
        &&& names[RESULT as int] == "result"@
        &&& names[VALUE as int] == "value"@
        &&& names[DROP as int] == "Drop"@
        &&& names[BOOL as int] == "Bool"@
        &&& names[CHAR as int] == "Char"@
        &&& names[BYTE as int] == "Byte"@
        &&& names[USIZE as int] == "USize"@
        &&& names[UNIT as int] == "Unit"@
        &&& names[NEVER as int] == "Never"@
        &&& names[INT as int] == "Int"@
        &&& names[UINT as int] == "UInt"@
        &&& names[FLOAT as int] == "Float"@
        &&& names[RATIONAL as int] == "Rational"@
        &&& names[PTR as int] == "Ptr"@
        &&& names[PURE as int] == "pure"@
        &&& names[IEEE_CONTRACTS as int] == "ieee_contracts"@
        &&& names[HINT as int] == "hint"@
        &&& names[EXHAUSTIVE as int] == "exhaustive"@
        &&& names[LAYOUT as int] == "layout"@
        &&& names[LAYOUT_C as int] == "C"@
        &&& names[TRANSPARENT as int] == "transparent"@
        &&& names[PACKED as int] == "packed"@
        &&& names[ENDIAN as int] == "endian"@
        &&& names[LITTLE as int] == "little"@
        &&& names[BIG as int] == "big"@
        &&& names[BIT_ORDER as int] == "bit_order"@
        &&& names[LSB_TO_MSB as int] == "lsb_to_msb"@
        &&& names[MSB_TO_LSB as int] == "msb_to_lsb"@
        &&& names[ALIGN as int] == "align"@
        &&& names[PAD as int] == "pad"@
        &&& names[AUTO_DEREF as int] == "auto_deref"@
    }

    /// The table of the names that the analyses know.
    pub fn new() -> (r: Self)
        ensures
            Interner::well_known(r@),
            r@.len() == 36,
    {
        let mut names: Vec<String> = Vec::new();
        names.push("<internal>".to_owned());
        names.push("<region>".to_owned());
        names.push("Self".to_owned());
        names.push("self".to_owned());
        names.push("main".to_owned());
        names.push("result".to_owned());
        names.push("value".to_owned());
        names.push("Drop".to_owned());
        names.push("Bool".to_owned());
        names.push("Char".to_owned());
        names.push("Byte".to_owned());
        names.push("USize".to_owned());
        names.push("Unit".to_owned());
        names.push("Never".to_owned());
        names.push("Int".to_owned());
        names.push("UInt".to_owned());
        names.push("Float".to_owned());
        names.push("Rational".to_owned());
        names.push("Ptr".to_owned());
        names.push("pure".to_owned());
        names.push("ieee_contracts".to_owned());
        names.push("hint".to_owned());
        names.push("exhaustive".to_owned());
        names.push("layout".to_owned());
        names.push("C".to_owned());
        names.push("transparent".to_owned());
        names.push("packed".to_owned());
        names.push("endian".to_owned());
        names.push("little".to_owned());
        names.push("big".to_owned());
        names.push("bit_order".to_owned());
        names.push("lsb_to_msb".to_owned());
        names.push("msb_to_lsb".to_owned());
        names.push("align".to_owned());
        names.push("pad".to_owned());
        names.push("auto_deref".to_owned());
        Interner { names }
    }

    /// The name of a text; a new one if the text has none.
    pub fn intern(&mut self, text: String) -> (r: Symbol)
        requires
            old(self)@.len() < u32::MAX,
        ensures
            (final(self)@, r) == interned(old(self)@, text@),
    {
        let ghost all = self@;
        let mut i: usize = 0;
        while i < self.names.len()
            invariant
                0 <= i <= self.names@.len(),
                self@ == all,
                *self == *old(self),
                all.len() == self.names@.len(),
                all.len() < u32::MAX,
                first_named(all, text@, i as int) is None,
            decreases self.names.len() - i,
        {
            assert(all[i as int] == self.names@[i as int]@);
            if self.names[i] == text {
                proof {
                    lemma_first_named(all, text@, i + 1, all.len() as int);
                }
                return Symbol(i as u32);
            }
            i += 1;
        }
        self.names.push(text);
        assert(self@ =~= all.push(text@));
        Symbol(i as u32)
    }

    /// The text of a name.
    pub fn text(&self, s: Symbol) -> (r: Option<&String>)
        ensures
            match r {
                Some(t) => (s.0 as int) < self@.len() && t@ == self@[s.0 as int],
                None => s.0 >= self@.len(),
            },
    {
        if (s.0 as usize) < self.names.len() {
            Some(&self.names[s.0 as usize])
        } else {
            None
        }
    }
}

proof fn lemma_first_named(names: Seq<Seq<char>>, text: Seq<char>, k: int, n: int)
    requires
        k <= n,
        first_named(names, text, k) is Some,
    ensures
        first_named(names, text, n) == first_named(names, text, k),
    decreases n - k,
{
    if k < n {
        lemma_first_named(names, text, k, n - 1);
    }
}

pub proof fn lemma_first_named_is(names: Seq<Seq<char>>, text: Seq<char>, n: int)
    requires
        0 <= n <= names.len(),
    ensures
        first_named(names, text, n) matches Some(k) ==> 0 <= k < n && names[k] == text,
        first_named(names, text, n) is None ==> forall|k: int| 0 <= k < n ==> names[k] != text,
    decreases n,
{
    if n > 0 {
        lemma_first_named_is(names, text, n - 1);
    }
}

/// The name of a text stands for that text.
pub proof fn law_interned_text(names: Seq<Seq<char>>, text: Seq<char>)
    requires
        names.len() < u32::MAX,
    ensures
        interned(names, text).0[interned(names, text).1.0 as int] == text,
{
    lemma_first_named_is(names, text, names.len() as int);
}

/// Interning a text again gives the same name, whatever came between.
pub proof fn law_interning_is_stable(
    names: Seq<Seq<char>>,
    text: Seq<char>,
    more: Seq<Seq<char>>,
)
    requires
        names.len() < u32::MAX,
    ensures
        interned(interned(names, text).0 + more, text) == (
            interned(names, text).0 + more,
            interned(names, text).1,
        ),
{
    let (t, s) = interned(names, text);
    lemma_first_named_is(names, text, names.len() as int);
    let all = t + more;
    let k = first_named(names, text, names.len() as int);
    if k is Some {
        lemma_first_named_prefix(names, all, text, names.len() as int);
        lemma_first_named(all, text, names.len() as int, all.len() as int);
    } else {
        lemma_first_named_prefix(names, all, text, names.len() as int);
        let n = names.len() as int;
        assert(all[n] == text);
        assert(first_named(all, text, n + 1) == Some(n));
        lemma_first_named(all, text, n + 1, all.len() as int);
    }
}

proof fn lemma_first_named_prefix(
    names: Seq<Seq<char>>,
    all: Seq<Seq<char>>,
    text: Seq<char>,
    n: int,
)
    requires
        0 <= n <= names.len() <= all.len(),
        forall|k: int| 0 <= k < names.len() ==> all[k] == names[k],
    ensures
        first_named(all, text, n) == first_named(names, text, n),
    decreases n,
{
    if n > 0 {
        lemma_first_named_prefix(names, all, text, n - 1);
    }
}

} // verus!
