//! Borrow signatures of functions.
use super::input::SignatureFacts;
use crate::ast;
use crate::gather;
use crate::list::List;
use crate::symbol;
use crate::symbol::Symbol;
use crate::types;
use crate::types::{TypeContext, TypeData, TypeId, Types};
use vstd::prelude::*;

verus! {

/// The references among the parameters of a function and in what it returns.
#[derive(Debug)]
pub struct BorrowSignature {
    /// The reference parameters and whether each is mutable.
    pub input_borrows: Vec<(Symbol, bool)>,
    /// The explicit lifetimes of the reference parameters.
    pub input_lifetimes: Vec<Option<Symbol>>,
    /// The references that are returned.
    pub output_borrows: Vec<Symbol>,
}

impl Default for BorrowSignature {
    fn default() -> (r: Self)
        ensures
            r.input_borrows@.len() == 0,
            r.input_lifetimes@.len() == 0,
            r.output_borrows@.len() == 0,
    {
        BorrowSignature {
            input_borrows: Vec::new(),
            input_lifetimes: Vec::new(),
            output_borrows: Vec::new(),
        }
    }
}

impl BorrowSignature {
    /// The explicit lifetime of the input `i`.
    pub open spec fn lifetime(self, i: int) -> Option<Symbol> {
        if 0 <= i < self.input_lifetimes@.len() {
            self.input_lifetimes@[i]
        } else {
            None
        }
    }

    /// An earlier input with the same explicit lifetime.
    pub open spec fn earlier_twin(self, i: int, n: int) -> Option<int>
        decreases n,
    {
        if n <= 0 {
            None
        } else {
            match self.earlier_twin(i, n - 1) {
                Some(k) => Some(k),
                None => if self.lifetime(i) is Some && self.lifetime(n - 1) == self.lifetime(i) {
                    Some(n - 1)
                } else {
                    None
                },
            }
        }
    }

    /// The number of origins of the first `n` inputs: one for each explicit
    /// lifetime and one for each input without.
    pub open spec fn origins(self, n: int) -> int
        decreases n,
    {
        if n <= 0 {
            0
        } else {
            self.origins(n - 1) + (if self.earlier_twin(n - 1, n - 1) is Some {
                0int
            } else {
                1
            })
        }
    }

    /// The origin of the input `i`: that of the first input with its
    /// lifetime, or the next one.
    pub open spec fn origin(self, i: int) -> int {
        match self.earlier_twin(i, i) {
            Some(k) => self.origins(k),
            None => self.origins(i),
        }
    }

    /// The number of inputs.
    pub open spec fn inputs(self) -> int {
        self.input_borrows@.len() as int
    }

    /// The origins of the inputs, then those of the outputs.
    pub open spec fn regions(self) -> Seq<u32> {
        Seq::new(self.input_borrows@.len(), |i: int| self.origin(i) as u32) + Seq::new(
            self.output_borrows@.len(),
            |k: int| (self.origins(self.inputs()) + k) as u32,
        )
    }

    /// From the input to each output.
    pub open spec fn flows_from(self, i: int) -> Seq<(u32, u32)> {
        Seq::new(
            self.output_borrows@.len(),
            |k: int| (self.origin(i) as u32, (self.origins(self.inputs()) + k) as u32),
        )
    }

    /// From each input that an output can derive from to each output.
    pub open spec fn flows(self, deriving: Seq<usize>) -> spec_fn(int) -> Seq<(u32, u32)> {
        |i: int|
            if deriving.contains(i as usize) {
                self.flows_from(i)
            } else {
                Seq::empty()
            }
    }
}

/// The list holds the number.
fn holds_index(list: &Vec<usize>, x: usize) -> (r: bool)
    ensures
        r == list@.contains(x),
{
    let mut i: usize = 0;
    while i < list.len()
        invariant
            0 <= i <= list@.len(),
            forall|k: int| 0 <= k < i ==> list@[k] != x,
        decreases list.len() - i,
    {
        if list[i] == x {
            return true;
        }
        i += 1;
    }
    false
}

fn lifetime_at(sig: &BorrowSignature, i: usize) -> (r: Option<Symbol>)
    ensures
        r == sig.lifetime(i as int),
{
    if i < sig.input_lifetimes.len() {
        sig.input_lifetimes[i]
    } else {
        None
    }
}

fn find_twin(sig: &BorrowSignature, i: usize) -> (r: Option<usize>)
    ensures
        match r {
            Some(k) => k < i && sig.earlier_twin(i as int, i as int) == Some(k as int),
            None => sig.earlier_twin(i as int, i as int) is None,
        },
{
    let lt = lifetime_at(sig, i);
    let mut k: usize = 0;
    while k < i
        invariant
            k <= i,
            lt == sig.lifetime(i as int),
            sig.earlier_twin(i as int, k as int) is None,
        decreases i - k,
    {
        if lt.is_some() && lifetime_at(sig, k) == lt {
            proof {
                lemma_twin(*sig, i as int, k + 1, i as int);
            }
            return Some(k);
        }
        k += 1;
    }
    None
}

proof fn lemma_twin(sig: BorrowSignature, i: int, k: int, n: int)
    requires
        k <= n,
        sig.earlier_twin(i, k) is Some,
    ensures
        sig.earlier_twin(i, n) == sig.earlier_twin(i, k),
    decreases n - k,
{
    if k < n {
        lemma_twin(sig, i, k, n - 1);
    }
}

/// An earliest twin has no earlier twin itself.
proof fn lemma_twin_is_first(sig: BorrowSignature, i: int, n: int)
    requires
        0 <= n,
        sig.earlier_twin(i, n) is Some,
    ensures
        0 <= sig.earlier_twin(i, n)->0 < n,
        sig.lifetime(i) is Some,
        sig.lifetime(sig.earlier_twin(i, n)->0) == sig.lifetime(i),
        sig.earlier_twin(sig.earlier_twin(i, n)->0, sig.earlier_twin(i, n)->0) is None,
    decreases n,
{
    if n > 0 {
        if sig.earlier_twin(i, n - 1) is Some {
            lemma_twin_is_first(sig, i, n - 1);
        } else {
            lemma_same_twins(sig, i, n - 1, n - 1);
        }
    }
}

proof fn lemma_same_twins(sig: BorrowSignature, i: int, j: int, n: int)
    requires
        sig.lifetime(i) == sig.lifetime(j),
    ensures
        sig.earlier_twin(i, n) == sig.earlier_twin(j, n),
    decreases n,
{
    if n > 0 {
        lemma_same_twins(sig, i, j, n - 1);
    }
}

proof fn lemma_origins_bounded(sig: BorrowSignature, n: int)
    requires
        0 <= n,
    ensures
        0 <= sig.origins(n) <= n,
    decreases n,
{
    if n > 0 {
        lemma_origins_bounded(sig, n - 1);
    }
}

/// The placeholder origins of a signature and the declared flows between
/// them: inputs with one explicit lifetime share an origin, and the inputs
/// that an output can derive from flow into every output.
pub fn signature_facts(sig: &BorrowSignature, deriving: &Vec<usize>) -> (r: SignatureFacts)
    requires
        sig.input_borrows@.len() + sig.output_borrows@.len() <= u32::MAX,
    ensures
        r.universal_region@ == sig.regions(),
        r.known_placeholder_subset@ == gather::concat(sig.flows(deriving@), sig.inputs()),
        r.input_borrow_mutable@ == sig.input_borrows@.map_values(|x: (Symbol, bool)| x.1),
{
    let n: usize = sig.input_borrows.len();
    let m: usize = sig.output_borrows.len();
    let mut universal: Vec<u32> = Vec::new();
    let mut mutable: Vec<bool> = Vec::new();
    let mut origins: Vec<u32> = Vec::new();
    let mut next: u32 = 0;
    let mut i: usize = 0;
    while i < n
        invariant
            n == sig.input_borrows@.len() <= u32::MAX,
            i <= n,
            next == sig.origins(i as int),
            next <= i,
            origins@.len() == i,
            universal@ == origins@,
            forall|k: int| 0 <= k < i ==> #[trigger] origins@[k] == sig.origin(k),
            mutable@ == sig.input_borrows@.take(i as int).map_values(|x: (Symbol, bool)| x.1),
        decreases n - i,
    {
        let origin: u32 = match find_twin(sig, i) {
            Some(k) => {
                proof {
                    lemma_twin_is_first(*sig, i as int, i as int);
                    assert(sig.origin(k as int) == sig.origins(k as int));
                    assert(origins@[k as int] == sig.origin(k as int));
                }
                origins[k]
            },
            None => {
                let o: u32 = next;
                next += 1;
                o
            },
        };
        assert(origin == sig.origin(i as int));
        universal.push(origin);
        origins.push(origin);
        mutable.push(sig.input_borrows[i].1);
        assert(mutable@ =~= sig.input_borrows@.take(i + 1).map_values(|x: (Symbol, bool)| x.1));
        i += 1;
    }
    assert(sig.input_borrows@.take(n as int) =~= sig.input_borrows@);
    proof {
        lemma_origins_bounded(*sig, n as int);
    }
    let mut k: usize = 0;
    while k < m
        invariant
            n == sig.input_borrows@.len(),
            m == sig.output_borrows@.len(),
            n + m <= u32::MAX,
            next == sig.origins(n as int),
            next <= n,
            k <= m,
            universal@.len() == n + k,
            forall|j: int| 0 <= j < n ==> #[trigger] universal@[j] == sig.origin(j),
            forall|j: int| n <= j < n + k ==> #[trigger] universal@[j] == next + (j - n),
        decreases m - k,
    {
        universal.push(next + k as u32);
        k += 1;
    }
    assert(universal@ =~= sig.regions());
    let mut known: Vec<(u32, u32)> = Vec::new();
    let ghost f = sig.flows(deriving@);
    let mut i: usize = 0;
    assert(known@ =~= gather::concat(f, 0));
    while i < n
        invariant
            n == sig.input_borrows@.len(),
            m == sig.output_borrows@.len(),
            n + m <= u32::MAX,
            next == sig.origins(n as int),
            next <= n,
            i <= n,
            origins@.len() == n,
            forall|k: int| 0 <= k < n ==> #[trigger] origins@[k] == sig.origin(k),
            f == sig.flows(deriving@),
            known@ == gather::concat(f, i as int),
        decreases n - i,
    {
        let o: u32 = origins[i];
        let derives = holds_index(deriving, i);
        let ghost start = known@;
        if derives {
            let mut k: usize = 0;
            assert(known@ =~= start + sig.flows_from(i as int).take(0));
            while k < m
                invariant
                    m == sig.output_borrows@.len(),
                    n == sig.input_borrows@.len(),
                    n + m <= u32::MAX,
                    next == sig.origins(n as int),
                    next <= n,
                    k <= m,
                    o == sig.origin(i as int),
                    known@ == start + sig.flows_from(i as int).take(k as int),
                decreases m - k,
            {
                known.push((o, next + k as u32));
                assert(known@ =~= start + sig.flows_from(i as int).take(k + 1));
                k += 1;
            }
            assert(sig.flows_from(i as int).take(m as int) =~= sig.flows_from(i as int));
        }
        assert(f(i as int) == (if deriving@.contains(i) {
            sig.flows_from(i as int)
        } else {
            Seq::empty()
        }));
        assert(known@ =~= gather::concat(f, i + 1));
        i += 1;
    }
    SignatureFacts {
        universal_region: universal,
        known_placeholder_subset: known,
        input_borrow_mutable: mutable,
    }
}

/// Inputs share an origin iff they are the same or have one explicit
/// lifetime.
pub proof fn law_lifetimes_share_origins(sig: BorrowSignature, i: int, j: int)
    requires
        0 <= i < j,
    ensures
        sig.origin(i) == sig.origin(j) <==> sig.lifetime(i) is Some && sig.lifetime(i)
            == sig.lifetime(j),
{
    let a = match sig.earlier_twin(i, i) {
        Some(k) => k,
        None => i,
    };
    let b = match sig.earlier_twin(j, j) {
        Some(k) => k,
        None => j,
    };
    if sig.earlier_twin(i, i) is Some {
        lemma_twin_is_first(sig, i, i);
    }
    if sig.earlier_twin(j, j) is Some {
        lemma_twin_is_first(sig, j, j);
    }
    assert(sig.origin(i) == sig.origins(a) && sig.earlier_twin(a, a) is None);
    assert(sig.origin(j) == sig.origins(b) && sig.earlier_twin(b, b) is None);
    if sig.lifetime(i) is Some && sig.lifetime(i) == sig.lifetime(j) {
        lemma_same_twins(sig, i, j, i);
        lemma_same_twins(sig, i, j, i + 1);
        if sig.earlier_twin(i, i) is Some {
            lemma_twin(sig, j, i, j);
        } else {
            assert(sig.earlier_twin(j, i + 1) == Some(i));
            lemma_twin(sig, j, i + 1, j);
        }
    } else {
        if a < b {
            lemma_origins_grow(sig, a, b);
        } else if b < a {
            lemma_origins_grow(sig, b, a);
        }
    }
}

/// An input without an earlier twin takes an origin of its own.
proof fn lemma_origins_grow(sig: BorrowSignature, a: int, b: int)
    requires
        0 <= a < b,
        sig.earlier_twin(a, a) is None,
    ensures
        sig.origins(a) < sig.origins(b),
    decreases b,
{
    if a + 1 < b {
        lemma_origins_grow(sig, a, b - 1);
    }
}

// ---------------------------------------------------------------------------
// Reference positions
// ---------------------------------------------------------------------------

/// The number of references in a return type, found in at most `fuel` steps
/// inwards.
pub open spec fn return_refs(ctx: Types, t: TypeId, fuel: nat) -> Option<nat>
    decreases fuel, 0nat, t,
{
    if fuel == 0 {
        None
    } else {
        match ctx.data(ctx.bound(t, ctx.types.len())) {
            Some(TypeData::Ref { ty, mutable, lifetime }) => Some(1),
            Some(TypeData::Tuple { elems }) => return_refs_all(ctx, elems, (fuel - 1) as nat),
            Some(TypeData::Array { elem, size }) => return_refs(ctx, elem, (fuel - 1) as nat),
            Some(TypeData::Slice { elem }) => return_refs(ctx, elem, (fuel - 1) as nat),
            Some(TypeData::Adt { kind, def_id, args }) => match types::find_adt(ctx.adts, def_id) {
                Some(def) => return_refs_fields(ctx, def.fields, args, (fuel - 1) as nat),
                None => Some(0),
            },
            _ => Some(0),
        }
    }
}

pub open spec fn sum(a: Option<nat>, b: Option<nat>) -> Option<nat> {
    match (a, b) {
        (Some(x), Some(y)) => Some(x + y),
        _ => None,
    }
}

pub open spec fn return_refs_all(ctx: Types, elems: List<TypeId>, fuel: nat) -> Option<nat>
    decreases fuel, 1nat, elems,
{
    match elems {
        List::Nil => Some(0),
        List::Cons(link) => sum(
            return_refs(ctx, link.head, fuel),
            return_refs_all(ctx, link.tail, fuel),
        ),
    }
}

/// The type of a field: for a type parameter, the argument that stands for
/// it.
pub open spec fn field_type(ctx: Types, field: TypeId, args: List<TypeId>) -> TypeId {
    match ctx.data(field) {
        Some(TypeData::GenericParam { index, name }) => if (index as int) < args@.len() {
            args@[index as int]
        } else {
            field
        },
        _ => field,
    }
}

pub open spec fn return_refs_fields(
    ctx: Types,
    fields: List<TypeId>,
    args: List<TypeId>,
    fuel: nat,
) -> Option<nat>
    decreases fuel, 1nat, fields,
{
    match fields {
        List::Nil => Some(0),
        List::Cons(link) => sum(
            return_refs(ctx, field_type(ctx, link.head, args), fuel),
            return_refs_fields(ctx, link.tail, args, fuel),
        ),
    }
}

/// More steps than are needed change nothing.
pub proof fn law_return_refs_unique(ctx: Types, t: TypeId, a: nat, b: nat)
    requires
        a <= b,
        return_refs(ctx, t, a) is Some,
    ensures
        return_refs(ctx, t, b) == return_refs(ctx, t, a),
    decreases a, 0nat, t,
{
    match ctx.data(ctx.bound(t, ctx.types.len())) {
        Some(TypeData::Tuple { elems }) => lemma_refs_all(
            ctx,
            elems,
            (a - 1) as nat,
            (b - 1) as nat,
        ),
        Some(TypeData::Array { elem, size }) => law_return_refs_unique(
            ctx,
            elem,
            (a - 1) as nat,
            (b - 1) as nat,
        ),
        Some(TypeData::Slice { elem }) => law_return_refs_unique(
            ctx,
            elem,
            (a - 1) as nat,
            (b - 1) as nat,
        ),
        Some(TypeData::Adt { kind, def_id, args }) => match types::find_adt(ctx.adts, def_id) {
            Some(def) => lemma_refs_fields(ctx, def.fields, args, (a - 1) as nat, (b - 1) as nat),
            None => {},
        },
        _ => {},
    }
}

proof fn lemma_refs_all(ctx: Types, elems: List<TypeId>, a: nat, b: nat)
    requires
        a <= b,
        return_refs_all(ctx, elems, a) is Some,
    ensures
        return_refs_all(ctx, elems, b) == return_refs_all(ctx, elems, a),
    decreases a, 1nat, elems,
{
    if elems is Cons {
        law_return_refs_unique(ctx, elems.first(), a, b);
        lemma_refs_all(ctx, elems.rest(), a, b);
    }
}

proof fn lemma_refs_fields(
    ctx: Types,
    fields: List<TypeId>,
    args: List<TypeId>,
    a: nat,
    b: nat,
)
    requires
        a <= b,
        return_refs_fields(ctx, fields, args, a) is Some,
    ensures
        return_refs_fields(ctx, fields, args, b) == return_refs_fields(ctx, fields, args, a),
    decreases a, 1nat, fields,
{
    if fields is Cons {
        law_return_refs_unique(ctx, field_type(ctx, fields.first(), args), a, b);
        lemma_refs_fields(ctx, fields.rest(), args, a, b);
    }
}

fn nth_arg(args: &List<TypeId>, n: usize) -> (r: Option<TypeId>)
    ensures
        match r {
            Some(t) => (n as int) < args@.len() && t == args@[n as int],
            None => n >= args@.len(),
        },
    decreases *args,
{
    match args {
        List::Nil => None,
        List::Cons(link) => {
            assert(args@ == seq![link.head] + link.tail@);
            if n == 0 {
                Some(link.head)
            } else {
                nth_arg(&link.tail, n - 1)
            }
        },
    }
}

fn count_refs(ctx: &TypeContext, t: TypeId, Ghost(fuel): Ghost<nat>) -> (r: usize)
    requires
        return_refs(ctx@, t, fuel) is Some,
        return_refs(ctx@, t, fuel)->0 <= usize::MAX,
    ensures
        return_refs(ctx@, t, fuel) == Some(r as nat),
    decreases fuel, 0nat, t,
{
    match ctx.get(ctx.resolve_binding(t)) {
        Some(TypeData::Ref { .. }) => 1,
        Some(TypeData::Tuple { elems }) => count_all(ctx, elems, Ghost((fuel - 1) as nat)),
        Some(TypeData::Array { elem, .. }) => count_refs(ctx, *elem, Ghost((fuel - 1) as nat)),
        Some(TypeData::Slice { elem }) => count_refs(ctx, *elem, Ghost((fuel - 1) as nat)),
        Some(TypeData::Adt { def_id, args, .. }) => match ctx.adt_def(*def_id) {
            Some(def) => count_fields(ctx, &def.fields, args, Ghost((fuel - 1) as nat)),
            None => 0,
        },
        _ => 0,
    }
}

fn count_all(ctx: &TypeContext, elems: &List<TypeId>, Ghost(fuel): Ghost<nat>) -> (r: usize)
    requires
        return_refs_all(ctx@, *elems, fuel) is Some,
        return_refs_all(ctx@, *elems, fuel)->0 <= usize::MAX,
    ensures
        return_refs_all(ctx@, *elems, fuel) == Some(r as nat),
    decreases fuel, 1nat, *elems,
{
    match elems {
        List::Nil => 0,
        List::Cons(link) => {
            let a: usize = count_refs(ctx, link.head, Ghost(fuel));
            let b: usize = count_all(ctx, &link.tail, Ghost(fuel));
            a + b
        },
    }
}

fn count_fields(
    ctx: &TypeContext,
    fields: &List<TypeId>,
    args: &List<TypeId>,
    Ghost(fuel): Ghost<nat>,
) -> (r: usize)
    requires
        return_refs_fields(ctx@, *fields, *args, fuel) is Some,
        return_refs_fields(ctx@, *fields, *args, fuel)->0 <= usize::MAX,
    ensures
        return_refs_fields(ctx@, *fields, *args, fuel) == Some(r as nat),
    decreases fuel, 1nat, *fields,
{
    match fields {
        List::Nil => 0,
        List::Cons(link) => {
            let f = match ctx.get(link.head) {
                Some(TypeData::GenericParam { index, .. }) => match nth_arg(args, *index) {
                    Some(t) => t,
                    None => link.head,
                },
                _ => link.head,
            };
            let a: usize = count_refs(ctx, f, Ghost(fuel));
            let b: usize = count_fields(ctx, &link.tail, args, Ghost(fuel));
            a + b
        },
    }
}

/// The number of references in a return type. The type has to be finite.
pub fn count_return_refs(ctx: &TypeContext, ty: TypeId) -> (r: usize)
    requires
        exists|fuel: nat| #[trigger]
            return_refs(ctx@, ty, fuel) is Some && return_refs(ctx@, ty, fuel)->0 <= usize::MAX,
    ensures
        forall|fuel: nat| #[trigger]
            return_refs(ctx@, ty, fuel) is Some ==> return_refs(ctx@, ty, fuel) == Some(r as nat),
{
    let ghost fuel = choose|fuel: nat| #[trigger]
        return_refs(ctx@, ty, fuel) is Some && return_refs(ctx@, ty, fuel)->0 <= usize::MAX;
    let r: usize = count_refs(ctx, ty, Ghost(fuel));
    proof {
        assert forall|other: nat| #[trigger] return_refs(ctx@, ty, other) is Some implies return_refs(
            ctx@,
            ty,
            other,
        ) == Some(r as nat) by {
            if other <= fuel {
                law_return_refs_unique(ctx@, ty, other, fuel);
            } else {
                law_return_refs_unique(ctx@, ty, fuel, other);
            }
        }
    }
    r
}

/// The number of references that a return type shows as written.
pub open spec fn written_refs(ty: ast::Type) -> nat
    decreases ty,
{
    match ty {
        ast::Type::Reference { inner, mutable, lifetime, span } => 1,
        ast::Type::Tuple(elems, _) => written_refs_all(elems),
        ast::Type::Array(elem, _, _) => written_refs(*elem),
        ast::Type::Slice(elem, _) => written_refs(*elem),
        _ => 0,
    }
}

pub open spec fn written_refs_all(elems: List<ast::Type>) -> nat
    decreases elems,
{
    match elems {
        List::Nil => 0,
        List::Cons(link) => written_refs(link.head) + written_refs_all(link.tail),
    }
}

/// The number of references that a return type shows as written.
pub fn count_return_refs_ast(ty: &ast::Type) -> (r: usize)
    requires
        written_refs(*ty) <= usize::MAX,
    ensures
        r == written_refs(*ty),
    decreases *ty,
{
    match ty {
        ast::Type::Reference { .. } => 1,
        ast::Type::Tuple(elems, _) => count_written_all(elems),
        ast::Type::Array(elem, _, _) => count_return_refs_ast(elem),
        ast::Type::Slice(elem, _) => count_return_refs_ast(elem),
        _ => 0,
    }
}

fn count_written_all(elems: &List<ast::Type>) -> (r: usize)
    requires
        written_refs_all(*elems) <= usize::MAX,
    ensures
        r == written_refs_all(*elems),
    decreases *elems,
{
    match elems {
        List::Nil => 0,
        List::Cons(link) => {
            let a: usize = count_return_refs_ast(&link.head);
            let b: usize = count_written_all(&link.tail);
            a + b
        },
    }
}

} // verus!
