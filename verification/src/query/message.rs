//! The words for a query that has no value.
use super::vtable::{CycleKind, QueryCycleError, MAX_QUERY_DEPTH};
use crate::text;
use crate::text::push_decimal;
use vstd::prelude::*;

verus! {

/// The texts of a list.
pub open spec fn texts(shown: Seq<String>) -> Seq<Seq<char>> {
    Seq::new(shown.len(), |i: int| shown[i]@)
}

/// The first `n` keys, each on a line with its number.
pub open spec fn numbered(keys: Seq<Seq<char>>, n: nat) -> Seq<char>
    decreases n,
{
    if n == 0 {
        Seq::empty()
    } else {
        let i = (n - 1) as nat;
        let before = if i == 0 {
            Seq::empty()
        } else {
            numbered(keys, i) + "\n    "@
        };
        before + "  "@ + text::decimal(i) + ": "@ + keys[i as int]
    }
}

/// The name of a query and its key.
pub open spec fn named(name: Seq<char>, key: Seq<char>) -> Seq<char> {
    "`"@ + name + "` with key `"@ + key + "`"@
}

/// The calls that led to a query.
pub open spec fn call_stack(keys: Seq<Seq<char>>) -> Seq<char> {
    "\n  call stack:\n    "@ + numbered(keys, keys.len())
}

impl<K> QueryCycleError<K> {
    /// The message, given how the keys of the stack are shown.
    pub open spec fn message_text(&self, keys: Seq<Seq<char>>) -> Seq<char> {
        let named = named(self.query_name@, keys.last());
        match self.kind {
            CycleKind::Cycle => "query cycle detected: "@ + named + call_stack(keys),
            CycleKind::WaitCycle => "query cycle detected: "@ + named + call_stack(keys),
            CycleKind::DepthLimit => "query depth limit exceeded: `"@ + self.query_name@
                + "` depth "@ + text::decimal(keys.len() + 1) + " >= "@ + text::decimal(
                MAX_QUERY_DEPTH as nat,
            ) + call_stack(keys),
            CycleKind::Poisoned => "query poisoned: "@ + named,
            CycleKind::PreviouslyPanicked => "query previously panicked: "@ + named,
            CycleKind::NotFound => "query result not found after waiting: "@ + named,
        }
    }

    /// The message, given how the keys of the stack are shown.
    pub fn message(&self, shown: &Vec<String>) -> (r: String)
        requires
            shown@.len() == self.stack@.len(),
            shown@.len() < u64::MAX,
            self.kind == CycleKind::DepthLimit || shown@.len() > 0,
        ensures
            r@ == self.message_text(texts(shown@)),
    {
        let mut out = String::new();
        match self.kind {
            CycleKind::Cycle => {
                out.push_str("query cycle detected: ");
                push_named(&mut out, self.query_name, shown);
                push_call_stack(&mut out, shown);
            },
            CycleKind::WaitCycle => {
                out.push_str("query cycle detected: ");
                push_named(&mut out, self.query_name, shown);
                push_call_stack(&mut out, shown);
            },
            CycleKind::DepthLimit => {
                out.push_str("query depth limit exceeded: `");
                out.push_str(self.query_name);
                out.push_str("` depth ");
                push_decimal(&mut out, shown.len() as u64 + 1);
                out.push_str(" >= ");
                push_decimal(&mut out, MAX_QUERY_DEPTH as u64);
                push_call_stack(&mut out, shown);
            },
            CycleKind::Poisoned => {
                out.push_str("query poisoned: ");
                push_named(&mut out, self.query_name, shown);
            },
            CycleKind::PreviouslyPanicked => {
                out.push_str("query previously panicked: ");
                push_named(&mut out, self.query_name, shown);
            },
            CycleKind::NotFound => {
                out.push_str("query result not found after waiting: ");
                push_named(&mut out, self.query_name, shown);
            },
        }
        assert(out@ =~= self.message_text(texts(shown@)));
        out
    }
}

fn push_named(out: &mut String, name: &str, shown: &Vec<String>)
    requires
        shown@.len() > 0,
    ensures
        final(out)@ == old(out)@ + named(name@, texts(shown@).last()),
{
    out.push_str("`");
    out.push_str(name);
    out.push_str("` with key `");
    out.push_str(shown[shown.len() - 1].as_str());
    out.push_str("`");
    assert(out@ =~= old(out)@ + named(name@, texts(shown@).last()));
}

fn push_call_stack(out: &mut String, shown: &Vec<String>)
    requires
        shown@.len() < u64::MAX,
    ensures
        final(out)@ == old(out)@ + call_stack(texts(shown@)),
{
    out.push_str("\n  call stack:\n    ");
    let ghost start = out@;
    assert(out@ =~= start + numbered(texts(shown@), 0));
    for i in 0..shown.len()
        invariant
            shown@.len() < u64::MAX,
            out@ == start + numbered(texts(shown@), i as nat),
    {
        let ghost before = out@;
        if i > 0 {
            out.push_str("\n    ");
        }
        out.push_str("  ");
        push_decimal(out, i as u64);
        out.push_str(": ");
        out.push_str(shown[i].as_str());
        assert(out@ =~= start + numbered(texts(shown@), (i + 1) as nat));
    }
    assert(out@ =~= old(out)@ + call_stack(texts(shown@)));
}

} // verus!
