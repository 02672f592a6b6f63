//! What the tables of the facts hold, and how an answer is read.
use super::csv;
use crate::gather;
use crate::text;
use vstd::prelude::*;

verus! {

// ---------------------------------------------------------------------------
// Tables
// ---------------------------------------------------------------------------

/// The texts in a row, and a line break.
pub open spec fn row(cells: Seq<nat>) -> Seq<char>
    decreases cells.len(),
{
    if cells.len() == 0 {
        seq!['\n']
    } else if cells.len() == 1 {
        text::decimal(cells[0]) + seq!['\n']
    } else {
        text::decimal(cells[0]) + seq![','] + row(cells.skip(1))
    }
}

/// The row is a line of the table.
pub open spec fn is_line(table: Seq<char>, cells: Seq<nat>) -> bool {
    exists|before: Seq<char>, after: Seq<char>|
        table == #[trigger] (before + row(cells) + after)
}

proof fn lemma_piece(f: spec_fn(int) -> Seq<char>, n: int, k: int) -> (after: Seq<char>)
    requires
        0 <= k < n,
    ensures
        gather::concat(f, n) == gather::concat(f, k) + f(k) + after,
    decreases n,
{
    if k == n - 1 {
        let after = Seq::<char>::empty();
        assert(gather::concat(f, n) =~= gather::concat(f, k) + f(k) + after);
        after
    } else {
        let a = lemma_piece(f, n - 1, k);
        let after = a + f(n - 1);
        assert(gather::concat(f, n) =~= gather::concat(f, k) + f(k) + after);
        after
    }
}

proof fn lemma_rows(a: nat, b: nat, c: nat)
    ensures
        csv::line1(a) == row(seq![a]),
        csv::line2(a, b) == row(seq![a, b]),
        csv::line3(a, b, c) == row(seq![a, b, c]),
{
    assert(csv::line1(a) =~= row(seq![a]));
    assert(seq![a, b].skip(1) =~= seq![b]);
    assert(row(seq![b]) =~= text::decimal(b) + seq!['\n']);
    assert(csv::line2(a, b) =~= row(seq![a, b]));
    assert(seq![a, b, c].skip(1) =~= seq![b, c]);
    assert(seq![b, c].skip(1) =~= seq![c]);
    assert(row(seq![c]) =~= text::decimal(c) + seq!['\n']);
    assert(row(seq![b, c]) =~= text::decimal(b) + seq![','] + row(seq![c]));
    assert(row(seq![a, b, c]) =~= text::decimal(a) + seq![','] + row(seq![b, c]));
    assert(csv::line3(a, b, c) =~= row(seq![a, b, c]));
}

proof fn lemma_line(f: spec_fn(int) -> Seq<char>, n: int, k: int, cells: Seq<nat>)
    requires
        0 <= k < n,
        f(k) == row(cells),
    ensures
        is_line(gather::concat(f, n), cells),
{
    let after = lemma_piece(f, n, k);
    assert(gather::concat(f, n) == gather::concat(f, k) + row(cells) + after);
}

/// Each loan that is issued is a line: its origin, the loan, the point. Each that is
/// invalidated is one: the point, the loan.
pub proof fn law_loans_are_written(
    issued: Seq<(u32, u32, u64)>,
    invalidated: Seq<(u32, u64)>,
    k: int,
)
    ensures
        0 <= k < issued.len() ==> is_line(
            gather::concat(csv::lines_of_issues(issued), issued.len() as int),
            seq![issued[k].1 as nat, issued[k].0 as nat, issued[k].2 as nat],
        ),
        0 <= k < invalidated.len() ==> is_line(
            gather::concat(csv::lines_of_invalidations(invalidated), invalidated.len() as int),
            seq![invalidated[k].1 as nat, invalidated[k].0 as nat],
        ),
{
    if 0 <= k < issued.len() {
        let x = issued[k];
        lemma_rows(x.1 as nat, x.0 as nat, x.2 as nat);
        lemma_line(
            csv::lines_of_issues(issued),
            issued.len() as int,
            k,
            seq![x.1 as nat, x.0 as nat, x.2 as nat],
        );
    }
    if 0 <= k < invalidated.len() {
        let x = invalidated[k];
        lemma_rows(x.1 as nat, x.0 as nat, 0);
        lemma_line(
            csv::lines_of_invalidations(invalidated),
            invalidated.len() as int,
            k,
            seq![x.1 as nat, x.0 as nat],
        );
    }
}

/// Each of the other facts is a line with its parts in their order.
pub proof fn law_facts_are_written(
    edges: Seq<(u64, u64)>,
    points: Seq<(u32, u64)>,
    pairs: Seq<(u32, u32)>,
    flows: Seq<(u32, u32, u64)>,
    regions: Seq<u32>,
    k: int,
)
    ensures
        0 <= k < edges.len() ==> is_line(
            gather::concat(csv::lines_of_edges(edges), edges.len() as int),
            seq![edges[k].0 as nat, edges[k].1 as nat],
        ),
        0 <= k < points.len() ==> is_line(
            gather::concat(csv::lines_at_points(points), points.len() as int),
            seq![points[k].0 as nat, points[k].1 as nat],
        ),
        0 <= k < pairs.len() ==> is_line(
            gather::concat(csv::lines_of_pairs(pairs), pairs.len() as int),
            seq![pairs[k].0 as nat, pairs[k].1 as nat],
        ),
        0 <= k < flows.len() ==> is_line(
            gather::concat(csv::lines_of_flows(flows), flows.len() as int),
            seq![flows[k].0 as nat, flows[k].1 as nat, flows[k].2 as nat],
        ),
        0 <= k < regions.len() ==> is_line(
            gather::concat(csv::lines_of_regions(regions), regions.len() as int),
            seq![regions[k] as nat],
        ),
{
    if 0 <= k < edges.len() {
        let x = edges[k];
        lemma_rows(x.0 as nat, x.1 as nat, 0);
        lemma_line(
            csv::lines_of_edges(edges),
            edges.len() as int,
            k,
            seq![x.0 as nat, x.1 as nat],
        );
    }
    if 0 <= k < points.len() {
        let x = points[k];
        lemma_rows(x.0 as nat, x.1 as nat, 0);
        lemma_line(
            csv::lines_at_points(points),
            points.len() as int,
            k,
            seq![x.0 as nat, x.1 as nat],
        );
    }
    if 0 <= k < pairs.len() {
        let x = pairs[k];
        lemma_rows(x.0 as nat, x.1 as nat, 0);
        lemma_line(
            csv::lines_of_pairs(pairs),
            pairs.len() as int,
            k,
            seq![x.0 as nat, x.1 as nat],
        );
    }
    if 0 <= k < flows.len() {
        let x = flows[k];
        lemma_rows(x.0 as nat, x.1 as nat, x.2 as nat);
        lemma_line(
            csv::lines_of_flows(flows),
            flows.len() as int,
            k,
            seq![x.0 as nat, x.1 as nat, x.2 as nat],
        );
    }
    if 0 <= k < regions.len() {
        lemma_rows(regions[k] as nat, 0, 0);
        lemma_line(
            csv::lines_of_regions(regions),
            regions.len() as int,
            k,
            seq![regions[k] as nat],
        );
    }
}

// ---------------------------------------------------------------------------
// The answer
// ---------------------------------------------------------------------------

/// A number that is written in decimal is read back.
pub proof fn law_numbers_are_read_back(n: nat)
    ensures
        csv::number_value(text::decimal(n)) == Some(n),
        csv::digits_value(text::decimal(n)) == Some(n),
        text::decimal(n).len() > 0,
        forall|k: int|
            0 <= k < text::decimal(n).len() ==> '0' as int <= (
            #[trigger] text::decimal(n)[k]) as int <= '9' as int,
    decreases n,
{
    let s = text::decimal(n);
    if n < 10 {
        assert(s.drop_last() =~= Seq::<char>::empty());
        assert(s.last() == text::digit(n as int));
        assert(csv::digits_value(Seq::<char>::empty()) == Some(0nat));
    } else {
        law_numbers_are_read_back(n / 10);
        assert(s.drop_last() =~= text::decimal(n / 10));
        assert(s.last() == text::digit((n % 10) as int));
        assert((n / 10) * 10 + n % 10 == n);
        assert forall|k: int| 0 <= k < s.len() implies '0' as int <= (#[trigger] s[k]) as int
            <= '9' as int by {
            if k < s.len() - 1 {
                assert(s[k] == text::decimal(n / 10)[k]);
            }
        }
    }
    assert(s[0] != '+');
}

/// All of the characters are white space.
pub open spec fn is_blank(s: Seq<char>) -> bool {
    forall|k: int| 0 <= k < s.len() ==> csv::is_space(#[trigger] s[k])
}

proof fn lemma_skip(a: Seq<char>, t: Seq<char>)
    requires
        is_blank(a),
        t.len() > 0,
        !csv::is_space(t[0]),
    ensures
        csv::skip_spaces(a + t) == t,
    decreases a.len(),
{
    let s = a + t;
    if a.len() > 0 {
        assert(s[0] == a[0]);
        assert(s.skip(1) =~= a.skip(1) + t);
        assert(is_blank(a.skip(1))) by {
            assert forall|k: int| 0 <= k < a.skip(1).len() implies csv::is_space(
                #[trigger] a.skip(1)[k],
            ) by {
                assert(a.skip(1)[k] == a[k + 1]);
            }
        }
        lemma_skip(a.skip(1), t);
    } else {
        assert(s =~= t);
    }
}

proof fn lemma_drop(t: Seq<char>, b: Seq<char>)
    requires
        is_blank(b),
        t.len() > 0,
        !csv::is_space(t.last()),
    ensures
        csv::drop_spaces(t + b) == t,
    decreases b.len(),
{
    let s = t + b;
    if b.len() > 0 {
        assert(s.last() == b.last());
        assert(b.last() == b[b.len() - 1]);
        assert(s.drop_last() =~= t + b.drop_last());
        assert(is_blank(b.drop_last())) by {
            assert forall|k: int| 0 <= k < b.drop_last().len() implies csv::is_space(
                #[trigger] b.drop_last()[k],
            ) by {
                assert(b.drop_last()[k] == b[k]);
            }
        }
        lemma_drop(t, b.drop_last());
    } else {
        assert(s =~= t);
    }
}

/// White space around a text is taken off, and nothing else is.
pub proof fn law_white_space_is_taken_off(a: Seq<char>, t: Seq<char>, b: Seq<char>)
    requires
        is_blank(a),
        is_blank(b),
        t.len() > 0,
        !csv::is_space(t[0]),
        !csv::is_space(t.last()),
    ensures
        csv::trimmed(a + t + b) == t,
{
    assert(a + t + b =~= a + (t + b));
    assert((t + b)[0] == t[0]);
    lemma_skip(a, t + b);
    lemma_drop(t, b);
}

proof fn lemma_line_end(s: Seq<char>, i: int, end: int)
    requires
        0 <= i <= end <= s.len(),
        forall|k: int| i <= k < end ==> #[trigger] s[k] != '\n',
        end < s.len() ==> s[end] == '\n',
    ensures
        csv::line_end(s, i) == end,
    decreases end - i,
{
    if i < end {
        lemma_line_end(s, i + 1, end);
    }
}

/// A first line `errors:` with a number behind it, with whatever white space around it,
/// answers with that number, if it fits.
pub proof fn law_answers_are_read(
    a: Seq<char>,
    b: Seq<char>,
    c: Seq<char>,
    n: nat,
    rest: Seq<char>,
)
    requires
        is_blank(a) && !a.contains('\n'),
        is_blank(b) && !b.contains('\n'),
        is_blank(c) && !c.contains('\n'),
        n <= usize::MAX,
        rest.len() == 0 || rest[0] == '\n',
    ensures
        csv::answer_from(a + "errors:"@ + b + text::decimal(n) + c + rest, 0) == Some(n),
{
    reveal_strlit("errors:");
    let label = "errors:"@;
    let d = text::decimal(n);
    law_numbers_are_read_back(n);
    assert(d[0] == d[0] && d.last() == d[d.len() - 1]);
    let t = label + b + d;
    let line = a + t + c;
    let s = a + label + b + d + c + rest;
    assert(s =~= line + rest);
    assert(t[0] == 'e');
    assert(t.last() == d.last());
    law_white_space_is_taken_off(a, t, c);
    assert(t.take(label.len() as int) =~= label);
    assert(t.skip(label.len() as int) =~= b + d + Seq::<char>::empty());
    law_white_space_is_taken_off(b, d, Seq::empty());
    assert forall|k: int| 0 <= k < line.len() implies #[trigger] s[k] != '\n' by {
        assert(s[k] == line[k]);
        if k < a.len() {
            assert(line[k] == a[k]);
        } else if k < a.len() + label.len() {
            assert(line[k] == label[k - a.len()]);
        } else if k < a.len() + label.len() + b.len() {
            assert(line[k] == b[k - a.len() - label.len()]);
        } else if k < a.len() + t.len() {
            assert(line[k] == d[k - a.len() - label.len() - b.len()]);
        } else {
            assert(line[k] == c[k - a.len() - t.len()]);
        }
    }
    if rest.len() > 0 {
        assert(s[line.len() as int] == rest[0]);
    }
    lemma_line_end(s, 0, line.len() as int);
    assert(s.subrange(0, line.len() as int) =~= line);
}

} // verus!
