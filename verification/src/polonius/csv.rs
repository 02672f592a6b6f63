//! The facts as tables of text, and the answer of an engine that reads them.
use super::facts::PoloniusFacts;
use crate::gather;
use crate::text;
use vstd::prelude::*;

verus! {

/// The names of the tables of the full input schema.
pub fn polonius_inputs() -> (r: Vec<&'static str>)
    ensures
        r@.len() == 17,
        r@[0]@ == "subset_base.csv"@,
        r@[1]@ == "cfg_edge.csv"@,
        r@[2]@ == "loan_issued_at.csv"@,
        r@[3]@ == "universal_region.csv"@,
        r@[4]@ == "var_used_at.csv"@,
        r@[5]@ == "loan_killed_at.csv"@,
        r@[6]@ == "known_placeholder_subset.csv"@,
        r@[7]@ == "var_dropped_at.csv"@,
        r@[8]@ == "drop_of_var_derefs_origin.csv"@,
        r@[9]@ == "var_defined_at.csv"@,
        r@[10]@ == "child_path.csv"@,
        r@[11]@ == "path_moved_at_base.csv"@,
        r@[12]@ == "path_assigned_at_base.csv"@,
        r@[13]@ == "path_accessed_at_base.csv"@,
        r@[14]@ == "path_is_var.csv"@,
        r@[15]@ == "loan_invalidated_at.csv"@,
        r@[16]@ == "use_of_var_derefs_origin.csv"@,
{
    let mut v: Vec<&'static str> = Vec::new();
    v.push("subset_base.csv");
    v.push("cfg_edge.csv");
    v.push("loan_issued_at.csv");
    v.push("universal_region.csv");
    v.push("var_used_at.csv");
    v.push("loan_killed_at.csv");
    v.push("known_placeholder_subset.csv");
    v.push("var_dropped_at.csv");
    v.push("drop_of_var_derefs_origin.csv");
    v.push("var_defined_at.csv");
    v.push("child_path.csv");
    v.push("path_moved_at_base.csv");
    v.push("path_assigned_at_base.csv");
    v.push("path_accessed_at_base.csv");
    v.push("path_is_var.csv");
    v.push("loan_invalidated_at.csv");
    v.push("use_of_var_derefs_origin.csv");
    v
}

/// A line of one number.
pub open spec fn line1(a: nat) -> Seq<char> {
    text::decimal(a).push('\n')
}

/// A line of two numbers.
pub open spec fn line2(a: nat, b: nat) -> Seq<char> {
    (text::decimal(a).push(',') + text::decimal(b)).push('\n')
}

/// A line of three numbers.
pub open spec fn line3(a: nat, b: nat, c: nat) -> Seq<char> {
    ((text::decimal(a).push(',') + text::decimal(b)).push(',') + text::decimal(c)).push('\n')
}

pub open spec fn lines_of_edges(t: Seq<(u64, u64)>) -> spec_fn(int) -> Seq<char> {
    |i: int| line2(t[i].0 as nat, t[i].1 as nat)
}

/// Origin, loan, point.
pub open spec fn lines_of_issues(t: Seq<(u32, u32, u64)>) -> spec_fn(int) -> Seq<char> {
    |i: int| line3(t[i].1 as nat, t[i].0 as nat, t[i].2 as nat)
}

/// Point, loan.
pub open spec fn lines_of_invalidations(t: Seq<(u32, u64)>) -> spec_fn(int) -> Seq<char> {
    |i: int| line2(t[i].1 as nat, t[i].0 as nat)
}

pub open spec fn lines_at_points(t: Seq<(u32, u64)>) -> spec_fn(int) -> Seq<char> {
    |i: int| line2(t[i].0 as nat, t[i].1 as nat)
}

pub open spec fn lines_of_pairs(t: Seq<(u32, u32)>) -> spec_fn(int) -> Seq<char> {
    |i: int| line2(t[i].0 as nat, t[i].1 as nat)
}

pub open spec fn lines_of_flows(t: Seq<(u32, u32, u64)>) -> spec_fn(int) -> Seq<char> {
    |i: int| line3(t[i].0 as nat, t[i].1 as nat, t[i].2 as nat)
}

pub open spec fn lines_of_regions(t: Seq<u32>) -> spec_fn(int) -> Seq<char> {
    |i: int| line1(t[i] as nat)
}

fn push_line2(s: &mut String, a: u64, b: u64)
    ensures
        final(s)@ == old(s)@ + line2(a as nat, b as nat),
{
    text::push_decimal(s, a);
    s.push(',');
    text::push_decimal(s, b);
    s.push('\n');
    assert(s@ =~= old(s)@ + line2(a as nat, b as nat));
}

fn push_line3(s: &mut String, a: u64, b: u64, c: u64)
    ensures
        final(s)@ == old(s)@ + line3(a as nat, b as nat, c as nat),
{
    text::push_decimal(s, a);
    s.push(',');
    text::push_decimal(s, b);
    s.push(',');
    text::push_decimal(s, c);
    s.push('\n');
    assert(s@ =~= old(s)@ + line3(a as nat, b as nat, c as nat));
}

fn edges_csv(t: &Vec<(u64, u64)>) -> (r: String)
    ensures
        r@ == gather::concat(lines_of_edges(t@), t@.len() as int),
{
    let mut s = String::new();
    let ghost f = lines_of_edges(t@);
    let mut i: usize = 0;
    assert(s@ =~= gather::concat(f, 0));
    while i < t.len()
        invariant
            f == lines_of_edges(t@),
            0 <= i <= t@.len(),
            s@ == gather::concat(f, i as int),
        decreases t.len() - i,
    {
        push_line2(&mut s, t[i].0, t[i].1);
        i += 1;
    }
    s
}

fn issues_csv(t: &Vec<(u32, u32, u64)>) -> (r: String)
    ensures
        r@ == gather::concat(lines_of_issues(t@), t@.len() as int),
{
    let mut s = String::new();
    let ghost f = lines_of_issues(t@);
    let mut i: usize = 0;
    assert(s@ =~= gather::concat(f, 0));
    while i < t.len()
        invariant
            f == lines_of_issues(t@),
            0 <= i <= t@.len(),
            s@ == gather::concat(f, i as int),
        decreases t.len() - i,
    {
        let (l, o, p) = t[i];
        push_line3(&mut s, o as u64, l as u64, p);
        i += 1;
    }
    s
}

fn invalidations_csv(t: &Vec<(u32, u64)>) -> (r: String)
    ensures
        r@ == gather::concat(lines_of_invalidations(t@), t@.len() as int),
{
    let mut s = String::new();
    let ghost f = lines_of_invalidations(t@);
    let mut i: usize = 0;
    assert(s@ =~= gather::concat(f, 0));
    while i < t.len()
        invariant
            f == lines_of_invalidations(t@),
            0 <= i <= t@.len(),
            s@ == gather::concat(f, i as int),
        decreases t.len() - i,
    {
        let (l, p) = t[i];
        push_line2(&mut s, p, l as u64);
        i += 1;
    }
    s
}

fn at_points_csv(t: &Vec<(u32, u64)>) -> (r: String)
    ensures
        r@ == gather::concat(lines_at_points(t@), t@.len() as int),
{
    let mut s = String::new();
    let ghost f = lines_at_points(t@);
    let mut i: usize = 0;
    assert(s@ =~= gather::concat(f, 0));
    while i < t.len()
        invariant
            f == lines_at_points(t@),
            0 <= i <= t@.len(),
            s@ == gather::concat(f, i as int),
        decreases t.len() - i,
    {
        let (v, p) = t[i];
        push_line2(&mut s, v as u64, p);
        i += 1;
    }
    s
}

fn pairs_csv(t: &Vec<(u32, u32)>) -> (r: String)
    ensures
        r@ == gather::concat(lines_of_pairs(t@), t@.len() as int),
{
    let mut s = String::new();
    let ghost f = lines_of_pairs(t@);
    let mut i: usize = 0;
    assert(s@ =~= gather::concat(f, 0));
    while i < t.len()
        invariant
            f == lines_of_pairs(t@),
            0 <= i <= t@.len(),
            s@ == gather::concat(f, i as int),
        decreases t.len() - i,
    {
        let (a, b) = t[i];
        push_line2(&mut s, a as u64, b as u64);
        i += 1;
    }
    s
}

fn flows_csv(t: &Vec<(u32, u32, u64)>) -> (r: String)
    ensures
        r@ == gather::concat(lines_of_flows(t@), t@.len() as int),
{
    let mut s = String::new();
    let ghost f = lines_of_flows(t@);
    let mut i: usize = 0;
    assert(s@ =~= gather::concat(f, 0));
    while i < t.len()
        invariant
            f == lines_of_flows(t@),
            0 <= i <= t@.len(),
            s@ == gather::concat(f, i as int),
        decreases t.len() - i,
    {
        let (a, b, p) = t[i];
        push_line3(&mut s, a as u64, b as u64, p);
        i += 1;
    }
    s
}

fn regions_csv(t: &Vec<u32>) -> (r: String)
    ensures
        r@ == gather::concat(lines_of_regions(t@), t@.len() as int),
{
    let mut s = String::new();
    let ghost f = lines_of_regions(t@);
    let mut i: usize = 0;
    assert(s@ =~= gather::concat(f, 0));
    while i < t.len()
        invariant
            f == lines_of_regions(t@),
            0 <= i <= t@.len(),
            s@ == gather::concat(f, i as int),
        decreases t.len() - i,
    {
        let ghost before = s@;
        text::push_decimal(&mut s, t[i] as u64);
        s.push('\n');
        assert(s@ =~= before + line1(t@[i as int] as nat));
        i += 1;
    }
    s
}

/// The tables of the full input schema: the name of each and its text. The
/// facts fill all but the last three, which are empty.
pub fn facts_csv(facts: &PoloniusFacts) -> (r: Vec<(&'static str, String)>)
    ensures
        r@.len() == 17,
        r@[0].0@ == "cfg_edge.csv"@,
        r@[0].1@ == gather::concat(lines_of_edges(facts.cfg_edge@), facts.cfg_edge@.len() as int),
        r@[1].0@ == "loan_issued_at.csv"@,
        r@[1].1@ == gather::concat(
            lines_of_issues(facts.loan_issued_at@),
            facts.loan_issued_at@.len() as int,
        ),
        r@[2].0@ == "loan_invalidated_at.csv"@,
        r@[2].1@ == gather::concat(
            lines_of_invalidations(facts.loan_invalidated_at@),
            facts.loan_invalidated_at@.len() as int,
        ),
        r@[3].0@ == "var_used_at.csv"@,
        r@[3].1@ == gather::concat(
            lines_at_points(facts.var_used_at@),
            facts.var_used_at@.len() as int,
        ),
        r@[4].0@ == "use_of_var_derefs_origin.csv"@,
        r@[4].1@ == gather::concat(
            lines_of_pairs(facts.use_of_var_derefs_origin@),
            facts.use_of_var_derefs_origin@.len() as int,
        ),
        r@[5].0@ == "subset_base.csv"@,
        r@[5].1@ == gather::concat(
            lines_of_flows(facts.subset_base@),
            facts.subset_base@.len() as int,
        ),
        r@[6].0@ == "universal_region.csv"@,
        r@[6].1@ == gather::concat(
            lines_of_regions(facts.universal_region@),
            facts.universal_region@.len() as int,
        ),
        r@[7].0@ == "known_placeholder_subset.csv"@,
        r@[7].1@ == gather::concat(
            lines_of_pairs(facts.known_placeholder_subset@),
            facts.known_placeholder_subset@.len() as int,
        ),
        r@[8].0@ == "loan_killed_at.csv"@,
        r@[8].1@ == gather::concat(
            lines_at_points(facts.loan_killed_at@),
            facts.loan_killed_at@.len() as int,
        ),
        r@[9].0@ == "var_dropped_at.csv"@,
        r@[9].1@ == gather::concat(
            lines_at_points(facts.var_dropped_at@),
            facts.var_dropped_at@.len() as int,
        ),
        r@[10].0@ == "drop_of_var_derefs_origin.csv"@,
        r@[10].1@ == gather::concat(
            lines_of_pairs(facts.drop_of_var_derefs_origin@),
            facts.drop_of_var_derefs_origin@.len() as int,
        ),
        r@[11].0@ == "var_defined_at.csv"@,
        r@[11].1@ == gather::concat(
            lines_at_points(facts.var_defined_at@),
            facts.var_defined_at@.len() as int,
        ),
        r@[12].0@ == "child_path.csv"@,
        r@[12].1@ == gather::concat(
            lines_of_pairs(facts.child_path@),
            facts.child_path@.len() as int,
        ),
        r@[13].0@ == "path_is_var.csv"@,
        r@[13].1@ == gather::concat(
            lines_of_pairs(facts.path_is_var@),
            facts.path_is_var@.len() as int,
        ),
        r@[14].0@ == "path_moved_at_base.csv"@,
        r@[14].1@.len() == 0,
        r@[15].0@ == "path_assigned_at_base.csv"@,
        r@[15].1@.len() == 0,
        r@[16].0@ == "path_accessed_at_base.csv"@,
        r@[16].1@.len() == 0,
{
    let mut v: Vec<(&'static str, String)> = Vec::new();
    v.push(("cfg_edge.csv", edges_csv(&facts.cfg_edge)));
    v.push(("loan_issued_at.csv", issues_csv(&facts.loan_issued_at)));
    v.push(("loan_invalidated_at.csv", invalidations_csv(&facts.loan_invalidated_at)));
    v.push(("var_used_at.csv", at_points_csv(&facts.var_used_at)));
    v.push(("use_of_var_derefs_origin.csv", pairs_csv(&facts.use_of_var_derefs_origin)));
    v.push(("subset_base.csv", flows_csv(&facts.subset_base)));
    v.push(("universal_region.csv", regions_csv(&facts.universal_region)));
    v.push(("known_placeholder_subset.csv", pairs_csv(&facts.known_placeholder_subset)));
    v.push(("loan_killed_at.csv", at_points_csv(&facts.loan_killed_at)));
    v.push(("var_dropped_at.csv", at_points_csv(&facts.var_dropped_at)));
    v.push(("drop_of_var_derefs_origin.csv", pairs_csv(&facts.drop_of_var_derefs_origin)));
    v.push(("var_defined_at.csv", at_points_csv(&facts.var_defined_at)));
    v.push(("child_path.csv", pairs_csv(&facts.child_path)));
    v.push(("path_is_var.csv", pairs_csv(&facts.path_is_var)));
    v.push(("path_moved_at_base.csv", String::new()));
    v.push(("path_assigned_at_base.csv", String::new()));
    v.push(("path_accessed_at_base.csv", String::new()));
    v
}

// ---------------------------------------------------------------------------
// The answer
// ---------------------------------------------------------------------------

/// A character of white space.
pub open spec fn is_space(c: char) -> bool {
    let n = c as int;
    ||| 9 <= n <= 13
    ||| n == 32 || n == 133 || n == 160 || n == 5760
    ||| 8192 <= n <= 8202
    ||| n == 8232 || n == 8233 || n == 8239 || n == 8287 || n == 12288
}

/// The text without white space in front.
pub open spec fn skip_spaces(s: Seq<char>) -> Seq<char>
    decreases s.len(),
{
    if s.len() > 0 && is_space(s[0]) {
        skip_spaces(s.skip(1))
    } else {
        s
    }
}

/// The text without white space behind.
pub open spec fn drop_spaces(s: Seq<char>) -> Seq<char>
    decreases s.len(),
{
    if s.len() > 0 && is_space(s.last()) {
        drop_spaces(s.drop_last())
    } else {
        s
    }
}

/// The text without white space around it.
pub open spec fn trimmed(s: Seq<char>) -> Seq<char> {
    drop_spaces(skip_spaces(s))
}

/// The value of decimal digits.
pub open spec fn digits_value(s: Seq<char>) -> Option<nat>
    decreases s.len(),
{
    if s.len() == 0 {
        Some(0)
    } else {
        match digits_value(s.drop_last()) {
            Some(n) => if '0' as int <= s.last() as int <= '9' as int {
                Some((n * 10 + (s.last() as int - '0' as int)) as nat)
            } else {
                None
            },
            None => None,
        }
    }
}

/// The value of a number: digits, at least one, after a plus sign or not.
pub open spec fn number_value(s: Seq<char>) -> Option<nat> {
    let d = if s.len() > 0 && s[0] == '+' {
        s.skip(1)
    } else {
        s
    };
    if d.len() == 0 {
        None
    } else {
        digits_value(d)
    }
}

/// What follows `errors:` in a line.
pub open spec fn after_label(line: Seq<char>) -> Option<Seq<char>> {
    let t = trimmed(line);
    let label = "errors:"@;
    if t.len() >= label.len() && t.take(label.len() as int) == label {
        Some(t.skip(label.len() as int))
    } else {
        None
    }
}

/// The end of the line that starts at `i`.
pub open spec fn line_end(s: Seq<char>, i: int) -> int
    decreases s.len() - i,
{
    if i < 0 || i >= s.len() || s[i] == '\n' {
        i
    } else {
        line_end(s, i + 1)
    }
}

/// The first line with the label, from position `i` on; then the number
/// behind it, if that is one and fits.
pub open spec fn answer_from(s: Seq<char>, i: int) -> Option<nat>
    decreases s.len() - i,
{
    if i < 0 || i >= s.len() {
        None
    } else {
        let end = line_end(s, i);
        match after_label(s.subrange(i, end)) {
            Some(rest) => match number_value(trimmed(rest)) {
                Some(n) => if n <= usize::MAX {
                    Some(n)
                } else {
                    None
                },
                None => None,
            },
            None => if end < i || end >= s.len() {
                None
            } else {
                answer_from(s, end + 1)
            },
        }
    }
}

fn code_point(c: char) -> (r: u32)
    ensures
        r == c as int,
{
    c as u32
}

fn is_space_char(c: char) -> (r: bool)
    ensures
        r == is_space(c),
{
    let n: u32 = code_point(c);
    (9 <= n && n <= 13) || n == 32 || n == 133 || n == 160 || n == 5760 || (8192 <= n && n <= 8202)
        || n == 8232 || n == 8233 || n == 8239 || n == 8287 || n == 12288
}

/// The bounds of a part of the text without white space around it.
fn trim_bounds(s: &Vec<char>, from: usize, to: usize) -> (r: (usize, usize))
    requires
        from <= to <= s@.len(),
    ensures
        from <= r.0 <= r.1 <= to,
        s@.subrange(r.0 as int, r.1 as int) == trimmed(s@.subrange(from as int, to as int)),
{
    let ghost all = s@.subrange(from as int, to as int);
    let mut a: usize = from;
    while a < to && is_space_char(s[a])
        invariant
            from <= a <= to <= s@.len(),
            skip_spaces(all) == skip_spaces(s@.subrange(a as int, to as int)),
        decreases to - a,
    {
        assert(s@.subrange(a as int, to as int).skip(1) =~= s@.subrange(a + 1, to as int));
        a += 1;
    }
    let ghost mid = s@.subrange(a as int, to as int);
    assert(skip_spaces(all) == mid);
    let mut b: usize = to;
    while b > a && is_space_char(s[b - 1])
        invariant
            from <= a <= b <= to <= s@.len(),
            mid == s@.subrange(a as int, to as int),
            drop_spaces(mid) == drop_spaces(s@.subrange(a as int, b as int)),
        decreases b,
    {
        assert(s@.subrange(a as int, b as int).drop_last() =~= s@.subrange(a as int, b - 1));
        b -= 1;
    }
    (a, b)
}

/// The part of the text reads as this label.
fn has_label(s: &Vec<char>, from: usize, to: usize) -> (r: bool)
    requires
        from <= to <= s@.len(),
    ensures
        r == (to - from >= "errors:"@.len() && s@.subrange(from as int, to as int).take(
            "errors:"@.len() as int,
        ) == "errors:"@),
        "errors:"@.len() == 7,
{
    proof {
        reveal_strlit("errors:");
    }
    if to - from < 7 {
        return false;
    }
    let r = s[from] == 'e' && s[from + 1] == 'r' && s[from + 2] == 'r' && s[from + 3] == 'o'
        && s[from + 4] == 'r' && s[from + 5] == 's' && s[from + 6] == ':';
    proof {
        let t = s@.subrange(from as int, to as int).take(7);
        assert(forall|k: int| 0 <= k < 7 ==> #[trigger] t[k] == s@[from + k]);
        if r {
            assert(t =~= "errors:"@);
        }
        if t == "errors:"@ {
            assert(t[0] == 'e' && t[1] == 'r' && t[2] == 'r' && t[3] == 'o' && t[4] == 'r' && t[5]
                == 's' && t[6] == ':');
        }
    }
    r
}

/// The value of the digits of a part of the text, if it fits.
fn read_digits(s: &Vec<char>, from: usize, to: usize) -> (r: Option<usize>)
    requires
        from <= to <= s@.len(),
    ensures
        match digits_value(s@.subrange(from as int, to as int)) {
            Some(n) => if n <= usize::MAX {
                r == Some(n as usize)
            } else {
                r is None
            },
            None => r is None,
        },
{
    let ghost all = s@.subrange(from as int, to as int);
    let mut n: usize = 0;
    let mut i: usize = from;
    assert(s@.subrange(from as int, from as int).len() == 0);
    while i < to
        invariant
            from <= i <= to <= s@.len(),
            all == s@.subrange(from as int, to as int),
            digits_value(s@.subrange(from as int, i as int)) == Some(n as nat),
        decreases to - i,
    {
        let c: u32 = code_point(s[i]);
        let ghost next = s@.subrange(from as int, i + 1);
        assert(next.drop_last() =~= s@.subrange(from as int, i as int));
        assert(next.last() == s@[i as int]);
        proof {
            lemma_digits_prefix(s@, from as int, i + 1, to as int);
        }
        if c < 48 || c > 57 {
            return None;
        }
        let d: usize = (c - 48) as usize;
        match n.checked_mul(10) {
            None => {
                return None;
            },
            Some(m) => match m.checked_add(d) {
                None => {
                    return None;
                },
                Some(k) => {
                    n = k;
                },
            },
        }
        i += 1;
    }
    Some(n)
}

/// More digits make a number no smaller, and what is no number stays none.
proof fn lemma_digits_prefix(s: Seq<char>, from: int, i: int, to: int)
    requires
        0 <= from <= i <= to <= s.len(),
    ensures
        digits_value(s.subrange(from, i)) is None ==> digits_value(s.subrange(from, to)) is None,
        digits_value(s.subrange(from, to)) matches Some(n) ==> digits_value(
            s.subrange(from, i),
        ) matches Some(m) && m <= n,
    decreases to - i,
{
    if i < to {
        lemma_digits_prefix(s, from, i, to - 1);
        assert(s.subrange(from, to).drop_last() =~= s.subrange(from, to - 1));
    }
}

/// The value of a number in a part of the text, if it is one and fits.
fn read_number(s: &Vec<char>, from: usize, to: usize) -> (r: Option<usize>)
    requires
        from <= to <= s@.len(),
    ensures
        match number_value(s@.subrange(from as int, to as int)) {
            Some(n) => if n <= usize::MAX {
                r == Some(n as usize)
            } else {
                r is None
            },
            None => r is None,
        },
{
    let mut a: usize = from;
    if from < to && s[from] == '+' {
        a = from + 1;
        assert(s@.subrange(from as int, to as int).skip(1) =~= s@.subrange(a as int, to as int));
    }
    if a == to {
        return None;
    }
    read_digits(s, a, to)
}

/// The characters of a text.
fn chars_of(text: &str) -> (r: Vec<char>)
    ensures
        r@ == text@,
{
    let mut v: Vec<char> = Vec::new();
    for c in it: text.chars()
        invariant
            v@ == it.seq().take(it.index() as int),
            it.seq() == text@,
    {
        v.push(c);
    }
    v
}

/// The number that follows `errors:` in the first line that starts so.
pub fn error_count(text: &str) -> (r: Option<usize>)
    ensures
        match answer_from(text@, 0) {
            Some(n) => r == Some(n as usize),
            None => r is None,
        },
{
    let s = chars_of(text);
    let mut i: usize = 0;
    while i < s.len()
        invariant
            s@ == text@,
            answer_from(text@, 0) == answer_from(s@, i as int),
        decreases s.len() - i,
    {
        let mut end: usize = i;
        while end < s.len() && s[end] != '\n'
            invariant
                i <= end <= s@.len(),
                line_end(s@, i as int) == line_end(s@, end as int),
            decreases s.len() - end,
        {
            end += 1;
        }
        assert(line_end(s@, i as int) == end);
        let (a, b) = trim_bounds(&s, i, end);
        let ghost t = s@.subrange(a as int, b as int);
        if has_label(&s, a, b) {
            let (c, d) = trim_bounds(&s, a + 7, b);
            assert(t.skip(7) =~= s@.subrange(a + 7, b as int));
            return read_number(&s, c, d);
        }
        if end == s.len() {
            return None;
        }
        i = end + 1;
    }
    None
}

} // verus!
