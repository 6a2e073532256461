//! Reading rule-file text into the ordered list of exact rules, and picking
//! out the wildcard lines that only the glob matcher handles.
use crate::model::{rule_view, Mode, Rule};
use crate::text::{
    all_marker, forward_slashes, lines_of, replace_backslashes, split_lines, trim, trim_bounds,
};
use vstd::prelude::*;

verus! {

pub open spec fn is_wildcard(c: char) -> bool {
    c == '*' || c == '?' || c == '['
}

/// `p` holds a glob metacharacter.
pub open spec fn has_wildcard(p: Seq<char>) -> bool {
    exists|m: int| 0 <= m < p.len() && is_wildcard(#[trigger] p[m])
}

/// `p` ends with `/*`.
pub open spec fn ends_with_dir_star(p: Seq<char>) -> bool {
    p.len() >= 2 && p[p.len() - 2] == '/' && p[p.len() - 1] == '*'
}

/// `p` without any trailing `/`.
pub open spec fn trim_end_slashes(p: Seq<char>) -> Seq<char>
    decreases p.len(),
{
    if p.len() > 0 && p.last() == '/' {
        trim_end_slashes(p.drop_last())
    } else {
        p
    }
}

/// `t` without a leading `!`.
pub open spec fn strip_bang(t: Seq<char>) -> Seq<char> {
    if t.len() > 0 && t[0] == '!' {
        t.drop_first()
    } else {
        t
    }
}

/// `p` without a leading `/`.
pub open spec fn strip_root(p: Seq<char>) -> Seq<char> {
    if p.len() > 0 && p[0] == '/' {
        p.drop_first()
    } else {
        p
    }
}

/// Pattern text without a trailing `/*` and then without trailing `/`.
pub open spec fn pattern_stem(p: Seq<char>) -> Seq<char> {
    trim_end_slashes(
        if ends_with_dir_star(p) {
            p.subrange(0, p.len() - 2)
        } else {
            p
        },
    )
}

/// The rule that pattern text `p` (past any `!` and leading `/`) gives.
pub open spec fn pattern_rule(p: Seq<char>, mode: Mode) -> Option<(Seq<char>, Mode)> {
    if p == all_marker() || p.len() == 0 {
        Some((all_marker(), mode))
    } else {
        let q = pattern_stem(p);
        if q.len() == 0 || has_wildcard(q) {
            None
        } else {
            Some((forward_slashes(q), mode))
        }
    }
}

/// The rule that one line gives, if any.
pub open spec fn parse_line_spec(line: Seq<char>) -> Option<(Seq<char>, Mode)> {
    let t = trim(line);
    if t.len() == 0 || t[0] == '#' {
        None
    } else {
        pattern_rule(
            strip_root(strip_bang(t)),
            if t[0] == '!' {
                Mode::E
            } else {
                Mode::C
            },
        )
    }
}

/// A line that the exact rules leave to the glob matcher: not blank, no
/// comment, and its pattern, past the stripping the parser does, is not the
/// marker `*` and still holds `*`, `?` or `[`.
pub open spec fn left_to_glob(line: Seq<char>) -> bool {
    let t = trim(line);
    let p = strip_root(strip_bang(t));
    &&& t.len() > 0
    &&& t[0] != '#'
    &&& !(p == all_marker() || p.len() == 0)
    &&& pattern_stem(p).len() > 0
    &&& has_wildcard(pattern_stem(p))
}

/// The lines left to the glob matcher are exactly those the parser drops
/// for a wildcard: no rule comes from them.
pub proof fn lemma_glob_lines_not_parsed(line: Seq<char>)
    ensures
        left_to_glob(line) ==> parse_line_spec(line) is None,
        parse_line_spec(line) is None ==> left_to_glob(line) || trim(line).len() == 0 || trim(
            line,
        )[0] == '#' || pattern_stem(strip_root(strip_bang(trim(line)))).len() == 0,
{
}

/// The rules that `lines` give, in order.
pub open spec fn parse_lines_spec(lines: Seq<Seq<char>>) -> Seq<(Seq<char>, Mode)>
    decreases lines.len(),
{
    if lines.len() == 0 {
        seq![]
    } else {
        let prev = parse_lines_spec(lines.drop_last());
        match parse_line_spec(lines.last()) {
            Some(r) => prev.push(r),
            None => prev,
        }
    }
}

proof fn lemma_trim_end_slashes_step(s: Seq<char>, a: int, e: int)
    requires
        0 <= a < e <= s.len(),
        s[e - 1] == '/',
    ensures
        trim_end_slashes(s.subrange(a, e)) == trim_end_slashes(s.subrange(a, e - 1)),
{
    assert(s.subrange(a, e).drop_last() =~= s.subrange(a, e - 1));
}

/// Whether `s[from..to]` holds a glob metacharacter.
fn range_has_wildcard(s: &str, from: usize, to: usize) -> (r: bool)
    requires
        from <= to <= s@.len(),
    ensures
        r == has_wildcard(s@.subrange(from as int, to as int)),
{
    let mut k: usize = from;
    while k < to
        invariant
            from <= k <= to <= s@.len(),
            forall|m: int| from <= m < k ==> !is_wildcard(#[trigger] s@[m]),
        decreases to - k,
    {
        let c = s.get_char(k);
        if c == '*' || c == '?' || c == '[' {
            proof {
                let p = s@.subrange(from as int, to as int);
                assert(is_wildcard(p[k - from]));
            }
            return true;
        }
        k = k + 1;
    }
    proof {
        let p = s@.subrange(from as int, to as int);
        assert forall|m: int| 0 <= m < p.len() implies !is_wildcard(#[trigger] p[m]) by {
            assert(p[m] == s@[from + m]);
        }
    }
    false
}

/// The end `e` of the stem of pattern text `line[s..b]`.
fn stem_end(line: &str, s: usize, b: usize) -> (e: usize)
    requires
        s <= b <= line@.len(),
    ensures
        s <= e <= b,
        line@.subrange(s as int, e as int) == pattern_stem(line@.subrange(s as int, b as int)),
{
    let ghost p = line@.subrange(s as int, b as int);
    let mut e: usize = b;
    if b - s >= 2 && line.get_char(b - 2) == '/' && line.get_char(b - 1) == '*' {
        e = b - 2;
    }
    let ghost stem = line@.subrange(s as int, e as int);
    proof {
        if ends_with_dir_star(p) {
            assert(p.subrange(0, p.len() - 2) =~= stem);
        } else {
            assert(p =~= stem);
        }
    }
    while e > s && line.get_char(e - 1) == '/'
        invariant
            s <= e <= b <= line@.len(),
            trim_end_slashes(stem) == trim_end_slashes(line@.subrange(s as int, e as int)),
        decreases e,
    {
        proof {
            lemma_trim_end_slashes_step(line@, s as int, e as int);
        }
        e = e - 1;
    }
    proof {
        let q = line@.subrange(s as int, e as int);
        if q.len() > 0 {
            assert(q.last() == line@[e - 1]);
        }
        assert(trim_end_slashes(q) == q);
    }
    e
}

/// The rule that the pattern text `line[s..b]` gives.
fn pattern_to_rule(line: &str, s: usize, b: usize, mode: Mode) -> (r: Option<Rule>)
    requires
        s <= b <= line@.len(),
    ensures
        match r {
            Some(rule) => pattern_rule(line@.subrange(s as int, b as int), mode) == Some(
                rule_view(rule),
            ),
            None => pattern_rule(line@.subrange(s as int, b as int), mode) is None,
        },
{
    let ghost p = line@.subrange(s as int, b as int);
    proof {
        reveal_strlit("*");
    }
    if s == b || (b - s == 1 && line.get_char(s) == '*') {
        proof {
            if s < b {
                assert(p =~= all_marker());
            }
        }
        return Some(Rule { pattern: String::from_str("*"), mode });
    }
    proof {
        if p == all_marker() {
            assert(p.len() == 1 && p[0] == '*');
        }
    }
    let e = stem_end(line, s, b);
    if e == s || range_has_wildcard(line, s, e) {
        return None;
    }
    let pattern = replace_backslashes(line.substring_char(s, e));
    Some(Rule { pattern, mode })
}

/// The rule that one line of a rule file gives: `None` for blank lines,
/// comments, and patterns left to the glob matcher.
pub fn parse_rule_line(line: &str) -> (r: Option<Rule>)
    ensures
        match r {
            Some(rule) => parse_line_spec(line@) == Some(rule_view(rule)),
            None => parse_line_spec(line@) is None,
        },
{
    let (a, b) = trim_bounds(line);
    let ghost t = trim(line@);
    if a == b || line.get_char(a) == '#' {
        return None;
    }
    let mut s: usize = a;
    let mut mode = Mode::C;
    if line.get_char(a) == '!' {
        mode = Mode::E;
        s = s + 1;
    }
    let ghost after_bang = line@.subrange(s as int, b as int);
    assert(strip_bang(t) =~= after_bang);
    if s < b && line.get_char(s) == '/' {
        s = s + 1;
    }
    assert(strip_root(after_bang) =~= line@.subrange(s as int, b as int));
    pattern_to_rule(line, s, b, mode)
}

/// The trimmed line, if the exact rules leave it to the glob matcher.
pub fn glob_line(line: &str) -> (r: Option<String>)
    ensures
        match r {
            Some(t) => left_to_glob(line@) && t@ == trim(line@),
            None => !left_to_glob(line@),
        },
{
    let (a, b) = trim_bounds(line);
    let ghost t = trim(line@);
    if a == b || line.get_char(a) == '#' {
        return None;
    }
    let mut s: usize = a;
    if line.get_char(a) == '!' {
        s = s + 1;
    }
    let ghost after_bang = line@.subrange(s as int, b as int);
    assert(strip_bang(t) =~= after_bang);
    if s < b && line.get_char(s) == '/' {
        s = s + 1;
    }
    let ghost p = line@.subrange(s as int, b as int);
    assert(strip_root(after_bang) =~= p);
    if s == b {
        return None;
    }
    if b - s == 1 && line.get_char(s) == '*' {
        assert(p =~= all_marker());
        return None;
    }
    assert(p != all_marker()) by {
        if p == all_marker() {
            assert(p.len() == 1 && p[0] == '*');
        }
    }
    let e = stem_end(line, s, b);
    if e == s || !range_has_wildcard(line, s, e) {
        return None;
    }
    Some(String::from_str(line.substring_char(a, b)))
}

/// Parses rule-file text into its exact rules, in file order. Blank and
/// comment lines are skipped; a leading `!` makes an exception; a leading
/// `/`, a trailing `/*` and trailing `/` are stripped; `*` or an empty
/// pattern becomes the marker `*`; patterns that still hold `*`, `?` or `[`
/// are left to the glob matcher; backslashes become forward slashes.
pub fn parse_gitignore(content: &str) -> (r: Vec<Rule>)
    ensures
        r@.map_values(|x: Rule| rule_view(x)) == parse_lines_spec(lines_of(content@)),
{
    let lines = split_lines(content);
    let ghost ls = lines@.map_values(|l: String| l@);
    let mut rules: Vec<Rule> = Vec::new();
    let mut k: usize = 0;
    while k < lines.len()
        invariant
            0 <= k <= lines@.len(),
            ls == lines@.map_values(|l: String| l@),
            rules@.map_values(|x: Rule| rule_view(x)) == parse_lines_spec(
                ls.subrange(0, k as int),
            ),
        decreases lines@.len() - k,
    {
        proof {
            assert(ls.subrange(0, k + 1).drop_last() =~= ls.subrange(0, k as int));
            assert(ls.subrange(0, k + 1).last() == lines@[k as int]@);
        }
        match parse_rule_line(lines[k].as_str()) {
            Some(rule) => {
                proof {
                    assert(rules@.push(rule).map_values(|x: Rule| rule_view(x)) =~= rules@.map_values(
                        |x: Rule| rule_view(x),
                    ).push(rule_view(rule)));
                }
                rules.push(rule);
            },
            None => {},
        }
        k = k + 1;
    }
    proof {
        assert(ls.subrange(0, lines@.len() as int) =~= ls);
    }
    rules
}

} // verus!
