//! Character-level helpers over the `Seq<char>` view of strings.
use vstd::prelude::*;
use vstd::std_specs::iter::IteratorSpec;

verus! {

/// `p` is a strict path-descendant of `base`: `base`, then `/`, then more.
pub open spec fn is_child_path(p: Seq<char>, base: Seq<char>) -> bool {
    &&& p.len() > base.len()
    &&& p.subrange(0, base.len() as int) == base
    &&& p[base.len() as int] == '/'
}

/// The pattern that stands for every path.
pub open spec fn all_marker() -> Seq<char> {
    seq!['*']
}

/// `s` with every backslash turned into a forward slash.
pub open spec fn forward_slashes(s: Seq<char>) -> Seq<char> {
    s.map_values(|c: char| if c == '\\' { '/' } else { c })
}

/// Whether two strings hold the same characters.
pub fn same_text(a: &str, b: &str) -> (r: bool)
    ensures
        r == (a@ == b@),
{
    let x = String::from_str(a);
    let y = String::from_str(b);
    x == y
}

/// Whether `p` is the marker `*`.
pub fn is_all_marker(p: &str) -> (r: bool)
    ensures
        r == (p@ == all_marker()),
{
    let n = p.unicode_len();
    if n != 1 {
        proof {
            assert(p@.len() != all_marker().len());
        }
        return false;
    }
    let c = p.get_char(0);
    proof {
        if c == '*' {
            assert(p@ =~= all_marker());
        }
    }
    c == '*'
}

/// Whether `p` is a strict path-descendant of `base`.
pub fn child_path_of(p: &str, base: &str) -> (r: bool)
    ensures
        r == is_child_path(p@, base@),
{
    let pl = p.unicode_len();
    let bl = base.unicode_len();
    if pl <= bl {
        return false;
    }
    let head = p.substring_char(0, bl);
    if !same_text(head, base) {
        return false;
    }
    p.get_char(bl) == '/'
}


/// The characters that `char::is_whitespace` accepts (Unicode White_Space).
pub open spec fn is_space(c: char) -> bool {
    let u = c as u32;
    ||| 0x09 <= u <= 0x0d
    ||| u == 0x20
    ||| u == 0x85
    ||| u == 0xa0
    ||| u == 0x1680
    ||| 0x2000 <= u <= 0x200a
    ||| u == 0x2028
    ||| u == 0x2029
    ||| u == 0x202f
    ||| u == 0x205f
    ||| u == 0x3000
}

/// Whether `c` is white space.
pub fn space_char(c: char) -> (r: bool)
    ensures
        r == is_space(c),
{
    let u = c as u32;
    (0x09 <= u && u <= 0x0d) || u == 0x20 || u == 0x85 || u == 0xa0 || u == 0x1680 || (0x2000
        <= u && u <= 0x200a) || u == 0x2028 || u == 0x2029 || u == 0x202f || u == 0x205f || u
        == 0x3000
}

/// `s` without its leading white space.
pub open spec fn trim_start(s: Seq<char>) -> Seq<char>
    decreases s.len(),
{
    if s.len() > 0 && is_space(s[0]) {
        trim_start(s.drop_first())
    } else {
        s
    }
}

/// `s` without its trailing white space.
pub open spec fn trim_end(s: Seq<char>) -> Seq<char>
    decreases s.len(),
{
    if s.len() > 0 && is_space(s.last()) {
        trim_end(s.drop_last())
    } else {
        s
    }
}

/// `s` without leading or trailing white space.
pub open spec fn trim(s: Seq<char>) -> Seq<char> {
    trim_end(trim_start(s))
}

proof fn lemma_trim_start_skip(s: Seq<char>, k: int, a: int)
    requires
        0 <= k <= a <= s.len(),
        forall|m: int| k <= m < a ==> is_space(#[trigger] s[m]),
        a == s.len() || !is_space(s[a]),
    ensures
        trim_start(s.subrange(k, s.len() as int)) == s.subrange(a, s.len() as int),
    decreases a - k,
{
    let t = s.subrange(k, s.len() as int);
    if k < a {
        assert(t.drop_first() =~= s.subrange(k + 1, s.len() as int));
        lemma_trim_start_skip(s, k + 1, a);
    } else if a < s.len() {
        assert(t[0] == s[a]);
    }
}

proof fn lemma_trim_end_skip(s: Seq<char>, a: int, k: int, b: int)
    requires
        0 <= a <= b <= k <= s.len(),
        forall|m: int| b <= m < k ==> is_space(#[trigger] s[m]),
        b == a || !is_space(s[b - 1]),
    ensures
        trim_end(s.subrange(a, k)) == s.subrange(a, b),
    decreases k - b,
{
    let t = s.subrange(a, k);
    if b < k {
        assert(t.drop_last() =~= s.subrange(a, k - 1));
        lemma_trim_end_skip(s, a, k - 1, b);
    } else if a < b {
        assert(t.last() == s[b - 1]);
    }
}

/// The bounds `(a, b)` of `s` with white space trimmed at both ends.
pub fn trim_bounds(s: &str) -> (r: (usize, usize))
    ensures
        r.0 <= r.1 <= s@.len(),
        s@.subrange(r.0 as int, r.1 as int) == trim(s@),
{
    let n = s.unicode_len();
    let mut a: usize = 0;
    while a < n && space_char(s.get_char(a))
        invariant
            n == s@.len(),
            a <= n,
            forall|m: int| 0 <= m < a ==> is_space(#[trigger] s@[m]),
        decreases n - a,
    {
        a = a + 1;
    }
    let mut b: usize = n;
    while b > a && space_char(s.get_char(b - 1))
        invariant
            n == s@.len(),
            a <= b <= n,
            forall|m: int| b <= m < n ==> is_space(#[trigger] s@[m]),
        decreases b,
    {
        b = b - 1;
    }
    proof {
        lemma_trim_start_skip(s@, 0, a as int);
        assert(s@.subrange(0, n as int) =~= s@);
        let t = s@.subrange(a as int, n as int);
        lemma_trim_end_skip(t, 0, (n - a) as int, (b - a) as int);
        assert(t.subrange(0, (b - a) as int) =~= s@.subrange(a as int, b as int));
        assert(t.subrange(0, (n - a) as int) =~= t);
    }
    (a, b)
}

/// Scanning from `k`, the index of the first line feed of `s`, or its length.
pub open spec fn newline_from(s: Seq<char>, k: int) -> int
    decreases s.len() - k,
{
    if k < 0 || k >= s.len() || s[k] == '\n' {
        k
    } else {
        newline_from(s, k + 1)
    }
}

/// `l` without one trailing carriage return.
pub open spec fn strip_cr(l: Seq<char>) -> Seq<char> {
    if l.len() > 0 && l.last() == '\r' {
        l.drop_last()
    } else {
        l
    }
}

/// The lines of `s`: split at each line feed, with a carriage return
/// before the line feed removed; a final line feed ends the last line and
/// starts no new one.
pub open spec fn lines_of(s: Seq<char>) -> Seq<Seq<char>>
    decreases s.len(),
{
    if s.len() == 0 {
        seq![]
    } else {
        let k = newline_from(s, 0);
        if 0 <= k < s.len() {
            seq![strip_cr(s.subrange(0, k))] + lines_of(s.subrange(k + 1, s.len() as int))
        } else {
            seq![s]
        }
    }
}

proof fn lemma_newline_from(s: Seq<char>, k: int, e: int)
    requires
        0 <= k <= e <= s.len(),
        forall|m: int| k <= m < e ==> #[trigger] s[m] != '\n',
        e == s.len() || s[e] == '\n',
    ensures
        newline_from(s, k) == e,
    decreases e - k,
{
    if k < e {
        lemma_newline_from(s, k + 1, e);
    }
}

/// Relies on `String::push`: appends one character at the end.
#[verifier::external_body]
fn push_char(s: &mut String, c: char)
    ensures
        final(s)@ == old(s)@.push(c),
{
    s.push(c)
}

/// `s` with every backslash turned into a forward slash.
pub fn replace_backslashes(s: &str) -> (r: String)
    ensures
        r@ == forward_slashes(s@),
{
    broadcast use vstd::string::axiom_spec_iter;

    let n = s.unicode_len();
    let mut it = s.chars();
    let mut out = String::new();
    let mut i: usize = 0;
    while i < n
        invariant
            n == s@.len(),
            i <= n,
            it.obeys_prophetic_iter_laws(),
            it.remaining() == s@.subrange(i as int, n as int),
            out@ == forward_slashes(s@.subrange(0, i as int)),
        decreases n - i,
    {
        let ghost rem = it.remaining();
        let next = it.next();
        proof {
            assert(rem[0] == s@[i as int]);
            assert(it.remaining() =~= s@.subrange(i + 1, n as int));
        }
        let c = match next {
            Some(c) => c,
            None => {
                proof {
                    assert(false);
                }
                '/'
            },
        };
        push_char(&mut out, if c == '\\' { '/' } else { c });
        proof {
            assert(forward_slashes(s@.subrange(0, i + 1)) =~= forward_slashes(
                s@.subrange(0, i as int),
            ).push(if c == '\\' { '/' } else { c }));
        }
        i = i + 1;
    }
    assert(s@.subrange(0, n as int) =~= s@);
    out
}

/// Splits `text` into its lines, in one pass over its characters.
pub fn split_lines(text: &str) -> (r: Vec<String>)
    ensures
        r@.map_values(|l: String| l@) == lines_of(text@),
{
    broadcast use vstd::string::axiom_spec_iter;

    let n = text.unicode_len();
    let mut it = text.chars();
    let mut out: Vec<String> = Vec::new();
    let mut cur = String::new();
    let mut pending_cr = false;
    let mut start: usize = 0;
    let mut i: usize = 0;
    proof {
        assert(text@.subrange(0, n as int) =~= text@);
        assert(out@.map_values(|l: String| l@) + lines_of(text@) =~= lines_of(text@));
    }
    while i < n
        invariant
            n == text@.len(),
            start <= i <= n,
            it.obeys_prophetic_iter_laws(),
            it.remaining() == text@.subrange(i as int, n as int),
            forall|m: int| start <= m < i ==> #[trigger] text@[m] != '\n',
            (if pending_cr {
                cur@.push('\r')
            } else {
                cur@
            }) == text@.subrange(start as int, i as int),
            !pending_cr ==> cur@.len() == 0 || cur@.last() != '\r',
            lines_of(text@) == out@.map_values(|l: String| l@) + lines_of(
                text@.subrange(start as int, n as int),
            ),
        decreases n - i,
    {
        let ghost rem = it.remaining();
        let next = it.next();
        proof {
            assert(rem[0] == text@[i as int]);
            assert(it.remaining() =~= text@.subrange(i + 1, n as int));
        }
        let c = match next {
            Some(c) => c,
            None => {
                proof {
                    assert(false);
                }
                '\n'
            },
        };
        if c == '\n' {
            let line = cur;
            proof {
                let rest = text@.subrange(start as int, n as int);
                lemma_newline_from(rest, 0, (i - start) as int);
                assert(rest.subrange(0, (i - start) as int) =~= text@.subrange(
                    start as int,
                    i as int,
                ));
                assert(rest.subrange((i - start + 1) as int, rest.len() as int) =~= text@.subrange(
                    i + 1,
                    n as int,
                ));
                if pending_cr {
                    assert(line@.push('\r').drop_last() =~= line@);
                }
                assert(strip_cr(text@.subrange(start as int, i as int)) =~= line@);
                assert(out@.push(line).map_values(|l: String| l@) =~= out@.map_values(
                    |l: String| l@,
                ).push(line@));
                assert(out@.map_values(|l: String| l@).push(line@) + lines_of(
                    text@.subrange(i + 1, n as int),
                ) =~= out@.map_values(|l: String| l@) + (seq![line@] + lines_of(
                    text@.subrange(i + 1, n as int),
                )));
            }
            out.push(line);
            cur = String::new();
            pending_cr = false;
            start = i + 1;
            proof {
                assert(text@.subrange(start as int, i + 1) =~= Seq::<char>::empty());
            }
        } else {
            let ghost before = text@.subrange(start as int, i as int);
            if pending_cr {
                push_char(&mut cur, '\r');
                pending_cr = false;
            }
            if c == '\r' {
                pending_cr = true;
            } else {
                push_char(&mut cur, c);
            }
            proof {
                assert(text@.subrange(start as int, i + 1) =~= before.push(c));
                if pending_cr {
                    assert(cur@.push('\r') =~= before.push(c));
                } else {
                    assert(cur@ =~= before.push(c));
                }
            }
        }
        i = i + 1;
    }
    if start < n {
        if pending_cr {
            push_char(&mut cur, '\r');
        }
        let line = cur;
        proof {
            let rest = text@.subrange(start as int, n as int);
            lemma_newline_from(rest, 0, rest.len() as int);
            assert(rest =~= line@);
            assert(out@.push(line).map_values(|l: String| l@) =~= out@.map_values(
                |l: String| l@,
            ) + seq![line@]);
        }
        out.push(line);
    } else {
        proof {
            assert(text@.subrange(start as int, n as int) =~= Seq::<char>::empty());
            assert(out@.map_values(|l: String| l@) + Seq::<Seq<char>>::empty() =~= out@.map_values(
                |l: String| l@,
            ));
        }
    }
    out
}

} // verus!
