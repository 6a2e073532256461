//! Regenerates rule-file lines from the tree: drops the lines this engine
//! could have written before, keeps every other line, and appends fresh
//! exact rules in tree order.
use crate::model::{Mode, Node};
use crate::text::{forward_slashes, replace_backslashes, same_text, trim, trim_bounds};
use vstd::prelude::*;

verus! {

pub open spec fn s_bang() -> Seq<char> {
    seq!['!']
}

pub open spec fn s_slash() -> Seq<char> {
    seq!['/']
}

pub open spec fn s_bang_slash() -> Seq<char> {
    seq!['!', '/']
}

pub open spec fn s_dir_star() -> Seq<char> {
    seq!['/', '*']
}

/// `t` is one of the lines this engine could have written for path `b`:
/// `b` with an optional `!` or `/` or `!/` before it and an optional `/*`
/// after it.
pub open spec fn is_variant(t: Seq<char>, b: Seq<char>) -> bool {
    ||| t == b
    ||| t == b + s_dir_star()
    ||| t == s_bang() + b
    ||| t == s_bang() + b + s_dir_star()
    ||| t == s_slash() + b
    ||| t == s_slash() + b + s_dir_star()
    ||| t == s_bang_slash() + b
    ||| t == s_bang_slash() + b + s_dir_star()
}

/// `t` is one of the four lines that stand for the whole tree.
pub open spec fn is_global_variant(t: Seq<char>) -> bool {
    ||| t == seq!['*']
    ||| t == seq!['/', '*']
    ||| t == seq!['!', '*']
    ||| t == seq!['!', '/', '*']
}

/// `t` is a line that regeneration replaces.
pub open spec fn replaced(t: Seq<char>, nodes: Seq<Node>) -> bool {
    ||| is_global_variant(t)
    ||| exists|i: int|
        0 <= i < nodes.len() && (#[trigger] nodes[i]).path@.len() > 0 && is_variant(
            t,
            forward_slashes(nodes[i].path@),
        )
}

/// Whether an existing line survives regeneration: blank lines, comments
/// and lines that are no variant of the tree's paths do.
pub open spec fn line_kept(line: Seq<char>, nodes: Seq<Node>) -> bool {
    let t = trim(line);
    t.len() == 0 || t[0] == '#' || !replaced(t, nodes)
}

/// The existing lines that survive regeneration, in order.
pub open spec fn kept_lines(lines: Seq<Seq<char>>, nodes: Seq<Node>) -> Seq<Seq<char>>
    decreases lines.len(),
{
    if lines.len() == 0 {
        seq![]
    } else {
        let prev = kept_lines(lines.drop_last(), nodes);
        if line_kept(lines.last(), nodes) {
            prev.push(lines.last())
        } else {
            prev
        }
    }
}

/// The lines written for one node other than the root, with its path's
/// backslashes written as `/`.
pub open spec fn node_lines(n: Node) -> Seq<Seq<char>> {
    let p = forward_slashes(n.path@);
    let shelters = n.is_dir && n.cpt_exception > 0;
    if p.len() == 0 {
        seq![]
    } else {
        match n.mode {
            Mode::N => if shelters {
                seq![s_bang_slash() + p, s_slash() + p + s_dir_star()]
            } else {
                seq![]
            },
            Mode::C => if shelters {
                seq![s_slash() + p + s_dir_star()]
            } else {
                seq![s_slash() + p]
            },
            Mode::E => seq![s_bang_slash() + p],
        }
    }
}

/// The lines written for `nodes`, in tree order.
pub open spec fn tree_lines(nodes: Seq<Node>) -> Seq<Seq<char>>
    decreases nodes.len(),
{
    if nodes.len() == 0 {
        seq![]
    } else {
        tree_lines(nodes.drop_last()) + node_lines(nodes.last())
    }
}

/// `/*` when the root node is marked.
pub open spec fn root_lines(nodes: Seq<Node>) -> Seq<Seq<char>> {
    if nodes.len() > 0 && nodes[0].mark {
        seq![s_dir_star()]
    } else {
        seq![]
    }
}

/// The regenerated rule file, as lines.
pub open spec fn regenerated(nodes: Seq<Node>, existing: Seq<Seq<char>>) -> Seq<Seq<char>> {
    kept_lines(existing, nodes) + root_lines(nodes) + tree_lines(nodes)
}

/// `lines` joined with line feeds.
pub open spec fn join_lines(lines: Seq<Seq<char>>) -> Seq<char>
    decreases lines.len(),
{
    if lines.len() == 0 {
        seq![]
    } else if lines.len() == 1 {
        lines[0]
    } else {
        join_lines(lines.drop_last()) + seq!['\n'] + lines.last()
    }
}

/// The file text for `lines`: joined with line feeds, ending with exactly
/// one line feed unless empty or already ending with one.
pub open spec fn file_text(lines: Seq<Seq<char>>) -> Seq<char> {
    let j = join_lines(lines);
    if j.len() > 0 && j.last() != '\n' {
        j.push('\n')
    } else {
        j
    }
}

/// What the string literals used below hold.
proof fn lemma_literals()
    ensures
        ""@ == Seq::<char>::empty(),
        "!"@ == s_bang(),
        "/"@ == s_slash(),
        "!/"@ == s_bang_slash(),
        "/*"@ == s_dir_star(),
        "*"@ == seq!['*'],
        "!*"@ == seq!['!', '*'],
        "!/*"@ == seq!['!', '/', '*'],
        "\n"@ == seq!['\n'],
{
    reveal_strlit("");
    reveal_strlit("!");
    reveal_strlit("/");
    reveal_strlit("!/");
    reveal_strlit("/*");
    reveal_strlit("*");
    reveal_strlit("!*");
    reveal_strlit("!/*");
    reveal_strlit("\n");
    assert(""@ =~= Seq::<char>::empty());
    assert("!"@ =~= s_bang());
    assert("/"@ =~= s_slash());
    assert("!/"@ =~= s_bang_slash());
    assert("/*"@ =~= s_dir_star());
    assert("*"@ =~= seq!['*']);
    assert("!*"@ =~= seq!['!', '*']);
    assert("!/*"@ =~= seq!['!', '/', '*']);
    assert("\n"@ =~= seq!['\n']);
}

fn concat3(a: &str, b: &str, c: &str) -> (r: String)
    ensures
        r@ == a@ + b@ + c@,
{
    String::from_str(a).concat(b).concat(c)
}

/// Whether `t` is one of the lines this engine could have written for `b`.
fn variant_of(t: &str, b: &str) -> (r: bool)
    ensures
        r == is_variant(t@, b@),
{
    let tl = t.unicode_len();
    let bl = b.unicode_len();
    if tl < bl || tl - bl > 4 {
        return false;
    }
    proof {
        lemma_literals();
    }
    same_text(t, concat3("", b, "").as_str()) || same_text(t, concat3("", b, "/*").as_str())
        || same_text(t, concat3("!", b, "").as_str()) || same_text(
        t,
        concat3("!", b, "/*").as_str(),
    ) || same_text(t, concat3("/", b, "").as_str()) || same_text(t, concat3("/", b, "/*").as_str())
        || same_text(t, concat3("!/", b, "").as_str()) || same_text(
        t,
        concat3("!/", b, "/*").as_str(),
    )
}

/// Whether `t` is one of the four lines that stand for the whole tree.
fn global_variant(t: &str) -> (r: bool)
    ensures
        r == is_global_variant(t@),
{
    proof {
        lemma_literals();
    }
    same_text(t, "*") || same_text(t, "/*") || same_text(t, "!*") || same_text(t, "!/*")
}

/// Whether the existing line `line` survives regeneration over `nodes`.
fn keeps_line(line: &str, nodes: &Vec<Node>) -> (r: bool)
    ensures
        r == line_kept(line@, nodes@),
{
    let (a, b) = trim_bounds(line);
    if a == b || line.get_char(a) == '#' {
        return true;
    }
    let t = line.substring_char(a, b);
    if global_variant(t) {
        return false;
    }
    assert(!is_global_variant(trim(line@)));
    assert(t@.len() > 0 && t@[0] != '#');
    let mut i: usize = 0;
    while i < nodes.len()
        invariant
            0 <= i <= nodes@.len(),
            t@ == trim(line@),
            t@.len() > 0 && t@[0] != '#',
            forall|k: int|
                0 <= k < i ==> !((#[trigger] nodes@[k]).path@.len() > 0 && is_variant(
                    t@,
                    forward_slashes(nodes@[k].path@),
                )),
        decreases nodes@.len() - i,
    {
        let norm = replace_backslashes(nodes[i].path.as_str());
        let p = norm.as_str();
        if p.unicode_len() > 0 && variant_of(t, p) {
            assert(nodes@[i as int].path@.len() > 0 && is_variant(
                t@,
                forward_slashes(nodes@[i as int].path@),
            ));
            return false;
        }
        i = i + 1;
    }
    true
}

/// The lines written for one node other than the root, appended to `out`.
fn push_node_lines(out: &mut Vec<String>, n: &Node)
    ensures
        final(out)@.map_values(|l: String| l@) == old(out)@.map_values(|l: String| l@)
            + node_lines(*n),
{
    let ghost before = out@.map_values(|l: String| l@);
    let norm = replace_backslashes(n.path.as_str());
    let p = norm.as_str();
    proof {
        lemma_literals();
    }
    if p.unicode_len() == 0 {
        assert(before + node_lines(*n) =~= before);
        return;
    }
    let shelters = n.is_dir && n.cpt_exception > 0;
    match n.mode {
        Mode::N => {
            if shelters {
                let l1 = concat3("!/", p, "");
                let l2 = concat3("/", p, "/*");
                out.push(l1);
                out.push(l2);
            }
        },
        Mode::C => {
            if shelters {
                out.push(concat3("/", p, "/*"));
            } else {
                out.push(concat3("/", p, ""));
            }
        },
        Mode::E => {
            out.push(concat3("!/", p, ""));
        },
    }
    assert(out@.map_values(|l: String| l@) =~= before + node_lines(*n));
}

/// Regenerates the rule file as lines: the existing lines that are not
/// this engine's own earlier output, then `/*` if the root is marked, then
/// for every other node in tree order the exact rules its mode and
/// exception count call for, a directory's exclusion before the
/// exceptions nested in it.
pub fn regenerate(nodes: &Vec<Node>, existing: &Vec<String>) -> (r: Vec<String>)
    ensures
        r@.map_values(|l: String| l@) == regenerated(
            nodes@,
            existing@.map_values(|l: String| l@),
        ),
{
    let ghost ex = existing@.map_values(|l: String| l@);
    let mut out: Vec<String> = Vec::new();
    let mut k: usize = 0;
    while k < existing.len()
        invariant
            0 <= k <= existing@.len(),
            ex == existing@.map_values(|l: String| l@),
            out@.map_values(|l: String| l@) == kept_lines(ex.subrange(0, k as int), nodes@),
        decreases existing@.len() - k,
    {
        proof {
            assert(ex.subrange(0, k + 1).drop_last() =~= ex.subrange(0, k as int));
            assert(ex.subrange(0, k + 1).last() == existing@[k as int]@);
        }
        if keeps_line(existing[k].as_str(), nodes) {
            let line = existing[k].clone();
            proof {
                assert(out@.push(line).map_values(|l: String| l@) =~= out@.map_values(
                    |l: String| l@,
                ).push(line@));
            }
            out.push(line);
        }
        k = k + 1;
    }
    proof {
        assert(ex.subrange(0, existing@.len() as int) =~= ex);
    }
    let ghost kept = out@.map_values(|l: String| l@);
    if nodes.len() > 0 && nodes[0].mark {
        proof {
            lemma_literals();
        }
        let root_line = String::from_str("/*");
        proof {
            assert(out@.push(root_line).map_values(|l: String| l@) =~= kept + root_lines(nodes@));
        }
        out.push(root_line);
    } else {
        assert(kept + root_lines(nodes@) =~= kept);
    }
    let ghost head = out@.map_values(|l: String| l@);
    let mut i: usize = 0;
    while i < nodes.len()
        invariant
            0 <= i <= nodes@.len(),
            out@.map_values(|l: String| l@) == head + tree_lines(nodes@.subrange(0, i as int)),
        decreases nodes@.len() - i,
    {
        proof {
            assert(nodes@.subrange(0, i + 1).drop_last() =~= nodes@.subrange(0, i as int));
        }
        push_node_lines(&mut out, &nodes[i]);
        proof {
            assert(head + tree_lines(nodes@.subrange(0, i as int)) + node_lines(nodes@[i as int])
                =~= head + tree_lines(nodes@.subrange(0, i + 1)));
        }
        i = i + 1;
    }
    proof {
        assert(nodes@.subrange(0, nodes@.len() as int) =~= nodes@);
    }
    out
}

/// The text of the rule file: the lines joined with line feeds, with one
/// final line feed unless the text is empty or already ends with one.
pub fn render_file(lines: &Vec<String>) -> (r: String)
    ensures
        r@ == file_text(lines@.map_values(|l: String| l@)),
{
    let ghost ls = lines@.map_values(|l: String| l@);
    let mut text = String::new();
    let mut i: usize = 0;
    proof {
        lemma_literals();
    }
    while i < lines.len()
        invariant
            0 <= i <= lines@.len(),
            ls == lines@.map_values(|l: String| l@),
            text@ == join_lines(ls.subrange(0, i as int)),
        decreases lines@.len() - i,
    {
        proof {
            assert(ls.subrange(0, i + 1).drop_last() =~= ls.subrange(0, i as int));
            assert(ls.subrange(0, i + 1).last() == lines@[i as int]@);
        }
        let ghost before = text@;
        if i > 0 {
            text.append("\n");
        }
        let ghost prev = text@;
        text.append(lines[i].as_str());
        proof {
            if i == 0 {
                assert(text@ =~= ls.subrange(0, 1)[0]);
            } else {
                let sub = ls.subrange(0, i + 1);
                lemma_literals();
                assert(prev == before + seq!['\n']);
                assert(text@ == before + seq!['\n'] + lines@[i as int]@);
                assert(join_lines(sub) == join_lines(sub.drop_last()) + seq!['\n'] + sub.last());
                assert(text@ =~= join_lines(sub));
            }
        }
        i = i + 1;
    }
    proof {
        assert(ls.subrange(0, lines@.len() as int) =~= ls);
    }
    let n = text.as_str().unicode_len();
    if n > 0 && text.as_str().get_char(n - 1) != '\n' {
        text.append("\n");
    }
    text
}

} // verus!
