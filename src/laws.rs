//! Properties that relate several operations of the engine.
use crate::aggregate::in_block;
use crate::engine::{rule_effect, rules_applied, state_after};
use crate::model::{Mode, Node};
use crate::rules::{
    ends_with_dir_star, has_wildcard, is_wildcard, parse_line_spec, parse_lines_spec,
    pattern_rule, strip_bang, strip_root, trim_end_slashes,
};
use crate::serializer::{
    file_text, join_lines, kept_lines, node_lines, regenerated, root_lines, s_bang_slash,
    s_dir_star, s_slash, tree_lines,
};
use crate::text::{
    all_marker, forward_slashes, is_child_path, is_space, lines_of, newline_from, strip_cr, trim,
    trim_end, trim_start,
};
use vstd::prelude::*;

verus! {

/// Applying the same rules to the same tree twice gives every node the same
/// mode and mark both times.
pub proof fn lemma_apply_deterministic(
    tree: Seq<Node>,
    rules: Seq<(Seq<char>, Mode)>,
    first: Seq<Node>,
    second: Seq<Node>,
)
    requires
        rules_applied(tree, first, rules),
        rules_applied(tree, second, rules),
    ensures
        first.len() == second.len(),
        forall|i: int|
            0 <= i < first.len() ==> (#[trigger] first[i]).mode == second[i].mode && first[i].mark
                == second[i].mark,
{
    assert forall|i: int| 0 <= i < first.len() implies (#[trigger] first[i]).mode == second[i].mode
        && first[i].mark == second[i].mark by {
        assert(first[i].path == tree[i].path);
        assert(second[i].path == tree[i].path);
    }
}

/// A relative path that the rule-file grammar carries unchanged: not
/// empty, no leading or trailing `/`, no trailing white space, and no `*`,
/// `?`, `[` or backslash.
pub open spec fn plain_path(p: Seq<char>) -> bool {
    &&& p.len() > 0
    &&& p[0] != '/'
    &&& p.last() != '/'
    &&& !is_space(p.last())
    &&& !has_wildcard(p)
    &&& forall|i: int| 0 <= i < p.len() ==> #[trigger] p[i] != '\\' && p[i] != '\n'
}

/// A scanned tree: the root (empty path, depth zero) first, then nodes
/// with distinct plain paths, where one node's path is a path-descendant of
/// another's exactly when it lies in that node's descendant block.
pub open spec fn path_tree_valid(t: Seq<Node>) -> bool {
    &&& t.len() > 0
    &&& t[0].path@ == Seq::<char>::empty()
    &&& forall|i: int| 1 <= i < t.len() ==> plain_path((#[trigger] t[i]).path@)
    &&& forall|i: int, j: int|
        0 <= i < t.len() && 0 <= j < t.len() && i != j ==> (#[trigger] t[i]).path@ != (
        #[trigger] t[j]).path@
    &&& forall|a: int, x: int|
        1 <= a < t.len() && 0 <= x < t.len() ==> (is_child_path(
            (#[trigger] t[x]).path@,
            (#[trigger] t[a]).path@,
        ) <==> in_block(t, a, x))
}

/// A directory that holds an exception somewhere below.
pub open spec fn shelters(n: Node) -> bool {
    n.is_dir && n.cpt_exception > 0
}

/// The mark an ancestor's regenerated lines leave on its descendants.
pub open spec fn passed_down(a: Node, m: bool) -> bool {
    match a.mode {
        Mode::E => false,
        Mode::C => true,
        Mode::N => if shelters(a) {
            true
        } else {
            m
        },
    }
}

/// The mark that node `x` inherits from the regenerated lines of the root
/// and of its ancestors among the first `j` nodes.
pub open spec fn inherited_mark(t: Seq<Node>, x: int, j: int) -> bool
    decreases j,
{
    if j <= 0 {
        t[0].mark
    } else {
        let m = inherited_mark(t, x, j - 1);
        if j - 1 >= 1 && in_block(t, j - 1, x) {
            passed_down(t[j - 1], m)
        } else {
            m
        }
    }
}

/// The (mode, mark) that a node's own regenerated lines give it, from the
/// state `st` its ancestors left.
pub open spec fn own_effect(n: Node, st: (Mode, bool)) -> (Mode, bool) {
    match n.mode {
        Mode::E => (Mode::E, false),
        Mode::C => (Mode::C, true),
        Mode::N => if shelters(n) {
            (Mode::C, true)
        } else {
            st
        },
    }
}

/// The (mode, mark) that node `x` gets when the regenerated rules are
/// parsed and applied.
pub open spec fn round_trip_state(t: Seq<Node>, x: int) -> (Mode, bool) {
    if x == 0 {
        (Mode::N, t[0].mark)
    } else {
        own_effect(t[x], (Mode::N, inherited_mark(t, x, x)))
    }
}

/// The exact rules that one node's regenerated lines parse back to.
pub open spec fn node_rules(n: Node) -> Seq<(Seq<char>, Mode)> {
    let p = n.path@;
    if p.len() == 0 {
        seq![]
    } else {
        match n.mode {
            Mode::N => if shelters(n) {
                seq![(p, Mode::E), (p, Mode::C)]
            } else {
                seq![]
            },
            Mode::C => seq![(p, Mode::C)],
            Mode::E => seq![(p, Mode::E)],
        }
    }
}

pub open spec fn tree_rules(t: Seq<Node>) -> Seq<(Seq<char>, Mode)>
    decreases t.len(),
{
    if t.len() == 0 {
        seq![]
    } else {
        tree_rules(t.drop_last()) + node_rules(t.last())
    }
}

/// Replays `rules` in order from the state `st`.
pub open spec fn fold_from(st: (Mode, bool), p: Seq<char>, rules: Seq<(Seq<char>, Mode)>) -> (
    Mode,
    bool,
)
    decreases rules.len(),
{
    if rules.len() == 0 {
        st
    } else {
        rule_effect(fold_from(st, p, rules.drop_last()), p, rules.last())
    }
}

proof fn lemma_state_after_is_fold(p: Seq<char>, rules: Seq<(Seq<char>, Mode)>)
    ensures
        state_after(p, rules) == fold_from((Mode::N, false), p, rules),
    decreases rules.len(),
{
    if rules.len() > 0 {
        lemma_state_after_is_fold(p, rules.drop_last());
    }
}

proof fn lemma_fold_concat(
    st: (Mode, bool),
    p: Seq<char>,
    a: Seq<(Seq<char>, Mode)>,
    b: Seq<(Seq<char>, Mode)>,
)
    ensures
        fold_from(st, p, a + b) == fold_from(fold_from(st, p, a), p, b),
    decreases b.len(),
{
    if b.len() == 0 {
        assert(a + b =~= a);
    } else {
        assert((a + b).drop_last() =~= a + b.drop_last());
        assert((a + b).last() == b.last());
        lemma_fold_concat(st, p, a, b.drop_last());
    }
}

proof fn lemma_parse_concat(a: Seq<Seq<char>>, b: Seq<Seq<char>>)
    ensures
        parse_lines_spec(a + b) == parse_lines_spec(a) + parse_lines_spec(b),
    decreases b.len(),
{
    if b.len() == 0 {
        assert(a + b =~= a);
        assert(parse_lines_spec(a) + parse_lines_spec(b) =~= parse_lines_spec(a));
    } else {
        assert((a + b).drop_last() =~= a + b.drop_last());
        assert((a + b).last() == b.last());
        lemma_parse_concat(a, b.drop_last());
        match parse_line_spec(b.last()) {
            Some(r) => {
                assert(parse_lines_spec(a) + parse_lines_spec(b.drop_last()).push(r) =~= (
                parse_lines_spec(a) + parse_lines_spec(b.drop_last())).push(r));
            },
            None => {},
        }
    }
}

proof fn lemma_trim_identity(s: Seq<char>)
    requires
        s.len() > 0,
        !is_space(s[0]),
        !is_space(s.last()),
    ensures
        trim(s) == s,
{
    assert(trim_start(s) == s);
    assert(trim_end(s) == s);
}

proof fn lemma_plain_pattern(p: Seq<char>, mode: Mode)
    requires
        plain_path(p),
    ensures
        pattern_rule(p, mode) == Some((p, mode)),
        pattern_rule(p + s_dir_star(), mode) == Some((p, mode)),
{
    assert(p != all_marker()) by {
        if p == all_marker() {
            assert(is_wildcard(p[0]));
        }
    }
    assert(!ends_with_dir_star(p)) by {
        if ends_with_dir_star(p) {
            assert(is_wildcard(p[p.len() - 1]));
        }
    }
    assert(trim_end_slashes(p) == p);
    assert(forward_slashes(p) =~= p);
    let q = p + s_dir_star();
    assert(q != all_marker());
    assert(ends_with_dir_star(q));
    assert(q.subrange(0, q.len() - 2) =~= p);
}

proof fn lemma_parse_node_lines(n: Node)
    requires
        n.path@.len() == 0 || plain_path(n.path@),
    ensures
        parse_lines_spec(node_lines(n)) == node_rules(n),
{
    let p = n.path@;
    if p.len() > 0 {
        lemma_plain_pattern(p, Mode::C);
        lemma_plain_pattern(p, Mode::E);
        let l_excl = s_slash() + p;
        let l_dir = s_slash() + p + s_dir_star();
        let l_exc = s_bang_slash() + p;
        lemma_trim_identity(l_excl);
        lemma_trim_identity(l_dir);
        lemma_trim_identity(l_exc);
        assert(strip_root(strip_bang(l_excl)) =~= p);
        assert(strip_root(strip_bang(l_dir)) =~= p + s_dir_star());
        assert(strip_bang(l_exc) =~= s_slash() + p);
        assert(strip_root(strip_bang(l_exc)) =~= p);
        assert(parse_line_spec(l_excl) == Some((p, Mode::C)));
        assert(parse_line_spec(l_dir) == Some((p, Mode::C)));
        assert(parse_line_spec(l_exc) == Some((p, Mode::E)));
        let ls = node_lines(n);
        let e = Seq::<Seq<char>>::empty();
        assert(parse_lines_spec(e) == Seq::<(Seq<char>, Mode)>::empty());
        if ls.len() == 1 {
            assert(ls.drop_last() =~= e);
            let l = ls.last();
            assert(l == l_excl || l == l_dir || l == l_exc);
            assert(parse_lines_spec(ls) =~= node_rules(n));
        } else if ls.len() == 2 {
            assert(ls.drop_last().drop_last() =~= e);
            assert(ls.drop_last() =~= seq![l_exc]);
            assert(ls.last() == l_dir);
            assert(parse_lines_spec(seq![l_exc]) =~= seq![(p, Mode::E)]);
            assert(parse_lines_spec(ls) =~= node_rules(n));
        } else {
            assert(ls =~= e);
            assert(parse_lines_spec(ls) =~= node_rules(n));
        }
    } else {
        assert(parse_lines_spec(node_lines(n)) =~= node_rules(n));
    }
}


proof fn lemma_parse_tree_lines(t: Seq<Node>)
    requires
        forall|i: int| 0 <= i < t.len() ==> (#[trigger] t[i]).path@.len() == 0 || plain_path(t[i].path@),
    ensures
        parse_lines_spec(tree_lines(t)) == tree_rules(t),
    decreases t.len(),
{
    if t.len() > 0 {
        lemma_parse_tree_lines(t.drop_last());
        lemma_parse_concat(tree_lines(t.drop_last()), node_lines(t.last()));
        lemma_parse_node_lines(t.last());
    }
}

proof fn lemma_parse_root_lines(t: Seq<Node>)
    ensures
        parse_lines_spec(root_lines(t)) == if t.len() > 0 && t[0].mark {
            seq![(all_marker(), Mode::C)]
        } else {
            seq![]
        },
{
    let l = s_dir_star();
    lemma_trim_identity(l);
    assert(strip_root(strip_bang(l)) =~= all_marker());
    assert(parse_line_spec(l) == Some((all_marker(), Mode::C)));
    let e = Seq::<Seq<char>>::empty();
    assert(parse_lines_spec(e) == Seq::<(Seq<char>, Mode)>::empty());
    if t.len() > 0 && t[0].mark {
        assert(root_lines(t).drop_last() =~= e);
        assert(parse_lines_spec(root_lines(t)) =~= seq![(all_marker(), Mode::C)]);
    } else {
        assert(root_lines(t) =~= e);
    }
}

proof fn lemma_fold_small(st: (Mode, bool), p: Seq<char>, rs: Seq<(Seq<char>, Mode)>)
    ensures
        rs.len() == 0 ==> fold_from(st, p, rs) == st,
        rs.len() == 1 ==> fold_from(st, p, rs) == rule_effect(st, p, rs[0]),
        rs.len() == 2 ==> fold_from(st, p, rs) == rule_effect(rule_effect(st, p, rs[0]), p, rs[1]),
{
    let e = Seq::<(Seq<char>, Mode)>::empty();
    assert(fold_from(st, p, e) == st);
    if rs.len() == 1 {
        assert(rs.drop_last() =~= e);
        assert(fold_from(st, p, rs) == rule_effect(fold_from(st, p, rs.drop_last()), p, rs.last()));
    } else if rs.len() == 2 {
        let d = rs.drop_last();
        assert(d.drop_last() =~= e);
        assert(d[0] == rs[0]);
        assert(fold_from(st, p, d) == rule_effect(fold_from(st, p, d.drop_last()), p, d.last()));
        assert(fold_from(st, p, rs) == rule_effect(fold_from(st, p, d), p, rs.last()));
    }
}

proof fn lemma_plain_not_all(p: Seq<char>)
    requires
        plain_path(p),
    ensures
        p != all_marker(),
{
    if p == all_marker() {
        assert(is_wildcard(p[0]));
    }
}

/// What one node's regenerated rules do to the state of the node at `px`.
proof fn lemma_node_effect(n: Node, st: (Mode, bool), px: Seq<char>)
    requires
        n.path@.len() == 0 || plain_path(n.path@),
    ensures
        n.path@.len() > 0 && n.path@ == px ==> fold_from(st, px, node_rules(n)) == own_effect(n, st),
        n.path@.len() > 0 && is_child_path(px, n.path@) && st.0 == Mode::N ==> fold_from(
            st,
            px,
            node_rules(n),
        ) == (Mode::N, passed_down(n, st.1)),
        n.path@.len() == 0 || (n.path@ != px && !is_child_path(px, n.path@)) ==> fold_from(
            st,
            px,
            node_rules(n),
        ) == st,
{
    let p = n.path@;
    let rs = node_rules(n);
    lemma_fold_small(st, px, rs);
    if p.len() > 0 {
        lemma_plain_not_all(p);
        if p == px {
            assert(!is_child_path(px, p));
        }
    }
}

/// The state of node `x` after the root's rule and the rules of the first
/// `j` nodes.
proof fn lemma_tree_fold(t: Seq<Node>, x: int, j: int)
    requires
        path_tree_valid(t),
        0 <= x < t.len(),
        0 <= j <= t.len(),
    ensures
        fold_from((Mode::N, t[0].mark), t[x].path@, tree_rules(t.subrange(0, j))) == if j <= x {
            (Mode::N, inherited_mark(t, x, j))
        } else {
            round_trip_state(t, x)
        },
    decreases j,
{
    let px = t[x].path@;
    if j == 0 {
        assert(t.subrange(0, 0) =~= Seq::<Node>::empty());
    } else {
        lemma_tree_fold(t, x, j - 1);
        let sub = t.subrange(0, j);
        assert(sub.drop_last() =~= t.subrange(0, j - 1));
        assert(sub.last() == t[j - 1]);
        let prev = fold_from((Mode::N, t[0].mark), px, tree_rules(t.subrange(0, j - 1)));
        lemma_fold_concat((Mode::N, t[0].mark), px, tree_rules(t.subrange(0, j - 1)), node_rules(t[j - 1]));
        let a = t[j - 1];
        if j - 1 >= 1 {
            assert(plain_path(a.path@));
        }
        lemma_node_effect(a, prev, px);
        if j - 1 == 0 {
            assert(a.path@.len() == 0);
        } else if j - 1 < x {
            assert(a.path@ != px);
            assert(is_child_path(px, a.path@) <==> in_block(t, j - 1, x));
        } else if j - 1 == x {
        } else {
            assert(a.path@ != px);
            assert(is_child_path(px, a.path@) <==> in_block(t, j - 1, x));
        }
    }
}

/// Regenerating the rule file from a tree (with no earlier lines), parsing
/// it and replaying it gives each node of the tree the state
/// `round_trip_state`: its own lines decide when it has any, and otherwise
/// it keeps mode `N` and the mark its nearest ancestor with lines (or the
/// root's `/*`) passes down.
pub proof fn lemma_regenerate_parse_state(t: Seq<Node>)
    requires
        path_tree_valid(t),
    ensures
        forall|x: int|
            0 <= x < t.len() ==> state_after(
                (#[trigger] t[x]).path@,
                parse_lines_spec(regenerated(t, seq![])),
            ) == round_trip_state(t, x),
{
    let e = Seq::<Seq<char>>::empty();
    assert(kept_lines(e, t) =~= e);
    let rr = parse_lines_spec(root_lines(t));
    assert forall|i: int| 0 <= i < t.len() implies (#[trigger] t[i]).path@.len() == 0 || plain_path(
        t[i].path@,
    ) by {
        if i > 0 {
            assert(plain_path(t[i].path@));
        }
    }
    lemma_parse_root_lines(t);
    lemma_parse_tree_lines(t);
    assert(regenerated(t, seq![]) =~= root_lines(t) + tree_lines(t));
    lemma_parse_concat(root_lines(t), tree_lines(t));
    assert forall|x: int| 0 <= x < t.len() implies state_after(
        (#[trigger] t[x]).path@,
        parse_lines_spec(regenerated(t, seq![])),
    ) == round_trip_state(t, x) by {
        let px = t[x].path@;
        lemma_state_after_is_fold(px, rr + tree_rules(t));
        lemma_fold_concat((Mode::N, false), px, rr, tree_rules(t));
        lemma_fold_small((Mode::N, false), px, rr);
        assert(fold_from((Mode::N, false), px, rr) == (Mode::N, t[0].mark));
        lemma_tree_fold(t, x, t.len() as int);
        assert(t.subrange(0, t.len() as int) =~= t);
    }
}

/// `ls`, each line followed by a line feed.
pub open spec fn terminated(ls: Seq<Seq<char>>) -> Seq<char>
    decreases ls.len(),
{
    if ls.len() == 0 {
        seq![]
    } else {
        terminated(ls.drop_last()) + ls.last() + seq!['\n']
    }
}

/// A line that the text layer carries unchanged.
pub open spec fn plain_line(l: Seq<char>) -> bool {
    &&& l.len() > 0
    &&& l.last() != '\r'
    &&& forall|i: int| 0 <= i < l.len() ==> #[trigger] l[i] != '\n'
}

proof fn lemma_join_terminated(ls: Seq<Seq<char>>)
    requires
        ls.len() > 0,
    ensures
        join_lines(ls) + seq!['\n'] == terminated(ls),
    decreases ls.len(),
{
    if ls.len() == 1 {
        assert(ls.drop_last() =~= Seq::<Seq<char>>::empty());
        assert(terminated(ls.drop_last()) =~= Seq::<char>::empty());
        assert(terminated(ls) =~= ls[0] + seq!['\n']);
    } else {
        lemma_join_terminated(ls.drop_last());
        assert(join_lines(ls) + seq!['\n'] =~= join_lines(ls.drop_last()) + seq!['\n'] + ls.last()
            + seq!['\n']);
    }
}

proof fn lemma_terminated_front(ls: Seq<Seq<char>>)
    requires
        ls.len() > 0,
    ensures
        terminated(ls) == ls[0] + seq!['\n'] + terminated(ls.drop_first()),
    decreases ls.len(),
{
    if ls.len() == 1 {
        assert(ls.drop_last() =~= Seq::<Seq<char>>::empty());
        assert(ls.drop_first() =~= Seq::<Seq<char>>::empty());
        assert(terminated(ls.drop_first()) =~= Seq::<char>::empty());
        assert(terminated(ls) =~= ls[0] + seq!['\n'] + terminated(ls.drop_first()));
    } else {
        lemma_terminated_front(ls.drop_last());
        assert(ls.drop_last().drop_first() =~= ls.drop_first().drop_last());
        assert(ls.drop_first().last() == ls.last());
        assert(terminated(ls.drop_first()) == terminated(ls.drop_first().drop_last())
            + ls.drop_first().last() + seq!['\n']);
        assert(terminated(ls) =~= ls[0] + seq!['\n'] + terminated(ls.drop_first()));
    }
}

proof fn lemma_lines_of_terminated(ls: Seq<Seq<char>>)
    requires
        forall|i: int| 0 <= i < ls.len() ==> plain_line(#[trigger] ls[i]),
    ensures
        lines_of(terminated(ls)) == ls,
    decreases ls.len(),
{
    if ls.len() == 0 {
        assert(terminated(ls) =~= Seq::<char>::empty());
        assert(lines_of(terminated(ls)) =~= ls);
    } else {
        lemma_terminated_front(ls);
        let l = ls[0];
        assert(plain_line(l));
        let s = terminated(ls);
        let rest = terminated(ls.drop_first());
        assert forall|i: int| 0 <= i < ls.drop_first().len() implies plain_line(
            #[trigger] ls.drop_first()[i],
        ) by {
            assert(ls.drop_first()[i] == ls[i + 1]);
        }
        lemma_lines_of_terminated(ls.drop_first());
        assert forall|m: int| 0 <= m < l.len() implies #[trigger] s[m] != '\n' by {
            assert(s[m] == l[m]);
        }
        assert(s[l.len() as int] == '\n');
        lemma_newline_at(s, 0, l.len() as int);
        assert(s.subrange(0, l.len() as int) =~= l);
        assert(s.subrange(l.len() as int + 1, s.len() as int) =~= rest);
        assert(strip_cr(l) == l);
        assert(lines_of(s) =~= seq![l] + ls.drop_first());
        assert(seq![l] + ls.drop_first() =~= ls);
    }
}

proof fn lemma_newline_at(s: Seq<char>, k: int, e: int)
    requires
        0 <= k <= e < s.len(),
        forall|m: int| k <= m < e ==> #[trigger] s[m] != '\n',
        s[e] == '\n',
    ensures
        newline_from(s, k) == e,
    decreases e - k,
{
    if k < e {
        lemma_newline_at(s, k + 1, e);
    }
}

/// The file text of plain lines splits back into those lines.
pub proof fn lemma_file_text_lines(ls: Seq<Seq<char>>)
    requires
        forall|i: int| 0 <= i < ls.len() ==> plain_line(#[trigger] ls[i]),
    ensures
        lines_of(file_text(ls)) == ls,
{
    if ls.len() > 0 {
        lemma_join_terminated(ls);
        let j = join_lines(ls);
        let l = ls.last();
        assert(plain_line(ls[ls.len() - 1]));
        if ls.len() > 1 {
            assert(j == join_lines(ls.drop_last()) + seq!['\n'] + l);
        }
        assert(j.len() > 0 && j.last() == l.last());
        assert(file_text(ls) == terminated(ls));
    } else {
        assert(file_text(ls) =~= Seq::<char>::empty());
        assert(ls =~= Seq::<Seq<char>>::empty());
    }
    lemma_lines_of_terminated(ls);
    if ls.len() == 0 {
        assert(terminated(ls) =~= Seq::<char>::empty());
    }
}

proof fn lemma_tree_lines_plain(t: Seq<Node>)
    requires
        forall|i: int| 0 <= i < t.len() ==> (#[trigger] t[i]).path@.len() == 0 || plain_path(t[i].path@),
    ensures
        forall|i: int| 0 <= i < tree_lines(t).len() ==> plain_line(#[trigger] tree_lines(t)[i]),
    decreases t.len(),
{
    if t.len() > 0 {
        lemma_tree_lines_plain(t.drop_last());
        let n = t.last();
        let p = n.path@;
        let prev = tree_lines(t.drop_last());
        let ls = node_lines(n);
        if p.len() > 0 {
            assert(plain_path(p));
            assert(!is_space(p.last()));
            assert(p.last() != '\r');
            let l1 = s_slash() + p;
            let l2 = s_slash() + p + s_dir_star();
            let l3 = s_bang_slash() + p;
            assert forall|i: int| 0 <= i < l1.len() implies #[trigger] l1[i] != '\n' by {
                if i > 0 {
                    assert(l1[i] == p[i - 1]);
                }
            }
            assert forall|i: int| 0 <= i < l2.len() implies #[trigger] l2[i] != '\n' by {
                if 0 < i < p.len() + 1 {
                    assert(l2[i] == p[i - 1]);
                }
            }
            assert forall|i: int| 0 <= i < l3.len() implies #[trigger] l3[i] != '\n' by {
                if i > 1 {
                    assert(l3[i] == p[i - 2]);
                }
            }
            assert(plain_line(l1) && plain_line(l2) && plain_line(l3));
        }
        assert forall|i: int| 0 <= i < tree_lines(t).len() implies plain_line(
            #[trigger] tree_lines(t)[i],
        ) by {
            if i < prev.len() {
                assert(tree_lines(t)[i] == prev[i]);
            } else {
                assert(tree_lines(t)[i] == ls[i - prev.len()]);
            }
        }
    }
}

proof fn lemma_regenerated_text_lines(t: Seq<Node>)
    requires
        path_tree_valid(t),
    ensures
        lines_of(file_text(regenerated(t, seq![]))) == regenerated(t, seq![]),
{
    let ls = regenerated(t, seq![]);
    assert forall|i: int| 0 <= i < t.len() implies (#[trigger] t[i]).path@.len() == 0 || plain_path(
        t[i].path@,
    ) by {
        if i > 0 {
            assert(plain_path(t[i].path@));
        }
    }
    lemma_tree_lines_plain(t);
    assert(kept_lines(Seq::<Seq<char>>::empty(), t) =~= Seq::<Seq<char>>::empty());
    assert(ls =~= root_lines(t) + tree_lines(t));
    assert forall|i: int| 0 <= i < ls.len() implies plain_line(#[trigger] ls[i]) by {
        let r = root_lines(t);
        if i < r.len() {
            assert(ls[i] == s_dir_star());
        } else {
            assert(ls[i] == tree_lines(t)[i - r.len()]);
        }
    }
    lemma_file_text_lines(ls);
}

proof fn lemma_paths_normalized(t: Seq<Node>)
    requires
        path_tree_valid(t),
    ensures
        forall|x: int| 0 <= x < t.len() ==> forward_slashes((#[trigger] t[x]).path@) == t[x].path@,
{
    assert forall|x: int| 0 <= x < t.len() implies forward_slashes((#[trigger] t[x]).path@)
        == t[x].path@ by {
        if x > 0 {
            assert(plain_path(t[x].path@));
        }
        assert(forward_slashes(t[x].path@) =~= t[x].path@);
    }
}

/// The trees that regeneration reproduces: every node's mode and mark are
/// the ones `round_trip_state` gives it.
pub open spec fn reproducible(t: Seq<Node>) -> bool {
    forall|x: int| 0 <= x < t.len() ==> ((#[trigger] t[x]).mode, t[x].mark) == round_trip_state(t, x)
}

/// Regenerating the rule file text from a tree, parsing it, and applying it to
/// a freshly built tree with the same paths reproduces the mode and mark of
/// every node, exactly for the trees that are `reproducible`. (A `N`
/// directory sheltering an exception, for one, comes back as `C`.)
pub proof fn lemma_round_trip(t: Seq<Node>, fresh: Seq<Node>, applied: Seq<Node>)
    requires
        path_tree_valid(t),
        fresh.len() == t.len(),
        forall|i: int| 0 <= i < t.len() ==> (#[trigger] fresh[i]).path == t[i].path,
        rules_applied(
            fresh,
            applied,
            parse_lines_spec(lines_of(file_text(regenerated(t, seq![])))),
        ),
    ensures
        (forall|x: int|
            0 <= x < t.len() ==> (#[trigger] applied[x]).mode == t[x].mode && applied[x].mark
                == t[x].mark) <==> reproducible(t),
{
    lemma_regenerate_parse_state(t);
    lemma_regenerated_text_lines(t);
    lemma_paths_normalized(t);
    assert forall|x: int| 0 <= x < t.len() implies ((#[trigger] applied[x]).mode, applied[x].mark)
        == round_trip_state(t, x) by {
        assert(fresh[x].path == t[x].path);
        assert(forward_slashes(t[x].path@) == t[x].path@);
        assert(state_after(t[x].path@, parse_lines_spec(regenerated(t, seq![]))) == round_trip_state(t, x));
    }
    if forall|x: int|
        0 <= x < t.len() ==> (#[trigger] applied[x]).mode == t[x].mode && applied[x].mark
            == t[x].mark {
        assert forall|x: int| 0 <= x < t.len() implies ((#[trigger] t[x]).mode, t[x].mark)
            == round_trip_state(t, x) by {
            assert(applied[x].mode == t[x].mode);
            assert(((applied[x]).mode, applied[x].mark) == round_trip_state(t, x));
        }
    }
    if reproducible(t) {
        assert forall|x: int| 0 <= x < t.len() implies (#[trigger] applied[x]).mode == t[x].mode
            && applied[x].mark == t[x].mark by {
            assert(((applied[x]).mode, applied[x].mark) == round_trip_state(t, x));
            assert((t[x].mode, t[x].mark) == round_trip_state(t, x));
        }
    }
}

} // verus!
