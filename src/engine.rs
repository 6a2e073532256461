//! Replays the ordered exact rules over every node of the tree.
use crate::aggregate::{
    aggregates_consistent, lemma_counts_ignore_counters, recompute_cpt_exception,
    recompute_cpt_mixed_marks, same_but_counters, sat, exception_count, mixed_count,
};
use crate::model::{rule_view, Mode, Node, Rule};
use crate::text::{
    all_marker, child_path_of, forward_slashes, is_all_marker, is_child_path, replace_backslashes,
    same_text,
};
use vstd::prelude::*;

verus! {

/// `m`, turned into `N` where it equals `from`.
pub open spec fn demote(m: Mode, from: Mode) -> Mode {
    if m == from {
        Mode::N
    } else {
        m
    }
}

/// What one rule does to the (mode, mark) of the node at path `rel`. The
/// marker `*`, and a pattern of which `rel` is a strict path-descendant,
/// set the mark and demote the opposite explicit mode; a pattern equal to
/// `rel` sets both mode and mark.
pub open spec fn rule_effect(st: (Mode, bool), rel: Seq<char>, rule: (Seq<char>, Mode)) -> (
    Mode,
    bool,
) {
    let pat = rule.0;
    match rule.1 {
        Mode::C => {
            if pat == all_marker() || is_child_path(rel, pat) {
                (demote(st.0, Mode::E), true)
            } else if rel == pat {
                (Mode::C, true)
            } else {
                st
            }
        },
        Mode::E => {
            if pat == all_marker() || is_child_path(rel, pat) {
                (demote(st.0, Mode::C), false)
            } else if rel == pat {
                (Mode::E, false)
            } else {
                st
            }
        },
        Mode::N => st,
    }
}

/// The (mode, mark) of the node at path `rel` once `rules` are replayed in
/// order from (`N`, unmarked).
pub open spec fn state_after(rel: Seq<char>, rules: Seq<(Seq<char>, Mode)>) -> (Mode, bool)
    decreases rules.len(),
{
    if rules.len() == 0 {
        (Mode::N, false)
    } else {
        rule_effect(state_after(rel, rules.drop_last()), rel, rules.last())
    }
}

/// Whether `rules`, replayed in order, leave the path `p` excluded.
pub open spec fn ignored_after(p: Seq<char>, rules: Seq<(Seq<char>, Mode)>) -> bool
    decreases rules.len(),
{
    if rules.len() == 0 {
        false
    } else {
        let r = rules.last();
        let prev = ignored_after(p, rules.drop_last());
        let hits = r.0 == all_marker() || p == r.0 || is_child_path(p, r.0);
        match r.1 {
            Mode::C => if hits {
                true
            } else {
                prev
            },
            Mode::E => if hits {
                false
            } else {
                prev
            },
            Mode::N => prev,
        }
    }
}

/// `after` is `before` with every node's mode and mark replaced by what
/// `rules` give its path (backslashes read as `/`), and with consistent
/// aggregates.
pub open spec fn rules_applied(
    before: Seq<Node>,
    after: Seq<Node>,
    rules: Seq<(Seq<char>, Mode)>,
) -> bool {
    &&& after.len() == before.len()
    &&& forall|i: int|
        0 <= i < before.len() ==> {
            &&& (#[trigger] after[i]).path == before[i].path
            &&& after[i].name == before[i].name
            &&& after[i].is_dir == before[i].is_dir
            &&& after[i].depth == before[i].depth
            &&& after[i].expanded == before[i].expanded
            &&& after[i].generic_mark == before[i].generic_mark
            &&& (after[i].mode, after[i].mark) == state_after(
                forward_slashes(before[i].path@),
                rules,
            )
        }
    &&& aggregates_consistent(after)
}

fn rule_step(mode: Mode, mark: bool, rel: &str, rule: &Rule) -> (r: (Mode, bool))
    ensures
        r == rule_effect((mode, mark), rel@, rule_view(*rule)),
{
    let pat = rule.pattern.as_str();
    let all = is_all_marker(pat);
    let exact = same_text(rel, pat);
    let child = child_path_of(rel, pat);
    match rule.mode {
        Mode::C => {
            if all || child {
                (if mode == Mode::E { Mode::N } else { mode }, true)
            } else if exact {
                (Mode::C, true)
            } else {
                (mode, mark)
            }
        },
        Mode::E => {
            if all || child {
                (if mode == Mode::C { Mode::N } else { mode }, false)
            } else if exact {
                (Mode::E, false)
            } else {
                (mode, mark)
            }
        },
        Mode::N => (mode, mark),
    }
}

/// Recomputes both aggregates of every node.
pub fn recompute_aggregates(nodes: &mut Vec<Node>)
    ensures
        same_but_counters(old(nodes)@, final(nodes)@),
        aggregates_consistent(final(nodes)@),
{
    let ghost s0 = nodes@;
    recompute_cpt_exception(nodes);
    let ghost s1 = nodes@;
    recompute_cpt_mixed_marks(nodes);
    proof {
        let s2 = nodes@;
        assert forall|i: int| 0 <= i < s2.len() implies (#[trigger] s2[i]).cpt_exception == sat(
            exception_count(s2, i),
        ) && s2[i].cpt_mixed_marks == sat(mixed_count(s2, i)) by {
            lemma_counts_ignore_counters(s0, s2, i);
            lemma_counts_ignore_counters(s1, s2, i);
        }
    }
}

/// Resets every node to (`N`, unmarked), replays `rules` in order over each
/// node's path (with backslashes read as `/`), then recomputes the
/// aggregates.
pub fn apply_rules_to_nodes(nodes: &mut Vec<Node>, rules: &[Rule])
    ensures
        rules_applied(old(nodes)@, final(nodes)@, rules@.map_values(|x: Rule| rule_view(x))),
{
    let ghost orig = nodes@;
    let ghost rv = rules@.map_values(|x: Rule| rule_view(x));
    let len = nodes.len();
    let mut i: usize = 0;
    while i < len
        invariant
            len == nodes@.len() == orig.len(),
            0 <= i <= len,
            rv == rules@.map_values(|x: Rule| rule_view(x)),
            forall|k: int|
                0 <= k < len ==> {
                    &&& (#[trigger] nodes@[k]).path == orig[k].path
                    &&& nodes@[k].name == orig[k].name
                    &&& nodes@[k].is_dir == orig[k].is_dir
                    &&& nodes@[k].depth == orig[k].depth
                    &&& nodes@[k].expanded == orig[k].expanded
                    &&& nodes@[k].generic_mark == orig[k].generic_mark
                },
            forall|k: int|
                0 <= k < i ==> ((#[trigger] nodes@[k]).mode, nodes@[k].mark) == state_after(
                    forward_slashes(orig[k].path@),
                    rv,
                ),
        decreases len - i,
    {
        let rel = replace_backslashes(nodes[i].path.as_str());
        let mut mode = Mode::N;
        let mut mark = false;
        let mut r: usize = 0;
        while r < rules.len()
            invariant
                0 <= r <= rules@.len(),
                i < len == nodes@.len(),
                rv == rules@.map_values(|x: Rule| rule_view(x)),
                rel@ == forward_slashes(nodes@[i as int].path@),
                (mode, mark) == state_after(rel@, rv.subrange(0, r as int)),
            decreases rules@.len() - r,
        {
            proof {
                assert(rv.subrange(0, r + 1).drop_last() =~= rv.subrange(0, r as int));
                assert(rv.subrange(0, r + 1).last() == rule_view(rules@[r as int]));
            }
            let st = rule_step(mode, mark, rel.as_str(), &rules[r]);
            mode = st.0;
            mark = st.1;
            r = r + 1;
        }
        proof {
            assert(rv.subrange(0, rules@.len() as int) =~= rv);
        }
        nodes[i].mode = mode;
        nodes[i].mark = mark;
        i = i + 1;
    }
    recompute_aggregates(nodes);
}

/// Whether `rules`, replayed in order, leave `file_path` excluded; the
/// path's backslashes count as forward slashes.
pub fn should_be_ignored(file_path: &str, rules: &[Rule]) -> (r: bool)
    ensures
        r == ignored_after(forward_slashes(file_path@), rules@.map_values(|x: Rule| rule_view(x))),
{
    let ghost rv = rules@.map_values(|x: Rule| rule_view(x));
    let normalized = replace_backslashes(file_path);
    let p = normalized.as_str();
    let mut should_ignore = false;
    let mut k: usize = 0;
    while k < rules.len()
        invariant
            0 <= k <= rules@.len(),
            p@ == forward_slashes(file_path@),
            rv == rules@.map_values(|x: Rule| rule_view(x)),
            should_ignore == ignored_after(p@, rv.subrange(0, k as int)),
        decreases rules@.len() - k,
    {
        proof {
            assert(rv.subrange(0, k + 1).drop_last() =~= rv.subrange(0, k as int));
            assert(rv.subrange(0, k + 1).last() == rule_view(rules@[k as int]));
        }
        let rule = &rules[k];
        let pat = rule.pattern.as_str();
        let hits = is_all_marker(pat) || same_text(p, pat) || child_path_of(p, pat);
        match rule.mode {
            Mode::C => {
                if hits {
                    should_ignore = true;
                }
            },
            Mode::E => {
                if hits {
                    should_ignore = false;
                }
            },
            Mode::N => {},
        }
        k = k + 1;
    }
    proof {
        assert(rv.subrange(0, rules@.len() as int) =~= rv);
    }
    should_ignore
}

/// Excluding a path alone, without a tree, follows the same precedence as
/// replaying the rules over a tree: the mark comes out the same.
pub proof fn lemma_ignored_agrees_with_mark(p: Seq<char>, rules: Seq<(Seq<char>, Mode)>)
    ensures
        ignored_after(p, rules) == state_after(p, rules).1,
    decreases rules.len(),
{
    if rules.len() > 0 {
        lemma_ignored_agrees_with_mark(p, rules.drop_last());
    }
}

/// A path alone, without a tree, is excluded exactly when applying the
/// same rules to a tree marks the node at that path.
pub proof fn lemma_ignored_agrees_with_apply(
    before: Seq<Node>,
    after: Seq<Node>,
    rules: Seq<(Seq<char>, Mode)>,
    i: int,
)
    requires
        rules_applied(before, after, rules),
        0 <= i < before.len(),
    ensures
        ignored_after(forward_slashes(before[i].path@), rules) == after[i].mark,
{
    lemma_ignored_agrees_with_mark(forward_slashes(before[i].path@), rules);
    assert(after[i].path == before[i].path);
}

} // verus!
