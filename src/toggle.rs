//! The user's toggle of one node, forced down a directory's subtree.
use crate::aggregate::{aggregates_consistent, block_end, block_end_from, in_block};
use crate::engine::recompute_aggregates;
use crate::model::{Mode, Node};
use vstd::prelude::*;

verus! {

/// The mode a node takes when its mark is flipped from `was_marked`.
pub open spec fn toggled_mode(m: Mode, was_marked: bool) -> Mode {
    if !was_marked {
        match m {
            Mode::E => Mode::N,
            Mode::N => Mode::C,
            Mode::C => Mode::C,
        }
    } else {
        match m {
            Mode::N => Mode::E,
            Mode::C => Mode::N,
            Mode::E => Mode::E,
        }
    }
}

/// Everything but mode, mark and the two counters is kept.
pub open spec fn same_shape(a: Seq<Node>, b: Seq<Node>) -> bool {
    &&& a.len() == b.len()
    &&& forall|i: int|
        0 <= i < a.len() ==> {
            &&& (#[trigger] b[i]).path == a[i].path
            &&& b[i].name == a[i].name
            &&& b[i].is_dir == a[i].is_dir
            &&& b[i].depth == a[i].depth
            &&& b[i].expanded == a[i].expanded
            &&& b[i].generic_mark == a[i].generic_mark
        }
}

/// Sets `mark` and mode `N` on every descendant of directory `idx` that no
/// glob rule marked, and zeroes the exception counter of `idx` and of all
/// its descendants (the caller recomputes the counters afterwards).
pub fn apply_recursive_mark_on_dir(nodes: &mut Vec<Node>, idx: usize, mark: bool)
    requires
        idx < old(nodes)@.len(),
    ensures
        same_shape(old(nodes)@, final(nodes)@),
        forall|k: int|
            0 <= k < old(nodes)@.len() ==> {
                let a = old(nodes)@[k];
                let b = #[trigger] final(nodes)@[k];
                &&& b.cpt_mixed_marks == a.cpt_mixed_marks
                &&& if in_block(old(nodes)@, idx as int, k) {
                    &&& b.cpt_exception == 0
                    &&& if a.generic_mark {
                        b.mode == a.mode && b.mark == a.mark
                    } else {
                        b.mode == Mode::N && b.mark == mark
                    }
                } else if k == idx {
                    b.cpt_exception == 0 && b.mode == a.mode && b.mark == a.mark
                } else {
                    b == a
                }
            },
{
    let ghost orig = nodes@;
    let len = nodes.len();
    let depth = nodes[idx].depth;
    nodes[idx].cpt_exception = 0;
    let mut i: usize = idx + 1;
    while i < len && nodes[i].depth > depth
        invariant
            nodes@.len() == orig.len() == len,
            idx < i <= orig.len(),
            depth == orig[idx as int].depth,
            block_end(orig, idx as int) == block_end_from(orig, idx as int, i as int),
            same_shape(orig, nodes@),
            forall|k: int|
                0 <= k < orig.len() ==> {
                    let a = orig[k];
                    let b = #[trigger] nodes@[k];
                    &&& b.cpt_mixed_marks == a.cpt_mixed_marks
                    &&& if idx < k < i {
                        &&& b.cpt_exception == 0
                        &&& if a.generic_mark {
                            b.mode == a.mode && b.mark == a.mark
                        } else {
                            b.mode == Mode::N && b.mark == mark
                        }
                    } else if k == idx {
                        b.cpt_exception == 0 && b.mode == a.mode && b.mark == a.mark
                    } else {
                        b == a
                    }
                },
        decreases orig.len() - i,
    {
        if !nodes[i].generic_mark {
            nodes[i].mark = mark;
            nodes[i].mode = Mode::N;
        }
        nodes[i].cpt_exception = 0;
        i = i + 1;
    }
    proof {
        assert(block_end(orig, idx as int) == i as int);
    }
}

/// The user's toggle of node `idx`. A node that a glob rule marked is left
/// as it is. Otherwise its mark flips, its mode follows `toggled_mode`,
/// and for a directory the new mark is forced on every descendant that no
/// glob rule marked, with mode `N`; the aggregates are then recomputed.
pub fn toggle(nodes: &mut Vec<Node>, idx: usize)
    requires
        idx < old(nodes)@.len(),
    ensures
        old(nodes)@[idx as int].generic_mark ==> final(nodes)@ == old(nodes)@,
        !old(nodes)@[idx as int].generic_mark ==> {
            let a = old(nodes)@;
            let b = final(nodes)@;
            let x = a[idx as int];
            &&& same_shape(a, b)
            &&& aggregates_consistent(b)
            &&& b[idx as int].mark == !x.mark
            &&& b[idx as int].mode == toggled_mode(x.mode, x.mark)
            &&& forall|k: int|
                0 <= k < a.len() && k != idx ==> if x.is_dir && in_block(a, idx as int, k)
                    && !a[k].generic_mark {
                    (#[trigger] b[k]).mark == !x.mark && b[k].mode == Mode::N
                } else {
                    b[k].mark == a[k].mark && b[k].mode == a[k].mode
                }
        },
{
    if nodes[idx].generic_mark {
        return;
    }
    let ghost orig = nodes@;
    let was_marked = nodes[idx].mark;
    let is_dir = nodes[idx].is_dir;
    let new_mode = if !was_marked {
        match nodes[idx].mode {
            Mode::E => Mode::N,
            Mode::N => Mode::C,
            Mode::C => Mode::C,
        }
    } else {
        match nodes[idx].mode {
            Mode::N => Mode::E,
            Mode::C => Mode::N,
            Mode::E => Mode::E,
        }
    };
    nodes[idx].mark = !was_marked;
    nodes[idx].mode = new_mode;
    let ghost mid = nodes@;
    assert(same_shape(orig, mid));
    if is_dir {
        proof {
            assert forall|k: int| #![auto] 0 <= k < orig.len() implies mid[k].depth == orig[k].depth by {}
            lemma_block_end_same_depths(orig, mid, idx as int, idx + 1);
        }
        apply_recursive_mark_on_dir(nodes, idx, !was_marked);
    }
    recompute_aggregates(nodes);
}

proof fn lemma_block_end_same_depths(s: Seq<Node>, t: Seq<Node>, i: int, k: int)
    requires
        s.len() == t.len(),
        0 <= i < s.len(),
        forall|m: int| #![auto] 0 <= m < s.len() ==> t[m].depth == s[m].depth,
    ensures
        block_end_from(s, i, k) == block_end_from(t, i, k),
    decreases s.len() - k,
{
    if k < 0 || k >= s.len() || s[k].depth <= s[i].depth {
    } else {
        lemma_block_end_same_depths(s, t, i, k + 1);
    }
}

} // verus!
