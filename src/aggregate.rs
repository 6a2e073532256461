//! Per-directory aggregates, recomputed over the whole tree after each
//! mutation.
//!
//! The flat tree is in preorder: the descendants of node `i` are the maximal
//! run of nodes after `i` whose depth is greater than `i`'s. Both counters
//! sum the counters of descendants, so on a deep chain of directories they
//! grow exponentially; they saturate at `usize::MAX`, which keeps the one
//! thing their consumers read, whether they are zero, exact.
use crate::model::{Mode, Node};
use vstd::prelude::*;

verus! {

/// `x`, capped at `usize::MAX`.
pub open spec fn sat(x: nat) -> nat {
    if x > usize::MAX {
        usize::MAX as nat
    } else {
        x
    }
}

/// Scanning from `k`, the first index that is not a descendant of `i`.
pub open spec fn block_end_from(s: Seq<Node>, i: int, k: int) -> int
    decreases s.len() - k,
{
    if k < 0 || k >= s.len() || s[k].depth <= s[i].depth {
        k
    } else {
        block_end_from(s, i, k + 1)
    }
}

/// One past the last descendant of node `i`.
pub open spec fn block_end(s: Seq<Node>, i: int) -> int {
    block_end_from(s, i, i + 1)
}

/// Node `k` lies in the descendant block of node `i`.
pub open spec fn in_block(s: Seq<Node>, i: int, k: int) -> bool {
    i < k < block_end(s, i)
}

pub open spec fn exception_indicator(n: Node) -> nat {
    if n.mode == Mode::E {
        1
    } else {
        0
    }
}

/// Sum of the exception counts of the nodes `i+1 .. j`.
pub open spec fn exception_sum(s: Seq<Node>, i: int, j: int) -> nat
    decreases s.len() - i, j - i,
{
    if i < 0 || j <= i + 1 || j > s.len() {
        0
    } else {
        exception_sum(s, i, j - 1) + exception_indicator(s[j - 1]) + if s[j - 1].is_dir {
            exception_sum(s, j - 1, block_end(s, j - 1))
        } else {
            0
        }
    }
}

/// Exception count of node `i`: its own indicator, plus, for a directory,
/// the exception counts of all its descendants.
pub open spec fn exception_count(s: Seq<Node>, i: int) -> nat {
    exception_indicator(s[i]) + if s[i].is_dir {
        exception_sum(s, i, block_end(s, i))
    } else {
        0
    }
}

/// Sum, over the nodes `i+1 .. j`, of whether their mark differs from
/// node `i`'s, plus the mixed-mark counts of the directories among them.
pub open spec fn mixed_sum(s: Seq<Node>, i: int, j: int) -> nat
    decreases s.len() - i, j - i,
{
    if i < 0 || j <= i + 1 || j > s.len() {
        0
    } else {
        mixed_sum(s, i, j - 1) + (if s[j - 1].mark != s[i].mark {
            1nat
        } else {
            0nat
        }) + if s[j - 1].is_dir {
            mixed_sum(s, j - 1, block_end(s, j - 1))
        } else {
            0
        }
    }
}

/// Mixed-mark count of node `i`: zero for a file; for a directory, the
/// number of descendants whose mark differs from its own, plus the
/// mixed-mark count of each descendant directory.
pub open spec fn mixed_count(s: Seq<Node>, i: int) -> nat {
    if s[i].is_dir {
        mixed_sum(s, i, block_end(s, i))
    } else {
        0
    }
}

/// Both counters of every node agree with the modes and marks of the tree.
pub open spec fn aggregates_consistent(s: Seq<Node>) -> bool {
    forall|i: int|
        0 <= i < s.len() ==> (#[trigger] s[i]).cpt_exception == sat(exception_count(s, i))
            && s[i].cpt_mixed_marks == sat(mixed_count(s, i))
}

/// `b` is `a` with only the two counters possibly changed.
pub open spec fn same_but_counters(a: Seq<Node>, b: Seq<Node>) -> bool {
    &&& a.len() == b.len()
    &&& forall|i: int|
        0 <= i < a.len() ==> {
            &&& (#[trigger] b[i]).path == a[i].path
            &&& b[i].name == a[i].name
            &&& b[i].is_dir == a[i].is_dir
            &&& b[i].depth == a[i].depth
            &&& b[i].expanded == a[i].expanded
            &&& b[i].mode == a[i].mode
            &&& b[i].mark == a[i].mark
            &&& b[i].generic_mark == a[i].generic_mark
        }
}

/// The counters enter none of the spec functions above.
proof fn lemma_block_end_from_depends_on_depths(s: Seq<Node>, t: Seq<Node>, i: int, k: int)
    requires
        same_but_counters(s, t),
        0 <= i < s.len(),
    ensures
        block_end_from(s, i, k) == block_end_from(t, i, k),
    decreases s.len() - k,
{
    if k < 0 || k >= s.len() || s[k].depth <= s[i].depth {
    } else {
        lemma_block_end_from_depends_on_depths(s, t, i, k + 1);
    }
}

proof fn lemma_sums_ignore_counters(s: Seq<Node>, t: Seq<Node>, i: int, j: int)
    requires
        same_but_counters(s, t),
    ensures
        exception_sum(s, i, j) == exception_sum(t, i, j),
        mixed_sum(s, i, j) == mixed_sum(t, i, j),
    decreases s.len() - i, j - i,
{
    if i < 0 || j <= i + 1 || j > s.len() {
    } else {
        lemma_sums_ignore_counters(s, t, i, j - 1);
        lemma_block_end_from_depends_on_depths(s, t, j - 1, j);
        lemma_sums_ignore_counters(s, t, j - 1, block_end(s, j - 1));
    }
}

/// Exception and mixed-mark counts read no counter.
pub proof fn lemma_counts_ignore_counters(s: Seq<Node>, t: Seq<Node>, i: int)
    requires
        same_but_counters(s, t),
        0 <= i < s.len(),
    ensures
        exception_count(s, i) == exception_count(t, i),
        mixed_count(s, i) == mixed_count(t, i),
{
    lemma_block_end_from_depends_on_depths(s, t, i, i + 1);
    lemma_sums_ignore_counters(s, t, i, block_end(s, i));
}

pub proof fn lemma_block_end_from_step(s: Seq<Node>, i: int, k: int)
    requires
        0 <= i < k < s.len(),
        s[k].depth > s[i].depth,
    ensures
        block_end_from(s, i, k) == block_end_from(s, i, k + 1),
{
}

/// Recomputes the exception count of every node: a node's own indicator
/// (1 for mode `E`), plus, for a directory, the sum of the exception counts
/// of its descendants.
pub fn recompute_cpt_exception(nodes: &mut Vec<Node>)
    ensures
        same_but_counters(old(nodes)@, final(nodes)@),
        forall|i: int|
            0 <= i < final(nodes)@.len() ==> (#[trigger] final(nodes)@[i]).cpt_exception == sat(
                exception_count(old(nodes)@, i),
            ) && final(nodes)@[i].cpt_mixed_marks == old(nodes)@[i].cpt_mixed_marks,
{
    let ghost orig = nodes@;
    let len = nodes.len();
    let mut k: usize = 0;
    while k < len
        invariant
            len == nodes@.len(),
            0 <= k <= len,
            same_but_counters(orig, nodes@),
            forall|m: int|
                0 <= m < len ==> (#[trigger] nodes@[m]).cpt_mixed_marks == orig[m].cpt_mixed_marks,
            forall|m: int|
                0 <= m < k ==> (#[trigger] nodes@[m]).cpt_exception == exception_indicator(orig[m]),
        decreases len - k,
    {
        let ind: usize = if nodes[k].mode == Mode::E {
            1
        } else {
            0
        };
        nodes[k].cpt_exception = ind;
        k = k + 1;
    }
    let mut i: usize = len;
    while i > 0
        invariant
            len == nodes@.len(),
            0 <= i <= len,
            same_but_counters(orig, nodes@),
            forall|m: int|
                0 <= m < len ==> (#[trigger] nodes@[m]).cpt_mixed_marks == orig[m].cpt_mixed_marks,
            forall|m: int|
                0 <= m < i ==> (#[trigger] nodes@[m]).cpt_exception == exception_indicator(orig[m]),
            forall|m: int|
                i <= m < len ==> (#[trigger] nodes@[m]).cpt_exception == sat(
                    exception_count(orig, m),
                ),
        decreases i,
    {
        i = i - 1;
        if nodes[i].is_dir {
            let depth = nodes[i].depth;
            let mut j: usize = i + 1;
            let mut sum: usize = nodes[i].cpt_exception;
            while j < len && nodes[j].depth > depth
                invariant
                    len == nodes@.len(),
                    0 <= i < len,
                    i + 1 <= j <= len,
                    depth == orig[i as int].depth,
                    same_but_counters(orig, nodes@),
                    forall|m: int|
                        i < m < len ==> (#[trigger] nodes@[m]).cpt_exception == sat(
                            exception_count(orig, m),
                        ),
                    block_end(orig, i as int) == block_end_from(orig, i as int, j as int),
                    sum == sat(
                        exception_indicator(orig[i as int]) + exception_sum(orig, i as int, j as int),
                    ),
                decreases len - j,
            {
                proof {
                    lemma_block_end_from_step(orig, i as int, j as int);
                }
                sum = sum.saturating_add(nodes[j].cpt_exception);
                j = j + 1;
            }
            nodes[i].cpt_exception = sum;
        }
    }
}


/// Recomputes the mixed-mark count of every node: zero for a file; for a
/// directory, the number of descendants whose mark differs from its own,
/// plus the mixed-mark count of each descendant directory.
pub fn recompute_cpt_mixed_marks(nodes: &mut Vec<Node>)
    ensures
        same_but_counters(old(nodes)@, final(nodes)@),
        forall|i: int|
            0 <= i < final(nodes)@.len() ==> (#[trigger] final(nodes)@[i]).cpt_mixed_marks == sat(
                mixed_count(old(nodes)@, i),
            ) && final(nodes)@[i].cpt_exception == old(nodes)@[i].cpt_exception,
{
    let ghost orig = nodes@;
    let len = nodes.len();
    let mut i: usize = len;
    while i > 0
        invariant
            len == nodes@.len(),
            0 <= i <= len,
            same_but_counters(orig, nodes@),
            forall|m: int|
                0 <= m < len ==> (#[trigger] nodes@[m]).cpt_exception == orig[m].cpt_exception,
            forall|m: int|
                i <= m < len ==> (#[trigger] nodes@[m]).cpt_mixed_marks == sat(
                    mixed_count(orig, m),
                ),
        decreases i,
    {
        i = i - 1;
        if nodes[i].is_dir {
            let parent_mark = nodes[i].mark;
            let depth = nodes[i].depth;
            let mut j: usize = i + 1;
            let mut count: usize = 0;
            while j < len && nodes[j].depth > depth
                invariant
                    len == nodes@.len(),
                    0 <= i < len,
                    i + 1 <= j <= len,
                    depth == orig[i as int].depth,
                    parent_mark == orig[i as int].mark,
                    same_but_counters(orig, nodes@),
                    forall|m: int|
                        i < m < len ==> (#[trigger] nodes@[m]).cpt_mixed_marks == sat(
                            mixed_count(orig, m),
                        ),
                    block_end(orig, i as int) == block_end_from(orig, i as int, j as int),
                    count == sat(mixed_sum(orig, i as int, j as int)),
                decreases len - j,
            {
                proof {
                    lemma_block_end_from_step(orig, i as int, j as int);
                }
                if nodes[j].mark != parent_mark {
                    count = count.saturating_add(1);
                }
                if nodes[j].is_dir {
                    count = count.saturating_add(nodes[j].cpt_mixed_marks);
                }
                j = j + 1;
            }
            nodes[i].cpt_mixed_marks = count;
        } else {
            nodes[i].cpt_mixed_marks = 0;
        }
    }
}

} // verus!
