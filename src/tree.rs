//! Building the flat preorder snapshot, and reading which nodes are on
//! screen.
use crate::aggregate::{block_end, block_end_from, in_block, lemma_block_end_from_step};
use crate::model::{Mode, Node};
use vstd::prelude::*;
use vstd::multiset::Multiset;
use vstd::seq_lib::to_multiset_insert;

verus! {

/// One directory entry as listed: its name and whether it is a directory.
#[derive(Clone, Debug)]
pub struct Entry {
    pub name: String,
    pub is_dir: bool,
}

pub open spec fn entry_view(e: Entry) -> (Seq<char>, bool) {
    (e.name@, e.is_dir)
}

/// Strict lexicographic order of character sequences by code point, which
/// is the order of their UTF-8 encodings.
pub open spec fn name_lt(a: Seq<char>, b: Seq<char>) -> bool
    decreases a.len(),
{
    if a.len() == 0 {
        b.len() > 0
    } else if b.len() == 0 {
        false
    } else if a[0] != b[0] {
        a[0] < b[0]
    } else {
        name_lt(a.drop_first(), b.drop_first())
    }
}

/// Listing order: directories before files, then names ascending.
pub open spec fn entry_lt(x: (Seq<char>, bool), y: (Seq<char>, bool)) -> bool {
    (x.1 && !y.1) || (x.1 == y.1 && name_lt(x.0, y.0))
}

/// `s` is in listing order.
pub open spec fn listing_sorted(s: Seq<(Seq<char>, bool)>) -> bool {
    forall|i: int, j: int| 0 <= i < j < s.len() ==> !entry_lt(#[trigger] s[j], #[trigger] s[i])
}

proof fn lemma_name_lt_irreflexive(a: Seq<char>)
    ensures
        !name_lt(a, a),
    decreases a.len(),
{
    if a.len() > 0 {
        lemma_name_lt_irreflexive(a.drop_first());
    }
}

proof fn lemma_name_lt_transitive(a: Seq<char>, b: Seq<char>, c: Seq<char>)
    requires
        name_lt(a, b),
        name_lt(b, c),
    ensures
        name_lt(a, c),
    decreases a.len(),
{
    if a.len() > 0 && b.len() > 0 && c.len() > 0 && a[0] == b[0] && b[0] == c[0] {
        lemma_name_lt_transitive(a.drop_first(), b.drop_first(), c.drop_first());
    }
}

proof fn lemma_name_lt_total(a: Seq<char>, b: Seq<char>)
    requires
        a != b,
    ensures
        name_lt(a, b) || name_lt(b, a),
    decreases a.len(),
{
    if a.len() > 0 && b.len() > 0 && a[0] == b[0] {
        if a.drop_first() == b.drop_first() {
            assert(a =~= seq![a[0]] + a.drop_first());
            assert(b =~= seq![b[0]] + b.drop_first());
        }
        lemma_name_lt_total(a.drop_first(), b.drop_first());
    } else if a.len() == 0 && b.len() == 0 {
        assert(a =~= b);
    }
}

proof fn lemma_entry_lt_order(x: (Seq<char>, bool), y: (Seq<char>, bool), z: (Seq<char>, bool))
    ensures
        !entry_lt(x, x),
        entry_lt(x, y) && entry_lt(y, z) ==> entry_lt(x, z),
        x != y ==> entry_lt(x, y) || entry_lt(y, x),
{
    lemma_name_lt_irreflexive(x.0);
    if entry_lt(x, y) && entry_lt(y, z) && x.1 == y.1 && y.1 == z.1 {
        lemma_name_lt_transitive(x.0, y.0, z.0);
    }
    if x != y && x.1 == y.1 {
        lemma_name_lt_total(x.0, y.0);
    }
}

/// Whether name `a` sorts strictly before name `b`.
pub fn name_less(a: &str, b: &str) -> (r: bool)
    ensures
        r == name_lt(a@, b@),
{
    let al = a.unicode_len();
    let bl = b.unicode_len();
    let mut k: usize = 0;
    assert(a@.subrange(0, al as int) =~= a@);
    assert(b@.subrange(0, bl as int) =~= b@);
    while k < al && k < bl && a.get_char(k) == b.get_char(k)
        invariant
            al == a@.len(),
            bl == b@.len(),
            k <= al,
            k <= bl,
            forall|m: int| 0 <= m < k ==> a@[m] == b@[m],
            name_lt(a@, b@) == name_lt(a@.subrange(k as int, al as int), b@.subrange(k as int, bl as int)),
        decreases al - k,
    {
        proof {
            let x = a@.subrange(k as int, al as int);
            let y = b@.subrange(k as int, bl as int);
            assert(x.drop_first() =~= a@.subrange(k + 1, al as int));
            assert(y.drop_first() =~= b@.subrange(k + 1, bl as int));
        }
        k = k + 1;
    }
    if k == al {
        k < bl
    } else if k == bl {
        false
    } else {
        let ca = a.get_char(k);
        let cb = b.get_char(k);
        proof {
            let x = a@.subrange(k as int, al as int);
            let y = b@.subrange(k as int, bl as int);
            assert(x[0] == ca && y[0] == cb);
        }
        ca < cb
    }
}

fn entry_less(x: &Entry, y: &Entry) -> (r: bool)
    ensures
        r == entry_lt(entry_view(*x), entry_view(*y)),
{
    (x.is_dir && !y.is_dir) || (x.is_dir == y.is_dir && name_less(x.name.as_str(), y.name.as_str()))
}

/// Orders a directory listing: subdirectories first, then files, each
/// group by name ascending.
pub fn order_entries(entries: Vec<Entry>) -> (r: Vec<Entry>)
    ensures
        listing_sorted(r@.map_values(|e: Entry| entry_view(e))),
        r@.map_values(|e: Entry| entry_view(e)).to_multiset() == entries@.map_values(
            |e: Entry| entry_view(e),
        ).to_multiset(),
{
    let ghost all = entries@.map_values(|e: Entry| entry_view(e));
    let mut rest = entries;
    let mut out: Vec<Entry> = Vec::new();
    proof {
        assert(out@.map_values(|e: Entry| entry_view(e)) =~= Seq::<(Seq<char>, bool)>::empty());
        assert(Seq::<(Seq<char>, bool)>::empty().to_multiset() =~= Multiset::empty()) by {
            broadcast use vstd::seq_lib::group_seq_properties;
        }
    }
    while rest.len() > 0
        invariant
            listing_sorted(out@.map_values(|e: Entry| entry_view(e))),
            out@.map_values(|e: Entry| entry_view(e)).to_multiset().add(
                rest@.map_values(|e: Entry| entry_view(e)).to_multiset(),
            ) == all.to_multiset(),
        decreases rest@.len(),
    {
        let ghost rv = rest@.map_values(|e: Entry| entry_view(e));
        let ghost ov = out@.map_values(|e: Entry| entry_view(e));
        let e = rest.pop().unwrap();
        let ghost x = entry_view(e);
        proof {
            assert(rv =~= rest@.map_values(|e: Entry| entry_view(e)).push(x));
            broadcast use vstd::seq_lib::group_seq_properties;
            assert(rv.to_multiset() =~= rest@.map_values(|e: Entry| entry_view(e)).to_multiset().insert(x));
        }
        // first position whose entry sorts strictly after `e`
        let mut lo: usize = 0;
        let mut hi: usize = out.len();
        while lo < hi
            invariant
                0 <= lo <= hi <= out@.len(),
                x == entry_view(e),
                ov == out@.map_values(|e: Entry| entry_view(e)),
                listing_sorted(ov),
                forall|k: int| 0 <= k < lo ==> !entry_lt(x, #[trigger] ov[k]),
                forall|k: int| hi <= k < ov.len() ==> entry_lt(x, #[trigger] ov[k]),
            decreases hi - lo,
        {
            let mid = lo + (hi - lo) / 2;
            assert(ov[mid as int] == entry_view(out@[mid as int]));
            if entry_less(&e, &out[mid]) {
                proof {
                    assert forall|k: int| mid <= k < ov.len() implies entry_lt(x, #[trigger] ov[k]) by {
                        if k > mid {
                            assert(!entry_lt(ov[k], ov[mid as int]));
                            lemma_entry_lt_order(x, ov[mid as int], ov[k]);
                            lemma_entry_lt_order(ov[mid as int], ov[k], ov[k]);
                            if ov[mid as int] != ov[k] {
                                lemma_entry_lt_order(ov[mid as int], ov[k], x);
                            }
                        }
                    }
                }
                hi = mid;
            } else {
                proof {
                    assert forall|k: int| 0 <= k <= mid implies !entry_lt(x, #[trigger] ov[k]) by {
                        if k < mid {
                            assert(!entry_lt(ov[mid as int], ov[k]));
                            lemma_entry_lt_order(x, ov[k], ov[mid as int]);
                            lemma_entry_lt_order(ov[k], ov[mid as int], x);
                        }
                    }
                }
                lo = mid + 1;
            }
        }
        proof {
            let nv = ov.insert(lo as int, x);
            assert forall|i: int, j: int| 0 <= i < j < nv.len() implies !entry_lt(
                #[trigger] nv[j],
                #[trigger] nv[i],
            ) by {
                if j < lo {
                    assert(nv[i] == ov[i] && nv[j] == ov[j]);
                } else if j == lo {
                    assert(nv[i] == ov[i]);
                } else if i == lo {
                    assert(nv[j] == ov[j - 1]);
                    lemma_entry_lt_order(x, ov[j - 1], x);
                } else if i < lo {
                    assert(nv[i] == ov[i] && nv[j] == ov[j - 1]);
                } else {
                    assert(nv[i] == ov[i - 1] && nv[j] == ov[j - 1]);
                }
            }
            to_multiset_insert(ov, lo as int, x);
        }
        out.insert(lo, e);
        proof {
            assert(out@.map_values(|e: Entry| entry_view(e)) =~= ov.insert(lo as int, x));
            let rn = rest@.map_values(|e: Entry| entry_view(e));
            assert(ov.insert(lo as int, x).to_multiset().add(rn.to_multiset()) =~= ov.to_multiset().add(
                rv.to_multiset(),
            ));
        }
    }
    proof {
        assert(rest@.map_values(|e: Entry| entry_view(e)) =~= Seq::<(Seq<char>, bool)>::empty());
        broadcast use vstd::seq_lib::group_seq_properties;
        assert(out@.map_values(|e: Entry| entry_view(e)).to_multiset().add(Multiset::empty())
            =~= out@.map_values(|e: Entry| entry_view(e)).to_multiset());
    }
    out
}


/// The relative path of entry `name` inside the directory at `parent`.
pub open spec fn join_path(parent: Seq<char>, name: Seq<char>) -> Seq<char> {
    if parent.len() == 0 {
        name
    } else {
        parent + seq!['/'] + name
    }
}

/// The virtual root node: empty relative path, shown as `/`, expanded.
pub fn root_node() -> (r: Node)
    ensures
        r.path@ == Seq::<char>::empty(),
        r.name@ == seq!['/'],
        r.is_dir,
        r.depth == 0,
        r.expanded,
        r.mode == Mode::N,
        !r.mark,
        r.cpt_exception == 0,
        r.cpt_mixed_marks == 0,
        !r.generic_mark,
{
    proof {
        reveal_strlit("/");
        assert("/"@ =~= seq!['/']);
    }
    let mut n = Node::new(String::new(), String::from_str("/"), true, 0);
    n.expanded = true;
    n
}

/// A fresh node for entry `name` of the directory node `parent`, one level
/// deeper, with the joined relative path.
pub fn child_node(parent: &Node, name: String, is_dir: bool) -> (r: Node)
    requires
        parent.depth < usize::MAX,
    ensures
        r.path@ == join_path(parent.path@, name@),
        r.name@ == name@,
        r.is_dir == is_dir,
        r.depth == parent.depth + 1,
        !r.expanded,
        r.mode == Mode::N,
        !r.mark,
        r.cpt_exception == 0,
        r.cpt_mixed_marks == 0,
        !r.generic_mark,
{
    let path = if parent.path.as_str().unicode_len() == 0 {
        name.clone()
    } else {
        proof {
            reveal_strlit("/");
            assert("/"@ =~= seq!['/']);
        }
        parent.path.clone().concat("/").concat(name.as_str())
    };
    Node::new(path, name, is_dir, parent.depth + 1)
}

/// Node `k` lies under a collapsed directory.
pub open spec fn hidden(s: Seq<Node>, k: int) -> bool {
    exists|i: int| 0 <= i < k && s[i].is_dir && !s[i].expanded && #[trigger] in_block(s, i, k)
}

proof fn lemma_block_end_from_props(s: Seq<Node>, i: int, k: int)
    requires
        0 <= i < k <= s.len(),
        forall|m: int| i < m < k ==> (#[trigger] s[m]).depth > s[i].depth,
    ensures
        k <= block_end_from(s, i, k) <= s.len(),
        forall|m: int|
            i < m < block_end_from(s, i, k) ==> (#[trigger] s[m]).depth > s[i].depth,
        block_end_from(s, i, k) < s.len() ==> s[block_end_from(s, i, k)].depth <= s[i].depth,
    decreases s.len() - k,
{
    if k >= s.len() || s[k].depth <= s[i].depth {
    } else {
        lemma_block_end_from_props(s, i, k + 1);
    }
}

/// The descendant block of `i` is the maximal run after it of deeper nodes.
pub proof fn lemma_block_end(s: Seq<Node>, i: int)
    requires
        0 <= i < s.len(),
    ensures
        i < block_end(s, i) <= s.len(),
        forall|m: int| i < m < block_end(s, i) ==> (#[trigger] s[m]).depth > s[i].depth,
        block_end(s, i) < s.len() ==> s[block_end(s, i)].depth <= s[i].depth,
{
    lemma_block_end_from_props(s, i, i + 1);
}

/// The indices of the nodes on screen, in order: every node that lies
/// under no collapsed directory.
pub fn build_visible_indices(nodes: &Vec<Node>) -> (r: Vec<usize>)
    ensures
        forall|a: int, b: int| 0 <= a < b < r@.len() ==> r@[a] < r@[b],
        forall|a: int| 0 <= a < r@.len() ==> r@[a] < nodes@.len() && !hidden(nodes@, r@[a] as int),
        forall|k: int|
            0 <= k < nodes@.len() && !hidden(nodes@, k) ==> #[trigger] r@.contains(k as usize),
{
    let ghost s = nodes@;
    let len = nodes.len();
    let mut visible: Vec<usize> = Vec::new();
    let mut i: usize = 0;
    while i < len
        invariant
            len == s.len(),
            s == nodes@,
            i <= len,
            forall|a: int, b: int| 0 <= a < b < visible@.len() ==> visible@[a] < visible@[b],
            forall|a: int| 0 <= a < visible@.len() ==> visible@[a] < i && !hidden(s, visible@[a] as int),
            forall|k: int| 0 <= k < i && !hidden(s, k) ==> #[trigger] visible@.contains(k as usize),
            i < len ==> !hidden(s, i as int),
        decreases len - i,
    {
        let ghost before = visible@;
        visible.push(i);
        proof {
            assert forall|k: int| 0 <= k <= i && !hidden(s, k) implies #[trigger] visible@.contains(
                k as usize,
            ) by {
                if k < i {
                    assert(before.contains(k as usize));
                    let w = choose|w: int| 0 <= w < before.len() && before[w] == k as usize;
                    assert(visible@[w] == k as usize);
                } else {
                    assert(visible@[before.len() as int] == k as usize);
                }
            }
        }
        if nodes[i].is_dir && !nodes[i].expanded {
            let depth = nodes[i].depth;
            let ghost start = i;
            proof {
                lemma_block_end(s, start as int);
            }
            i = i + 1;
            while i < len && nodes[i].depth > depth
                invariant
                    len == s.len(),
                    s == nodes@,
                    start < i <= len,
                    depth == s[start as int].depth,
                    s[start as int].is_dir && !s[start as int].expanded,
                    block_end(s, start as int) == block_end_from(s, start as int, i as int),
                decreases len - i,
            {
                proof {
                    lemma_block_end_from_step(s, start as int, i as int);
                }
                i = i + 1;
            }
            proof {
                let e = block_end(s, start as int);
                assert(e == i as int);
                assert forall|k: int| start < k < i implies hidden(s, k) by {
                    assert(in_block(s, start as int, k));
                }
                if i < len {
                    assert(!hidden(s, i as int)) by {
                        if hidden(s, i as int) {
                            let w = choose|w: int|
                                0 <= w < i && s[w].is_dir && !s[w].expanded && #[trigger] in_block(
                                    s,
                                    w,
                                    i as int,
                                );
                            lemma_block_end(s, w);
                            if w < start {
                                assert(in_block(s, w, start as int));
                            } else if w > start {
                                assert(s[w].depth > s[start as int].depth);
                            }
                        }
                    }
                }
            }
        } else {
            proof {
                if i + 1 < len {
                    assert(!hidden(s, i + 1)) by {
                        if hidden(s, i + 1) {
                            let w = choose|w: int|
                                0 <= w < i + 1 && s[w].is_dir && !s[w].expanded && #[trigger] in_block(
                                    s,
                                    w,
                                    i + 1,
                                );
                            lemma_block_end(s, w);
                            assert(w != i);
                            assert(in_block(s, w, i as int));
                        }
                    }
                }
            }
            i = i + 1;
        }
    }
    visible
}


/// Node `p` is the parent of node `k`: the nearest node before it that is
/// shallower.
pub open spec fn parent_at(s: Seq<Node>, k: int, p: int) -> bool {
    &&& 0 <= p < k < s.len()
    &&& s[p].depth < s[k].depth
    &&& forall|m: int| p < m < k ==> (#[trigger] s[m]).depth >= s[k].depth
}

/// A scanned tree in preorder: the root (empty path, depth zero, a
/// directory) first; every other node one level below its parent, which
/// is a directory, with the path of its parent joined with its own name.
pub open spec fn tree_linked(s: Seq<Node>) -> bool {
    &&& s.len() > 0
    &&& s[0].depth == 0
    &&& s[0].is_dir
    &&& s[0].path@ == Seq::<char>::empty()
    &&& forall|k: int| 1 <= k < s.len() ==> #[trigger] linked_at(s, k)
}

/// Node `k` has a parent directory one level up, whose path joined with
/// its name is its path.
pub open spec fn linked_at(s: Seq<Node>, k: int) -> bool {
    exists|p: int|
        #[trigger] parent_at(s, k, p) && s[p].is_dir && s[p].depth + 1 == s[k].depth && s[k].path@
            == join_path(s[p].path@, s[k].name@)
}

/// The tree before any directory is read: the root alone.
pub fn new_tree() -> (r: Vec<Node>)
    ensures
        r@.len() == 1,
        r@[0].path@ == Seq::<char>::empty(),
        r@[0].name@ == seq!['/'],
        r@[0].expanded,
        tree_linked(r@),
{
    let root = root_node();
    let r = vec![root];
    r
}

/// `c` is the children block made for node `parent` from a listing:
/// fresh children, one level deeper, in listing order, holding exactly the
/// listed entries.
pub open spec fn children_of(parent: Node, c: Seq<Node>, listing: Seq<(Seq<char>, bool)>) -> bool {
    &&& listing_sorted(Seq::new(c.len(), |j: int| (c[j].name@, c[j].is_dir)))
    &&& Seq::new(c.len(), |j: int| (c[j].name@, c[j].is_dir)).to_multiset() == listing.to_multiset()
    &&& forall|j: int|
        0 <= j < c.len() ==> {
            &&& (#[trigger] c[j]).path@ == join_path(parent.path@, c[j].name@)
            &&& c[j].depth == parent.depth + 1
            &&& !c[j].expanded
            &&& c[j].mode == Mode::N
            &&& !c[j].mark
            &&& c[j].cpt_exception == 0
            &&& c[j].cpt_mixed_marks == 0
            &&& !c[j].generic_mark
        }
}

/// `s` with the block `c` inserted after node `idx`.
#[verifier::opaque]
pub open spec fn inserted(s: Seq<Node>, c: Seq<Node>, idx: int) -> Seq<Node> {
    s.subrange(0, idx + 1) + c + s.subrange(idx + 1, s.len() as int)
}

proof fn lemma_inserted_index(s: Seq<Node>, c: Seq<Node>, idx: int, k: int)
    requires
        0 <= idx < s.len(),
        0 <= k < s.len() + c.len(),
    ensures
        inserted(s, c, idx).len() == s.len() + c.len(),
        inserted(s, c, idx)[k] == if k <= idx {
            s[k]
        } else if k <= idx + c.len() {
            c[k - idx - 1]
        } else {
            s[k - c.len()]
        },
{
    reveal(inserted);
}

/// The parent witness of node `k` in a linked tree.
proof fn lemma_linked_parent(s: Seq<Node>, k: int) -> (p: int)
    requires
        tree_linked(s),
        1 <= k < s.len(),
    ensures
        parent_at(s, k, p) && s[p].is_dir && s[p].depth + 1 == s[k].depth && s[k].path@
            == join_path(s[p].path@, s[k].name@),
{
    assert(linked_at(s, k));
    choose|p: int|
        #[trigger] parent_at(s, k, p) && s[p].is_dir && s[p].depth + 1 == s[k].depth && s[k].path@
            == join_path(s[p].path@, s[k].name@)
}

/// The parent, in the grown tree, of a node before the new block.
proof fn lemma_parent_before(s: Seq<Node>, c: Seq<Node>, idx: int, k: int) -> (p: int)
    requires
        tree_linked(s),
        0 <= idx < s.len(),
        s[idx].is_dir,
        idx + 1 == s.len() || s[idx + 1].depth <= s[idx].depth,
        forall|j: int|
            0 <= j < c.len() ==> (#[trigger] c[j]).path@ == join_path(s[idx].path@, c[j].name@)
                && c[j].depth == s[idx].depth + 1,
        1 <= k <= idx,
    ensures
        ({
            let t = inserted(s, c, idx);
            parent_at(t, k, p) && t[p].is_dir && t[p].depth + 1 == t[k].depth && t[k].path@
                == join_path(t[p].path@, t[k].name@)
        }),
{
    let t = inserted(s, c, idx);
    lemma_inserted_index(s, c, idx, k);
    let p = lemma_linked_parent(s, k);
    assert forall|m: int| p < m < k implies (#[trigger] t[m]).depth >= t[k].depth by {
        lemma_inserted_index(s, c, idx, m);
    }
    lemma_inserted_index(s, c, idx, p);
    p
}

/// The parent, in the grown tree, of a node of the new block.
proof fn lemma_parent_in_block(s: Seq<Node>, c: Seq<Node>, idx: int, k: int) -> (p: int)
    requires
        tree_linked(s),
        0 <= idx < s.len(),
        s[idx].is_dir,
        idx + 1 == s.len() || s[idx + 1].depth <= s[idx].depth,
        forall|j: int|
            0 <= j < c.len() ==> (#[trigger] c[j]).path@ == join_path(s[idx].path@, c[j].name@)
                && c[j].depth == s[idx].depth + 1,
        idx < k <= idx + c.len(),
    ensures
        ({
            let t = inserted(s, c, idx);
            parent_at(t, k, p) && t[p].is_dir && t[p].depth + 1 == t[k].depth && t[k].path@
                == join_path(t[p].path@, t[k].name@)
        }),
{
    let t = inserted(s, c, idx);
    lemma_inserted_index(s, c, idx, k);
    lemma_inserted_index(s, c, idx, idx);
    assert forall|m: int| idx < m < k implies (#[trigger] t[m]).depth >= t[k].depth by {
        lemma_inserted_index(s, c, idx, m);
    }
    idx
}

/// The parent, in the grown tree, of a node after the new block, from its
/// parent `q` before the growth.
proof fn lemma_parent_after(s: Seq<Node>, c: Seq<Node>, idx: int, k: int, q: int) -> (p: int)
    requires
        0 <= idx < s.len(),
        idx + 1 == s.len() || s[idx + 1].depth <= s[idx].depth,
        forall|j: int| 0 <= j < c.len() ==> (#[trigger] c[j]).depth == s[idx].depth + 1,
        idx + c.len() < k < s.len() + c.len(),
        parent_at(s, k - c.len(), q),
    ensures
        ({
            let t = inserted(s, c, idx);
            &&& parent_at(t, k, p)
            &&& t[p] == s[q]
            &&& t[k] == s[k - c.len()]
        }),
{
    let t = inserted(s, c, idx);
    let n = c.len() as int;
    lemma_inserted_index(s, c, idx, k);
    let k0 = k - n;
    if q > idx {
        assert forall|m: int| q + n < m < k implies (#[trigger] t[m]).depth >= t[k].depth by {
            lemma_inserted_index(s, c, idx, m);
            assert(s[m - n].depth >= s[k0].depth);
        }
        lemma_inserted_index(s, c, idx, q + n);
        q + n
    } else {
        if q == idx {
            if k0 > idx + 1 {
                assert(s[idx + 1].depth >= s[k0].depth);
            }
            assert(false);
        }
        assert(s[idx].depth >= s[k0].depth);
        assert forall|m: int| q < m < k implies (#[trigger] t[m]).depth >= t[k].depth by {
            lemma_inserted_index(s, c, idx, m);
            if m <= idx {
                assert(s[m].depth >= s[k0].depth);
            } else if m <= idx + n {
                assert(c[m - idx - 1].depth == s[idx].depth + 1);
            } else {
                assert(s[m - n].depth >= s[k0].depth);
            }
        }
        lemma_inserted_index(s, c, idx, q);
        q
    }
}

proof fn lemma_insert_keeps_linked(s: Seq<Node>, c: Seq<Node>, idx: int)
    requires
        tree_linked(s),
        0 <= idx < s.len(),
        s[idx].is_dir,
        idx + 1 == s.len() || s[idx + 1].depth <= s[idx].depth,
        forall|j: int|
            0 <= j < c.len() ==> (#[trigger] c[j]).path@ == join_path(s[idx].path@, c[j].name@)
                && c[j].depth == s[idx].depth + 1,
    ensures
        tree_linked(inserted(s, c, idx)),
{
    let t = inserted(s, c, idx);
    lemma_inserted_index(s, c, idx, 0);
    assert forall|k: int| 1 <= k < t.len() implies #[trigger] linked_at(t, k) by {
        lemma_inserted_index(s, c, idx, k);
        let p = if k <= idx {
            lemma_parent_before(s, c, idx, k)
        } else if k <= idx + c.len() {
            lemma_parent_in_block(s, c, idx, k)
        } else {
            let q = lemma_linked_parent(s, k - c.len());
            lemma_parent_after(s, c, idx, k, q)
        };
        assert(parent_at(t, k, p) && t[p].is_dir && t[p].depth + 1 == t[k].depth && t[k].path@
            == join_path(t[p].path@, t[k].name@));
    }
    assert(t.len() > 0 && t[0] == s[0]);

}

/// Reads in the listing of directory `idx`, which has no children yet: its
/// entries become its children, in listing order, right after it. The tree
/// stays linked; this is the one step by which a scan grows the tree.
pub fn insert_children(nodes: &mut Vec<Node>, idx: usize, entries: Vec<Entry>)
    requires
        tree_linked(old(nodes)@),
        idx < old(nodes)@.len(),
        old(nodes)@[idx as int].is_dir,
        old(nodes)@[idx as int].depth < usize::MAX,
        idx + 1 == old(nodes)@.len() || old(nodes)@[idx + 1].depth <= old(nodes)@[idx as int].depth,
    ensures
        tree_linked(final(nodes)@),
        ({
            let s = old(nodes)@;
            let n = entries@.len() as int;
            let t = final(nodes)@;
            &&& t.len() == s.len() + n
            &&& t.subrange(0, idx + 1) == s.subrange(0, idx + 1)
            &&& t.subrange(idx + 1 + n, t.len() as int) == s.subrange(idx + 1, s.len() as int)
            &&& children_of(
                s[idx as int],
                t.subrange(idx + 1, idx + 1 + n),
                entries@.map_values(|e: Entry| entry_view(e)),
            )
        }),
{
    let ghost s = nodes@;
    let len = nodes.len();
    let ghost listing = entries@.map_values(|e: Entry| entry_view(e));
    let ordered = order_entries(entries);
    let ghost ov = ordered@.map_values(|e: Entry| entry_view(e));
    proof {
        assert(ordered@.len() == ov.len());
        assert(ov.to_multiset().len() == listing.to_multiset().len()) by {
            broadcast use vstd::seq_lib::group_seq_properties;
        }
        broadcast use vstd::seq_lib::group_seq_properties;
    }
    let n = ordered.len();
    let mut children: Vec<Node> = Vec::new();
    let mut j: usize = 0;
    while j < n
        invariant
            n == ordered@.len(),
            j <= n,
            nodes@ == s,
            children@.len() == j,
            ov == ordered@.map_values(|e: Entry| entry_view(e)),
            s[idx as int].depth < usize::MAX,
            idx < s.len(),
            forall|i: int|
                0 <= i < j ==> {
                    &&& (#[trigger] children@[i]).path@ == join_path(
                        s[idx as int].path@,
                        children@[i].name@,
                    )
                    &&& (children@[i].name@, children@[i].is_dir) == ov[i]
                    &&& children@[i].depth == s[idx as int].depth + 1
                    &&& !children@[i].expanded
                    &&& children@[i].mode == Mode::N
                    &&& !children@[i].mark
                    &&& children@[i].cpt_exception == 0
                    &&& children@[i].cpt_mixed_marks == 0
                    &&& !children@[i].generic_mark
                },
        decreases n - j,
    {
        let e = &ordered[j];
        let child = child_node(&nodes[idx], e.name.clone(), e.is_dir);
        children.push(child);
        j = j + 1;
    }
    let ghost c = children@;
    proof {
        assert(Seq::new(c.len(), |i: int| (c[i].name@, c[i].is_dir)) =~= ov);
    }
    let mut tail = nodes.split_off(idx + 1);
    nodes.append(&mut children);
    nodes.append(&mut tail);
    proof {
        let t = nodes@;
        reveal(inserted);
        assert(t =~= inserted(s, c, idx as int));
        lemma_insert_keeps_linked(s, c, idx as int);
        assert(t.subrange(0, idx + 1) =~= s.subrange(0, idx + 1));
        assert(t.subrange(idx + 1 + n, t.len() as int) =~= s.subrange(idx + 1, s.len() as int));
        assert(t.subrange(idx + 1, idx + 1 + n) =~= c);
    }
}

} // verus!
