//! Cursor and scrolling decisions of the interactive list; the terminal
//! loop performs them.
use crate::model::Node;
use vstd::prelude::*;

verus! {

/// The cursor, as a row of the visible list, and the first row on screen.
#[derive(Clone, Copy, Debug, PartialEq, Eq, Structural)]
pub struct Viewport {
    pub cursor: usize,
    pub scroll: usize,
}

/// Moves the cursor one row up, scrolling so that it stays on screen.
pub fn move_up(v: Viewport) -> (r: Viewport)
    ensures
        v.cursor == 0 ==> r == v,
        v.cursor > 0 ==> r.cursor == v.cursor - 1 && r.scroll == if r.cursor < v.scroll {
            r.cursor
        } else {
            v.scroll
        },
{
    if v.cursor == 0 {
        return v;
    }
    let cursor = v.cursor - 1;
    let scroll = if cursor < v.scroll {
        cursor
    } else {
        v.scroll
    };
    Viewport { cursor, scroll }
}

/// Moves the cursor one row down within `len` rows, scrolling so that it
/// stays within the `height` rows on screen.
pub fn move_down(v: Viewport, len: usize, height: usize) -> (r: Viewport)
    requires
        height >= 1,
    ensures
        v.cursor + 1 >= len ==> r == v,
        v.cursor + 1 < len ==> r.cursor == v.cursor + 1 && r.scroll == if r.cursor >= v.scroll
            + height {
            r.cursor + 1 - height
        } else {
            v.scroll as int
        },
{
    if v.cursor >= len || len - v.cursor <= 1 {
        return v;
    }
    let cursor = v.cursor + 1;
    let scroll = if v.scroll <= cursor && cursor - v.scroll >= height {
        cursor + 1 - height
    } else {
        v.scroll
    };
    Viewport { cursor, scroll }
}

/// The nearest node before `idx` that is shallower than it: its parent
/// directory in a preorder tree. `None` for a node of depth zero.
pub fn parent_index(nodes: &Vec<Node>, idx: usize) -> (r: Option<usize>)
    requires
        idx < nodes@.len(),
    ensures
        nodes@[idx as int].depth == 0 ==> r is None,
        match r {
            Some(p) => p < idx && nodes@[p as int].depth < nodes@[idx as int].depth && forall|
                k: int,
            |
                p < k < idx ==> (#[trigger] nodes@[k]).depth >= nodes@[idx as int].depth,
            None => nodes@[idx as int].depth == 0 || forall|k: int|
                0 <= k < idx ==> (#[trigger] nodes@[k]).depth >= nodes@[idx as int].depth,
        },
{
    let depth = nodes[idx].depth;
    if depth == 0 {
        return None;
    }
    let mut p: usize = idx;
    while p > 0
        invariant
            p <= idx < nodes@.len(),
            depth == nodes@[idx as int].depth,
            forall|k: int| p <= k < idx ==> (#[trigger] nodes@[k]).depth >= depth,
        decreases p,
    {
        p = p - 1;
        if nodes[p].depth < depth {
            return Some(p);
        }
    }
    None
}

/// The row of `visible` that holds node index `target`, if any.
pub fn row_of(visible: &Vec<usize>, target: usize) -> (r: Option<usize>)
    ensures
        match r {
            Some(row) => row < visible@.len() && visible@[row as int] == target && forall|k: int|
                0 <= k < row ==> #[trigger] visible@[k] != target,
            None => forall|k: int| 0 <= k < visible@.len() ==> #[trigger] visible@[k] != target,
        },
{
    let mut k: usize = 0;
    while k < visible.len()
        invariant
            k <= visible@.len(),
            forall|m: int| 0 <= m < k ==> #[trigger] visible@[m] != target,
        decreases visible@.len() - k,
    {
        if visible[k] == target {
            return Some(k);
        }
        k = k + 1;
    }
    None
}

/// The cursor and scroll after the visible list changed to `len` rows:
/// the cursor goes to `jump` if given, is kept within the list, the list
/// scrolls to show it within `height` rows, and never past its end.
pub fn settle(v: Viewport, len: usize, jump: Option<usize>, height: usize) -> (r: Viewport)
    requires
        height >= 1,
    ensures
        len == 0 ==> r == (Viewport { cursor: 0, scroll: 0 }),
        len > 0 ==> {
            let c0 = match jump {
                Some(row) => row,
                None => v.cursor,
            };
            let c = if c0 >= len {
                (len - 1) as usize
            } else {
                c0
            };
            let max_scroll = if len > height {
                len - height
            } else {
                0
            };
            let s = if c < v.scroll {
                c as int
            } else if c >= v.scroll + height {
                c + 1 - height
            } else {
                v.scroll as int
            };
            &&& r.cursor == c
            &&& r.scroll == if s > max_scroll {
                max_scroll
            } else {
                s
            }
        },
{
    if len == 0 {
        return Viewport { cursor: 0, scroll: 0 };
    }
    let mut cursor = match jump {
        Some(row) => row,
        None => v.cursor,
    };
    if cursor >= len {
        cursor = len - 1;
    }
    let max_scroll = if len > height {
        len - height
    } else {
        0
    };
    let mut scroll = v.scroll;
    if cursor < scroll {
        scroll = cursor;
    } else if cursor - scroll >= height {
        scroll = cursor + 1 - height;
    }
    if scroll > max_scroll {
        scroll = max_scroll;
    }
    Viewport { cursor, scroll }
}

/// The rows `[start, end)` of a `len`-row list shown from row `scroll`
/// in `rows` screen rows.
pub fn visible_window(len: usize, scroll: usize, rows: usize) -> (r: (usize, usize))
    ensures
        r.0 == if scroll < len {
            scroll
        } else {
            len
        },
        r.1 == if r.0 + rows < len {
            r.0 + rows
        } else {
            len as int
        },
{
    let start = if scroll < len {
        scroll
    } else {
        len
    };
    let end = if rows < len - start {
        start + rows
    } else {
        len
    };
    (start, end)
}

} // verus!
