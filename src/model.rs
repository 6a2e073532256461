use vstd::prelude::*;

verus! {

/// Provenance of a node's mark.
#[derive(Clone, Copy, Debug, PartialEq, Eq, Structural)]
pub enum Mode {
    /// An explicit excluding rule names this path.
    C,
    /// An explicit exception (`!...`) names this path.
    E,
    /// No explicit rule names this path.
    N,
}

/// One entry of the flat, preorder tree snapshot.
///
/// `path` is the path relative to the scanned root, with `/` separators; the
/// virtual root node has the empty path.
#[derive(Clone, Debug)]
pub struct Node {
    pub path: String,
    pub name: String,
    pub is_dir: bool,
    pub depth: usize,
    pub expanded: bool,
    pub mode: Mode,
    pub mark: bool,
    pub cpt_exception: usize,
    pub cpt_mixed_marks: usize,
    pub generic_mark: bool,
}

/// One exact rule: a normalized relative path (or `*`, the marker that
/// stands for every path) with the mode its line gave it.
#[derive(Clone, Debug)]
pub struct Rule {
    pub pattern: String,
    pub mode: Mode,
}

/// The pattern and mode of a rule.
pub open spec fn rule_view(r: Rule) -> (Seq<char>, Mode) {
    (r.pattern@, r.mode)
}

/// The patterns and modes of a rule list.
pub open spec fn rule_views(rs: Seq<Rule>) -> Seq<(Seq<char>, Mode)> {
    rs.map_values(|x: Rule| rule_view(x))
}

impl Node {
    /// A fresh node as the tree builder makes it: unmarked, mode `N`,
    /// collapsed, with zero aggregates.
    pub fn new(path: String, name: String, is_dir: bool, depth: usize) -> (r: Node)
        ensures
            r.path@ == path@,
            r.name@ == name@,
            r.is_dir == is_dir,
            r.depth == depth,
            !r.expanded,
            r.mode == Mode::N,
            !r.mark,
            r.cpt_exception == 0,
            r.cpt_mixed_marks == 0,
            !r.generic_mark,
    {
        Node {
            path,
            name,
            is_dir,
            depth,
            expanded: false,
            mode: Mode::N,
            mark: false,
            cpt_exception: 0,
            cpt_mixed_marks: 0,
            generic_mark: false,
        }
    }
}

} // verus!
