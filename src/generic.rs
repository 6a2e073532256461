//! Wildcard rules, which the exact engine leaves to the `ignore` crate's
//! glob matcher: picking their lines out of the rule file, building the
//! matcher, and marking the files it matches.
use crate::aggregate::aggregates_consistent;
use crate::engine::recompute_aggregates;
use crate::model::Node;
use crate::rules::{glob_line, left_to_glob};
use crate::text::{lines_of, split_lines, trim};
use ignore::gitignore::{Gitignore, GitignoreBuilder};
use vstd::prelude::*;

verus! {

#[verifier::external_type_specification]
#[verifier::external_body]
pub struct ExGitignore(Gitignore);

#[verifier::external_type_specification]
#[verifier::external_body]
pub struct ExGitignoreBuilder(GitignoreBuilder);

#[verifier::external_type_specification]
#[verifier::external_body]
pub struct ExIgnoreError(ignore::Error);

/// Whether `GitignoreBuilder::add_line`, on a builder with its default
/// settings, accepts `line` as a glob.
pub uninterp spec fn glob_line_ok(line: Seq<char>) -> bool;

/// Whether `GitignoreBuilder::build` compiles the accepted `lines`.
pub uninterp spec fn globs_build_ok(lines: Seq<Seq<char>>) -> bool;

/// Whether the matcher built at `root` from `lines` ignores `path`.
pub uninterp spec fn glob_ignored(
    root: Seq<char>,
    lines: Seq<Seq<char>>,
    path: Seq<char>,
    is_dir: bool,
) -> bool;

/// Why the glob matcher could not be built.
#[derive(Clone, Debug, PartialEq, Eq)]
pub enum GenericPatternError {
    /// The matcher refused this (trimmed) rule line.
    BadLine(String),
    /// The matcher refused to compile the set of lines it was given.
    Build,
}

/// The root path a gitignore builder was made with.
pub uninterp spec fn builder_root(b: GitignoreBuilder) -> Seq<char>;

/// The lines a gitignore builder has accepted, in order.
pub uninterp spec fn builder_lines(b: GitignoreBuilder) -> Seq<Seq<char>>;

/// The root path of the builder a matcher was compiled from.
pub uninterp spec fn matcher_root(g: Gitignore) -> Seq<char>;

/// The lines of the builder a matcher was compiled from, in order.
pub uninterp spec fn matcher_lines(g: Gitignore) -> Seq<Seq<char>>;

/// The compiled glob matcher for the wildcard lines of a rule file.
pub struct GlobMatcher {
    inner: Gitignore,
}

impl GlobMatcher {
    /// The root that paths are matched against.
    pub closed spec fn root(&self) -> Seq<char> {
        matcher_root(self.inner)
    }

    /// The lines the matcher was built from, in order.
    pub closed spec fn lines(&self) -> Seq<Seq<char>> {
        matcher_lines(self.inner)
    }
}

/// Relies on `GitignoreBuilder::new`: an empty builder whose globs match
/// paths relative to `root`.
#[verifier::external_body]
fn new_glob_builder(root: &str) -> (r: GitignoreBuilder)
    ensures
        builder_root(r) == root@,
        builder_lines(r) == Seq::<Seq<char>>::empty(),
{
    GitignoreBuilder::new(root)
}

/// Relies on `GitignoreBuilder::add_line`: adds one gitignore line, or
/// reports, depending on the line alone, that it is no valid glob, in which
/// case nothing is added. The root is never changed.
#[verifier::external_body]
fn add_glob_line(builder: &mut GitignoreBuilder, line: &str) -> (r: Result<(), ignore::Error>)
    ensures
        r is Ok <==> glob_line_ok(line@),
        builder_root(*final(builder)) == builder_root(*old(builder)),
        r is Ok ==> builder_lines(*final(builder)) == builder_lines(*old(builder)).push(line@),
        r is Err ==> builder_lines(*final(builder)) == builder_lines(*old(builder)),
{
    match builder.add_line(None, line) {
        Ok(_) => Ok(()),
        Err(e) => Err(e),
    }
}

/// Relies on `GitignoreBuilder::build`: compiles the lines added so far,
/// which succeeds depending on those lines alone; the matcher keeps the
/// builder's root and lines.
#[verifier::external_body]
fn build_glob_matcher(builder: &GitignoreBuilder) -> (r: Result<Gitignore, ignore::Error>)
    ensures
        r is Ok <==> globs_build_ok(builder_lines(*builder)),
        r matches Ok(g) ==> matcher_root(g) == builder_root(*builder) && matcher_lines(g)
            == builder_lines(*builder),
{
    builder.build()
}

/// Relies on `Gitignore::matched` and `Match::is_ignore`: whether the
/// highest-precedence glob matching the relative path `rel` ignores it.
#[verifier::external_body]
fn matcher_ignores(g: &Gitignore, rel: &str, is_dir: bool) -> (r: bool)
    ensures
        r == glob_ignored(matcher_root(*g), matcher_lines(*g), rel@, is_dir),
{
    g.matched(std::path::Path::new(rel), is_dir).is_ignore()
}

/// Whether `matcher` ignores the relative path `rel`.
pub(crate) fn glob_ignores(matcher: &GlobMatcher, rel: &str, is_dir: bool) -> (r: bool)
    ensures
        r == glob_ignored(matcher.root(), matcher.lines(), rel@, is_dir),
{
    matcher_ignores(&matcher.inner, rel, is_dir)
}

/// The trimmed lines of `lines` that go to the glob matcher, in order.
pub open spec fn generic_lines(lines: Seq<Seq<char>>) -> Seq<Seq<char>>
    decreases lines.len(),
{
    if lines.len() == 0 {
        seq![]
    } else {
        let prev = generic_lines(lines.drop_last());
        if left_to_glob(lines.last()) {
            prev.push(trim(lines.last()))
        } else {
            prev
        }
    }
}

/// The trimmed lines of rule-file text that go to the glob matcher: those
/// the exact rules drop for a wildcard.
pub fn generic_pattern_lines(content: &str) -> (r: Vec<String>)
    ensures
        r@.map_values(|l: String| l@) == generic_lines(lines_of(content@)),
{
    let lines = split_lines(content);
    let ghost ls = lines@.map_values(|l: String| l@);
    let mut out: Vec<String> = Vec::new();
    let mut k: usize = 0;
    while k < lines.len()
        invariant
            0 <= k <= lines@.len(),
            ls == lines@.map_values(|l: String| l@),
            out@.map_values(|l: String| l@) == generic_lines(ls.subrange(0, k as int)),
        decreases lines@.len() - k,
    {
        proof {
            assert(ls.subrange(0, k + 1).drop_last() =~= ls.subrange(0, k as int));
            assert(ls.subrange(0, k + 1).last() == lines@[k as int]@);
        }
        match glob_line(lines[k].as_str()) {
            Some(t) => {
                proof {
                    assert(out@.push(t).map_values(|l: String| l@) =~= out@.map_values(
                        |l: String| l@,
                    ).push(t@));
                }
                out.push(t);
            },
            None => {},
        }
        k = k + 1;
    }
    proof {
        assert(ls.subrange(0, lines@.len() as int) =~= ls);
    }
    out
}

/// Builds the glob matcher for the wildcard lines `g` of rule-file text,
/// with paths matched relative to `root`. `Ok(None)` exactly when there is
/// no such line; otherwise the first line the matcher refuses is reported,
/// then a failure to compile them, and else the matcher built from `g`.
pub fn build_generic_gitignore(root: &str, content: &str) -> (r: Result<
    Option<GlobMatcher>,
    GenericPatternError,
>)
    ensures
        ({
            let g = generic_lines(lines_of(content@));
            &&& (r matches Ok(None)) <==> g.len() == 0
            &&& (g.len() > 0 && (forall|i: int| 0 <= i < g.len() ==> glob_line_ok(#[trigger] g[i]))
                && globs_build_ok(g)) ==> r is Ok
            &&& r is Ok ==> (forall|i: int| 0 <= i < g.len() ==> glob_line_ok(#[trigger] g[i]))
                && (g.len() > 0 ==> globs_build_ok(g))
            &&& r matches Ok(Some(m)) ==> m.root() == root@ && m.lines() == g
            &&& r matches Err(GenericPatternError::BadLine(l)) ==> exists|i: int|
                0 <= i < g.len() && #[trigger] g[i] == l@ && !glob_line_ok(g[i]) && forall|j: int|
                    0 <= j < i ==> glob_line_ok(#[trigger] g[j])
            &&& r matches Err(GenericPatternError::Build) ==> (forall|i: int|
                0 <= i < g.len() ==> glob_line_ok(#[trigger] g[i])) && !globs_build_ok(g)
        }),
{
    let lines = generic_pattern_lines(content);
    let ghost g = lines@.map_values(|l: String| l@);
    if lines.len() == 0 {
        return Ok(None);
    }
    let mut builder = new_glob_builder(root);
    let mut k: usize = 0;
    assert(g.subrange(0, 0) =~= Seq::<Seq<char>>::empty());
    while k < lines.len()
        invariant
            0 <= k <= lines@.len(),
            g == lines@.map_values(|l: String| l@),
            g == generic_lines(lines_of(content@)),
            g.len() > 0,
            builder_root(builder) == root@,
            builder_lines(builder) == g.subrange(0, k as int),
            forall|j: int| 0 <= j < k ==> glob_line_ok(#[trigger] g[j]),
        decreases lines@.len() - k,
    {
        match add_glob_line(&mut builder, lines[k].as_str()) {
            Ok(()) => {
                proof {
                    assert(g.subrange(0, k + 1) =~= g.subrange(0, k as int).push(g[k as int]));
                }
            },
            Err(_) => {
                let bad = lines[k].clone();
                assert(g[k as int] == bad@);
                return Err(GenericPatternError::BadLine(bad));
            },
        }
        k = k + 1;
    }
    assert(g.subrange(0, lines@.len() as int) =~= g);
    match build_glob_matcher(&builder) {
        Ok(inner) => Ok(Some(GlobMatcher { inner })),
        Err(_) => Err(GenericPatternError::Build),
    }
}

/// The glob result for each node of `nodes`: a file whose path the matcher
/// built at `root` from `lines` ignores.
pub open spec fn glob_hits(root: Seq<char>, lines: Seq<Seq<char>>, nodes: Seq<Node>) -> Seq<bool> {
    Seq::new(
        nodes.len(),
        |i: int| !nodes[i].is_dir && glob_ignored(root, lines, nodes[i].path@, false),
    )
}

/// `after` is `before` with the glob results `matched` applied: each file
/// node whose result is true is marked and flagged as glob-marked, its mode
/// kept; every other node keeps its mode, mark and flag; the aggregates are
/// consistent.
pub open spec fn generic_applied(before: Seq<Node>, after: Seq<Node>, matched: Seq<bool>) -> bool {
    &&& after.len() == before.len()
    &&& aggregates_consistent(after)
    &&& forall|i: int|
        0 <= i < before.len() ==> {
            let a = before[i];
            let b = #[trigger] after[i];
            &&& b.path == a.path
            &&& b.name == a.name
            &&& b.is_dir == a.is_dir
            &&& b.depth == a.depth
            &&& b.expanded == a.expanded
            &&& b.mode == a.mode
            &&& if matched[i] && !a.is_dir {
                b.mark && b.generic_mark
            } else {
                b.mark == a.mark && b.generic_mark == a.generic_mark
            }
        }
}

/// Applies per-node glob results: `matched[i]` is whether the glob matcher
/// ignores node `i`'s path. Matched files become marked and glob-marked;
/// the aggregates are recomputed.
pub fn apply_generic_matches(nodes: &mut Vec<Node>, matched: &Vec<bool>)
    requires
        matched@.len() == old(nodes)@.len(),
    ensures
        generic_applied(old(nodes)@, final(nodes)@, matched@),
{
    let ghost orig = nodes@;
    let len = nodes.len();
    let mut i: usize = 0;
    while i < len
        invariant
            len == nodes@.len() == orig.len() == matched@.len(),
            0 <= i <= len,
            forall|k: int|
                0 <= k < len ==> {
                    let a = orig[k];
                    let b = #[trigger] nodes@[k];
                    &&& b.path == a.path
                    &&& b.name == a.name
                    &&& b.is_dir == a.is_dir
                    &&& b.depth == a.depth
                    &&& b.expanded == a.expanded
                    &&& b.mode == a.mode
                    &&& if k < i && matched@[k] && !a.is_dir {
                        b.mark && b.generic_mark
                    } else {
                        b.mark == a.mark && b.generic_mark == a.generic_mark
                    }
                },
        decreases len - i,
    {
        if matched[i] && !nodes[i].is_dir {
            nodes[i].mark = true;
            nodes[i].generic_mark = true;
        }
        i = i + 1;
    }
    recompute_aggregates(nodes);
}

/// Asks the glob matcher about every file node and applies the answers:
/// each file whose path the matcher ignores becomes marked and
/// glob-marked, its mode kept; every other node keeps its state.
pub fn mark_generic_matches(nodes: &mut Vec<Node>, matcher: &GlobMatcher)
    ensures
        generic_applied(
            old(nodes)@,
            final(nodes)@,
            glob_hits(matcher.root(), matcher.lines(), old(nodes)@),
        ),
{
    let ghost hits = glob_hits(matcher.root(), matcher.lines(), nodes@);
    let len = nodes.len();
    let mut matched: Vec<bool> = Vec::new();
    let mut i: usize = 0;
    while i < len
        invariant
            len == nodes@.len(),
            0 <= i <= len,
            hits == glob_hits(matcher.root(), matcher.lines(), nodes@),
            matched@ == hits.subrange(0, i as int),
        decreases len - i,
    {
        let hit = if nodes[i].is_dir {
            false
        } else {
            glob_ignores(matcher, nodes[i].path.as_str(), false)
        };
        proof {
            assert(hits.subrange(0, i + 1) =~= hits.subrange(0, i as int).push(hit));
        }
        matched.push(hit);
        i = i + 1;
    }
    assert(matched@ =~= hits);
    apply_generic_matches(nodes, &matched);
}

} // verus!
