//! Choosing which tracked files to untrack once the session is over.
use crate::engine::{ignored_after, should_be_ignored};
use crate::generic::{glob_ignored, glob_ignores, GlobMatcher};
use crate::model::{rule_view, rule_views, Mode, Rule};
use crate::text::{forward_slashes, lines_of, split_lines, trim, trim_bounds};
use vstd::prelude::*;

verus! {

/// The non-blank lines of `lines`, trimmed, in order.
pub open spec fn listed_files(lines: Seq<Seq<char>>) -> Seq<Seq<char>>
    decreases lines.len(),
{
    if lines.len() == 0 {
        seq![]
    } else {
        let prev = listed_files(lines.drop_last());
        if trim(lines.last()).len() > 0 {
            prev.push(trim(lines.last()))
        } else {
            prev
        }
    }
}

/// The files of `files` that the exact rules exclude or whose glob result
/// in `hits` is true, in order.
pub open spec fn selected(
    files: Seq<Seq<char>>,
    rules: Seq<(Seq<char>, Mode)>,
    hits: Seq<bool>,
) -> Seq<Seq<char>>
    decreases files.len(),
{
    if files.len() == 0 || hits.len() != files.len() {
        seq![]
    } else {
        let prev = selected(files.drop_last(), rules, hits.drop_last());
        if ignored_after(forward_slashes(files.last()), rules) || hits.last() {
            prev.push(files.last())
        } else {
            prev
        }
    }
}

/// The tracked files of a version-control listing: one per line, trimmed,
/// blank lines skipped.
pub fn tracked_files(listing: &str) -> (r: Vec<String>)
    ensures
        r@.map_values(|l: String| l@) == listed_files(lines_of(listing@)),
{
    let lines = split_lines(listing);
    let ghost ls = lines@.map_values(|l: String| l@);
    let mut out: Vec<String> = Vec::new();
    let mut k: usize = 0;
    while k < lines.len()
        invariant
            0 <= k <= lines@.len(),
            ls == lines@.map_values(|l: String| l@),
            out@.map_values(|l: String| l@) == listed_files(ls.subrange(0, k as int)),
        decreases lines@.len() - k,
    {
        proof {
            assert(ls.subrange(0, k + 1).drop_last() =~= ls.subrange(0, k as int));
            assert(ls.subrange(0, k + 1).last() == lines@[k as int]@);
        }
        let line = lines[k].as_str();
        let (a, b) = trim_bounds(line);
        if a < b {
            let t = String::from_str(line.substring_char(a, b));
            proof {
                assert(out@.push(t).map_values(|l: String| l@) =~= out@.map_values(
                    |l: String| l@,
                ).push(t@));
            }
            out.push(t);
        }
        k = k + 1;
    }
    proof {
        assert(ls.subrange(0, lines@.len() as int) =~= ls);
    }
    out
}

/// The files to untrack: those the exact rules exclude, and those whose
/// glob result `hits[i]` is true.
pub fn select_untracked(files: &Vec<String>, rules: &[Rule], hits: &Vec<bool>) -> (r: Vec<String>)
    requires
        hits@.len() == files@.len(),
    ensures
        r@.map_values(|l: String| l@) == selected(
            files@.map_values(|l: String| l@),
            rules@.map_values(|x: Rule| rule_view(x)),
            hits@,
        ),
{
    let ghost fs = files@.map_values(|l: String| l@);
    let ghost rv = rules@.map_values(|x: Rule| rule_view(x));
    let mut out: Vec<String> = Vec::new();
    let mut k: usize = 0;
    while k < files.len()
        invariant
            0 <= k <= files@.len() == hits@.len(),
            fs == files@.map_values(|l: String| l@),
            rv == rules@.map_values(|x: Rule| rule_view(x)),
            out@.map_values(|l: String| l@) == selected(
                fs.subrange(0, k as int),
                rv,
                hits@.subrange(0, k as int),
            ),
        decreases files@.len() - k,
    {
        proof {
            assert(fs.subrange(0, k + 1).drop_last() =~= fs.subrange(0, k as int));
            assert(hits@.subrange(0, k + 1).drop_last() =~= hits@.subrange(0, k as int));
            assert(fs.subrange(0, k + 1).last() == files@[k as int]@);
        }
        if should_be_ignored(files[k].as_str(), rules) || hits[k] {
            let f = files[k].clone();
            proof {
                assert(out@.push(f).map_values(|l: String| l@) =~= out@.map_values(
                    |l: String| l@,
                ).push(f@));
            }
            out.push(f);
        }
        k = k + 1;
    }
    proof {
        assert(fs.subrange(0, files@.len() as int) =~= fs);
        assert(hits@.subrange(0, files@.len() as int) =~= hits@);
    }
    out
}

/// The glob result for each file: whether the matcher, if there is one,
/// ignores it.
pub open spec fn file_hits(matcher: Option<GlobMatcher>, files: Seq<Seq<char>>) -> Seq<bool> {
    Seq::new(
        files.len(),
        |i: int|
            match matcher {
                Some(m) => glob_ignored(m.root(), m.lines(), files[i], false),
                None => false,
            },
    )
}

/// The tracked files of `listing` to untrack: every one the exact rules
/// exclude, plus those the glob matcher (if any) ignores.
pub fn untrack_candidates(listing: &str, rules: &[Rule], matcher: &Option<GlobMatcher>) -> (r: Vec<
    String,
>)
    ensures
        ({
            let files = listed_files(lines_of(listing@));
            r@.map_values(|l: String| l@) == selected(
                files,
                rule_views(rules@),
                file_hits(*matcher, files),
            )
        }),
{
    let files = tracked_files(listing);
    let ghost fs = files@.map_values(|l: String| l@);
    let ghost want = file_hits(*matcher, fs);
    let mut hits: Vec<bool> = Vec::new();
    let mut k: usize = 0;
    while k < files.len()
        invariant
            0 <= k <= files@.len(),
            fs == files@.map_values(|l: String| l@),
            want == file_hits(*matcher, fs),
            hits@ == want.subrange(0, k as int),
        decreases files@.len() - k,
    {
        let hit = match matcher {
            Some(g) => glob_ignores(g, files[k].as_str(), false),
            None => false,
        };
        proof {
            assert(fs[k as int] == files@[k as int]@);
            assert(want.subrange(0, k + 1) =~= want.subrange(0, k as int).push(hit));
        }
        hits.push(hit);
        k = k + 1;
    }
    assert(hits@ =~= want);
    select_untracked(&files, rules, &hits)
}

} // verus!
