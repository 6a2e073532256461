use gitmark::aggregate::{recompute_cpt_exception, recompute_cpt_mixed_marks};
use gitmark::engine::{apply_rules_to_nodes, should_be_ignored};
use gitmark::model::{Mode, Node, Rule};
use gitmark::rules::parse_gitignore;
use gitmark::serializer::{regenerate, render_file};
use gitmark::toggle::toggle;
use gitmark::tree::root_node;

fn node(path: &str, is_dir: bool, depth: usize) -> Node {
    let name = path.rsplit('/').next().unwrap_or("").to_string();
    Node::new(path.to_string(), name, is_dir, depth)
}

/// root, dir/, dir/keep, dir/sub/, dir/sub/f, a, b
fn sample_tree() -> Vec<Node> {
    vec![
        root_node(),
        node("dir", true, 1),
        node("dir/sub", true, 2),
        node("dir/sub/f", false, 3),
        node("dir/keep", false, 2),
        node("a", false, 1),
        node("keep", false, 1),
    ]
}

fn find(nodes: &[Node], path: &str) -> usize {
    nodes.iter().position(|n| n.path == path).unwrap()
}

fn rules(lines: &[&str]) -> Vec<Rule> {
    parse_gitignore(&lines.join("\n"))
}

#[test]
fn exact_precedence_last_rule_wins() {
    let mut t = sample_tree();
    apply_rules_to_nodes(&mut t, &rules(&["/a", "!/a"]));
    let a = &t[find(&t, "a")];
    assert_eq!(a.mode, Mode::E);
    assert!(!a.mark);
}

#[test]
fn inheritance_grants_no_mode() {
    let mut t = sample_tree();
    apply_rules_to_nodes(&mut t, &rules(&["/dir"]));
    let d = &t[find(&t, "dir")];
    assert_eq!(d.mode, Mode::C);
    assert!(d.mark);
    let s = &t[find(&t, "dir/sub")];
    assert_eq!(s.mode, Mode::N);
    assert!(s.mark);
    let f = &t[find(&t, "dir/sub/f")];
    assert_eq!(f.mode, Mode::N);
    assert!(f.mark);
    let a = &t[find(&t, "a")];
    assert_eq!(a.mode, Mode::N);
    assert!(!a.mark);
}

#[test]
fn exception_accounting_and_regeneration_order() {
    let mut t = sample_tree();
    apply_rules_to_nodes(&mut t, &rules(&["/dir", "!/dir/keep"]));
    let d = find(&t, "dir");
    assert_eq!(t[d].cpt_exception, 1);
    assert_eq!(t[0].cpt_exception, 2);
    let out = regenerate(&t, &vec![]);
    assert_eq!(out, vec!["/dir/*".to_string(), "!/dir/keep".to_string()]);
}

#[test]
fn all_marker_then_exception() {
    let mut t = sample_tree();
    apply_rules_to_nodes(&mut t, &rules(&["*"]));
    assert!(t.iter().all(|n| n.mark));
    apply_rules_to_nodes(&mut t, &rules(&["*", "!/keep"]));
    let k = &t[find(&t, "keep")];
    assert_eq!(k.mode, Mode::E);
    assert!(!k.mark);
    assert!(t[find(&t, "dir/keep")].mark);
}

#[test]
fn all_marker_demotes_modes() {
    let mut t = sample_tree();
    apply_rules_to_nodes(&mut t, &rules(&["!/a", "*"]));
    let a = &t[find(&t, "a")];
    assert_eq!(a.mode, Mode::N);
    assert!(a.mark);
    apply_rules_to_nodes(&mut t, &rules(&["/a", "!*"]));
    let a = &t[find(&t, "a")];
    assert_eq!(a.mode, Mode::N);
    assert!(!a.mark);
}

#[test]
fn descendant_exception_demotes_classic() {
    let mut t = sample_tree();
    apply_rules_to_nodes(&mut t, &rules(&["/dir/sub", "!/dir"]));
    let s = &t[find(&t, "dir/sub")];
    assert_eq!(s.mode, Mode::N);
    assert!(!s.mark);
    let d = &t[find(&t, "dir")];
    assert_eq!(d.mode, Mode::E);
}

#[test]
fn apply_is_deterministic() {
    let r = rules(&["/dir", "!/dir/sub", "/dir/sub/f", "*", "!/a"]);
    let mut t1 = sample_tree();
    let mut t2 = sample_tree();
    apply_rules_to_nodes(&mut t1, &r);
    apply_rules_to_nodes(&mut t2, &r);
    apply_rules_to_nodes(&mut t2, &r);
    for (x, y) in t1.iter().zip(t2.iter()) {
        assert_eq!(x.mode, y.mode);
        assert_eq!(x.mark, y.mark);
        assert_eq!(x.cpt_exception, y.cpt_exception);
        assert_eq!(x.cpt_mixed_marks, y.cpt_mixed_marks);
    }
}

#[test]
fn regenerate_parse_apply_round_trip() {
    let mut t = sample_tree();
    apply_rules_to_nodes(&mut t, &rules(&["/dir", "!/dir/keep", "/a"]));
    let text = render_file(&regenerate(&t, &vec![]));
    assert_eq!(text, "/dir/*\n!/dir/keep\n/a\n");
    let mut fresh = sample_tree();
    apply_rules_to_nodes(&mut fresh, &parse_gitignore(&text));
    for (x, y) in t.iter().zip(fresh.iter()) {
        assert_eq!(x.mode, y.mode);
        assert_eq!(x.mark, y.mark);
    }
}

#[test]
fn mixed_marks_count_differing_children() {
    let mut t = vec![
        root_node(),
        node("d", true, 1),
        node("d/x", false, 2),
        node("d/y", false, 2),
        node("d/z", false, 2),
    ];
    t[2].mark = true;
    t[3].mark = true;
    recompute_cpt_mixed_marks(&mut t);
    assert_eq!(t[1].cpt_mixed_marks, 2);
    assert_eq!(t[0].cpt_mixed_marks, 4);
    assert_eq!(t[2].cpt_mixed_marks, 0);
}

#[test]
fn exception_count_sums_nested_counts() {
    let mut t = vec![
        root_node(),
        node("d", true, 1),
        node("d/e", true, 2),
        node("d/e/f", false, 3),
        node("g", false, 1),
    ];
    t[3].mode = Mode::E;
    t[4].mode = Mode::E;
    recompute_cpt_exception(&mut t);
    assert_eq!(t[3].cpt_exception, 1);
    assert_eq!(t[2].cpt_exception, 1);
    assert_eq!(t[1].cpt_exception, 2);
    assert_eq!(t[0].cpt_exception, 5);
    assert_eq!(t[4].cpt_exception, 1);
}

#[test]
fn recursive_toggle_spares_glob_marked() {
    let mut t = sample_tree();
    let f = find(&t, "dir/sub/f");
    t[f].mark = true;
    t[f].generic_mark = true;
    t[f].mode = Mode::E;
    let k = find(&t, "dir/keep");
    t[k].mode = Mode::E;
    let d = find(&t, "dir");
    toggle(&mut t, d);
    assert!(t[d].mark);
    assert_eq!(t[d].mode, Mode::C);
    let s = find(&t, "dir/sub");
    assert!(t[s].mark);
    assert_eq!(t[s].mode, Mode::N);
    assert!(t[k].mark);
    assert_eq!(t[k].mode, Mode::N);
    assert!(t[f].mark);
    assert_eq!(t[f].mode, Mode::E);
    assert!(!t[find(&t, "a")].mark);
    assert_eq!(t[d].cpt_exception, 2);
}

#[test]
fn toggle_mode_transitions() {
    let mut t = sample_tree();
    let a = find(&t, "a");
    toggle(&mut t, a);
    assert!(t[a].mark);
    assert_eq!(t[a].mode, Mode::C);
    toggle(&mut t, a);
    assert!(!t[a].mark);
    assert_eq!(t[a].mode, Mode::N);
    toggle(&mut t, a);
    toggle(&mut t, a);
    assert_eq!(t[a].mode, Mode::N);
    t[a].mark = true;
    toggle(&mut t, a);
    assert!(!t[a].mark);
    assert_eq!(t[a].mode, Mode::E);
    toggle(&mut t, a);
    assert!(t[a].mark);
    assert_eq!(t[a].mode, Mode::N);
}

#[test]
fn toggle_on_glob_marked_is_noop() {
    let mut t = sample_tree();
    let a = find(&t, "a");
    t[a].mark = true;
    t[a].generic_mark = true;
    toggle(&mut t, a);
    assert!(t[a].mark);
    assert_eq!(t[a].mode, Mode::N);
}

#[test]
fn toggle_off_marked_directory() {
    let mut t = sample_tree();
    apply_rules_to_nodes(&mut t, &rules(&["/dir", "!/dir/keep"]));
    let d = find(&t, "dir");
    toggle(&mut t, d);
    assert!(!t[d].mark);
    assert_eq!(t[d].mode, Mode::N);
    let k = find(&t, "dir/keep");
    assert!(!t[k].mark);
    assert_eq!(t[k].mode, Mode::N);
    assert_eq!(t[d].cpt_exception, 0);
}

#[test]
fn should_be_ignored_follows_rule_order() {
    let r = rules(&["/target", "!/target/keep.txt", "*", "!/src"]);
    assert!(should_be_ignored("target/x", &r));
    assert!(should_be_ignored("target/keep.txt", &r));
    assert!(!should_be_ignored("src/main.rs", &r));
    assert!(should_be_ignored("README.md", &r));
    let r2 = rules(&["/target", "!/target/keep.txt"]);
    assert!(!should_be_ignored("target\\keep.txt", &r2));
    assert!(should_be_ignored("target\\other", &r2));
    assert!(!should_be_ignored("targets", &r2));
}

#[test]
fn regenerate_keeps_foreign_lines_and_drops_own() {
    let mut t = sample_tree();
    apply_rules_to_nodes(&mut t, &rules(&["/a"]));
    let existing: Vec<String> = vec![
        "# comment", "*.png", "a", "!/keep/*", "/dir/*", "  ", "!*", "other",
    ]
    .into_iter()
    .map(|s| s.to_string())
    .collect();
    let out = regenerate(&t, &existing);
    assert_eq!(out, vec!["# comment", "*.png", "  ", "other", "/a"]);
}

#[test]
fn regenerate_root_and_normal_directory_with_exception() {
    let mut t = sample_tree();
    apply_rules_to_nodes(&mut t, &rules(&["*", "!/dir/keep"]));
    let out = regenerate(&t, &vec!["x".to_string()]);
    assert_eq!(out, vec!["x", "/*", "!/dir", "/dir/*", "!/dir/keep"]);
}

#[test]
fn render_file_normalizes_final_newline() {
    assert_eq!(render_file(&vec![]), "");
    assert_eq!(render_file(&vec!["a".to_string(), "b".to_string()]), "a\nb\n");
    assert_eq!(render_file(&vec!["a".to_string(), "".to_string()]), "a\n");
    assert_eq!(render_file(&vec!["".to_string()]), "");
}

#[test]
fn empty_tree_and_rules() {
    let mut t: Vec<Node> = vec![];
    apply_rules_to_nodes(&mut t, &rules(&["/a"]));
    assert!(t.is_empty());
    recompute_cpt_exception(&mut t);
    recompute_cpt_mixed_marks(&mut t);
    assert!(regenerate(&t, &vec![]).is_empty());
    let mut t = sample_tree();
    apply_rules_to_nodes(&mut t, &[]);
    assert!(t.iter().all(|n| !n.mark && n.mode == Mode::N && n.cpt_exception == 0));
    assert!(regenerate(&t, &vec![]).is_empty());
    assert!(!should_be_ignored("a", &[]));
}

#[test]
fn marked_root_regenerates_star_first_among_new_lines() {
    let mut t = sample_tree();
    apply_rules_to_nodes(&mut t, &rules(&["/*"]));
    assert!(t[0].mark);
    let out = regenerate(&t, &vec!["# keep me".to_string(), "/*".to_string()]);
    assert_eq!(out, vec!["# keep me", "/*"]);
}

#[test]
fn backslash_paths_match_forward_slash_rules() {
    let mut t = vec![root_node(), node("a\\b", false, 1), node("c", false, 1)];
    let r = rules(&["a/b"]);
    apply_rules_to_nodes(&mut t, &r);
    assert!(t[1].mark);
    assert_eq!(t[1].mode, Mode::C);
    assert_eq!(should_be_ignored("a\\b", &r), t[1].mark);
    assert_eq!(should_be_ignored("c", &r), t[2].mark);
    let out = regenerate(&t, &vec!["/a\\b".to_string(), "a/b".to_string()]);
    assert_eq!(out, vec!["/a\\b", "/a/b"]);
}
