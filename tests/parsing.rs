use gitmark::generic::{
    build_generic_gitignore, generic_pattern_lines, mark_generic_matches, GenericPatternError,
};
use gitmark::model::Node;
use gitmark::tree::root_node;
use gitmark::model::Mode;
use gitmark::rules::{parse_gitignore, parse_rule_line};
use gitmark::text::split_lines;
use gitmark::untrack::{tracked_files, untrack_candidates};

fn view(text: &str) -> Vec<(String, Mode)> {
    parse_gitignore(text).into_iter().map(|r| (r.pattern, r.mode)).collect()
}

#[test]
fn parse_skips_blank_and_comment_lines() {
    assert_eq!(view("\n   \n# note\n  #x\n"), vec![]);
    assert_eq!(view(""), vec![]);
}

#[test]
fn parse_modes_and_slashes() {
    assert_eq!(
        view("/target\n!/target/keep\nbuild/\nout/*\n  spaced  \r\n"),
        vec![
            ("target".to_string(), Mode::C),
            ("target/keep".to_string(), Mode::E),
            ("build".to_string(), Mode::C),
            ("out".to_string(), Mode::C),
            ("spaced".to_string(), Mode::C),
        ]
    );
}

#[test]
fn parse_all_marker_forms() {
    assert_eq!(
        view("*\n/*\n!*\n/\n!/*"),
        vec![
            ("*".to_string(), Mode::C),
            ("*".to_string(), Mode::C),
            ("*".to_string(), Mode::E),
            ("*".to_string(), Mode::C),
            ("*".to_string(), Mode::E),
        ]
    );
}

#[test]
fn parse_leaves_wildcards_to_the_glob_matcher() {
    assert_eq!(view("*.png\nsrc/?x\n[ab]\n/a/**\n//\n"), vec![]);
}

#[test]
fn parse_normalizes_backslashes_and_trailing_slashes() {
    assert_eq!(view("a\\b//\n"), vec![("a/b".to_string(), Mode::C)]);
    assert_eq!(view("!x/*/"), vec![]);
    assert_eq!(view("!/x/"), vec![("x".to_string(), Mode::E)]);
}

#[test]
fn parse_keeps_duplicates_in_order() {
    assert_eq!(
        view("/a\n!/a\n/a"),
        vec![
            ("a".to_string(), Mode::C),
            ("a".to_string(), Mode::E),
            ("a".to_string(), Mode::C),
        ]
    );
}

#[test]
fn parse_rule_line_single() {
    let r = parse_rule_line("!/dir/keep").unwrap();
    assert_eq!(r.pattern, "dir/keep");
    assert_eq!(r.mode, Mode::E);
    assert!(parse_rule_line("# c").is_none());
}

#[test]
fn split_lines_like_std() {
    for text in ["", "a", "a\n", "a\n\nb", "a\r\nb\r\n", "\n", "x\ry\n"] {
        let expected: Vec<String> = text.lines().map(|s| s.to_string()).collect();
        assert_eq!(split_lines(text), expected, "{:?}", text);
    }
}

#[test]
fn generic_lines_are_the_wildcard_ones() {
    let lines = generic_pattern_lines(
        "*.png\n!*.rs\n*\n/*\ndir/*\n# *.x\n  build/*.o  \nplain\nsrc*/*\n!/\n/x?/\n",
    );
    assert_eq!(
        lines,
        vec![
            "*.png".to_string(),
            "!*.rs".to_string(),
            "build/*.o".to_string(),
            "src*/*".to_string(),
            "/x?/".to_string(),
        ]
    );
}

#[test]
fn generic_matcher_absent_without_wildcards() {
    match build_generic_gitignore(".", "/target\n!/a\n") {
        Ok(None) => {}
        _ => panic!("expected no matcher"),
    }
}

#[test]
fn generic_matcher_marks_matching_files() {
    let g = match build_generic_gitignore(".", "*.png\n") {
        Ok(Some(g)) => g,
        _ => panic!("expected a matcher"),
    };
    let mut t = vec![
        root_node(),
        Node::new("img".to_string(), "img".to_string(), true, 1),
        Node::new("img/a.png".to_string(), "a.png".to_string(), false, 2),
        Node::new("img/b.txt".to_string(), "b.txt".to_string(), false, 2),
        Node::new("c.png".to_string(), "c.png".to_string(), true, 1),
    ];
    mark_generic_matches(&mut t, &g);
    assert!(t[2].mark && t[2].generic_mark);
    assert!(!t[3].mark && !t[3].generic_mark);
    assert!(!t[4].mark && !t[4].generic_mark);
    assert!(!t[1].mark);
    assert_eq!(t[1].cpt_mixed_marks, 1);
}

#[test]
fn generic_matcher_reports_bad_line() {
    match build_generic_gitignore(".", "a{*.png\n") {
        Err(GenericPatternError::BadLine(l)) => assert_eq!(l, "a{*.png"),
        Ok(_) => {}
        Err(e) => panic!("unexpected {:?}", e),
    }
}

#[test]
fn tracked_files_trims_and_skips_blanks() {
    assert_eq!(
        tracked_files(" a.txt \n\n src/b.rs\n"),
        vec!["a.txt".to_string(), "src/b.rs".to_string()]
    );
}

#[test]
fn untrack_candidates_combine_exact_and_glob() {
    let rules = parse_gitignore("/target\n!/target/keep\n");
    let g = match build_generic_gitignore(".", "*.log\n") {
        Ok(g) => g,
        Err(_) => panic!("matcher"),
    };
    let out = untrack_candidates("target/a\ntarget/keep\nsrc/x.log\nsrc/y.rs\n", &rules, &g);
    assert_eq!(out, vec!["target/a".to_string(), "src/x.log".to_string()]);
    let out2 = untrack_candidates("target/a\nsrc/x.log\n", &rules, &None);
    assert_eq!(out2, vec!["target/a".to_string()]);
}

#[test]
fn glob_exception_lines_reach_the_matcher() {
    let g = match build_generic_gitignore(".", "*.png\n!k*.png\n") {
        Ok(Some(g)) => g,
        _ => panic!("expected a matcher"),
    };
    let mut t = vec![
        root_node(),
        Node::new("a.png".to_string(), "a.png".to_string(), false, 1),
        Node::new("keep.png".to_string(), "keep.png".to_string(), false, 1),
    ];
    mark_generic_matches(&mut t, &g);
    assert!(t[1].mark && t[1].generic_mark);
    assert!(!t[2].mark && !t[2].generic_mark);
    assert_eq!(t[0].cpt_mixed_marks, 1);
}

#[test]
fn wildcard_line_with_exception_is_not_lost() {
    assert!(view("!*.png").is_empty());
    assert!(matches!(build_generic_gitignore(".", "!*.png\n"), Ok(Some(_))));
}
