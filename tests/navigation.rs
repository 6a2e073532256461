use gitmark::model::Node;
use gitmark::tree::{
    build_visible_indices, child_node, insert_children, new_tree, order_entries, root_node, Entry,
};
use gitmark::viewport::{move_down, move_up, parent_index, row_of, settle, visible_window, Viewport};

fn entry(name: &str, is_dir: bool) -> Entry {
    Entry { name: name.to_string(), is_dir }
}

#[test]
fn order_entries_dirs_first_then_names() {
    let out = order_entries(vec![
        entry("b.txt", false),
        entry("zeta", true),
        entry("a.txt", false),
        entry("Alpha", true),
        entry("beta", true),
    ]);
    let names: Vec<(String, bool)> = out.into_iter().map(|e| (e.name, e.is_dir)).collect();
    assert_eq!(
        names,
        vec![
            ("Alpha".to_string(), true),
            ("beta".to_string(), true),
            ("zeta".to_string(), true),
            ("a.txt".to_string(), false),
            ("b.txt".to_string(), false),
        ]
    );
    assert!(order_entries(vec![]).is_empty());
}

#[test]
fn child_node_joins_paths() {
    let root = root_node();
    assert_eq!(root.path, "");
    assert_eq!(root.name, "/");
    assert!(root.expanded);
    let d = child_node(&root, "src".to_string(), true);
    assert_eq!(d.path, "src");
    assert_eq!(d.depth, 1);
    let f = child_node(&d, "main.rs".to_string(), false);
    assert_eq!(f.path, "src/main.rs");
    assert_eq!(f.depth, 2);
    assert!(!f.expanded && !f.mark);
}

fn tree() -> Vec<Node> {
    let root = root_node();
    let a = child_node(&root, "a".to_string(), true);
    let a1 = child_node(&a, "x".to_string(), true);
    let a11 = child_node(&a1, "y".to_string(), false);
    let a2 = child_node(&a, "z".to_string(), false);
    let b = child_node(&root, "b".to_string(), false);
    vec![root, a, a1, a11, a2, b]
}

#[test]
fn visible_indices_skip_collapsed() {
    let mut t = tree();
    assert_eq!(build_visible_indices(&t), vec![0, 1, 5]);
    t[1].expanded = true;
    assert_eq!(build_visible_indices(&t), vec![0, 1, 2, 4, 5]);
    t[2].expanded = true;
    assert_eq!(build_visible_indices(&t), vec![0, 1, 2, 3, 4, 5]);
    t[0].expanded = false;
    assert_eq!(build_visible_indices(&t), vec![0]);
}

#[test]
fn parent_index_finds_nearest_shallower() {
    let t = tree();
    assert_eq!(parent_index(&t, 0), None);
    assert_eq!(parent_index(&t, 3), Some(2));
    assert_eq!(parent_index(&t, 4), Some(1));
    assert_eq!(parent_index(&t, 5), Some(0));
}

#[test]
fn cursor_moves_and_scrolls() {
    let v = Viewport { cursor: 0, scroll: 0 };
    assert_eq!(move_up(v), v);
    let v = move_down(v, 10, 3);
    assert_eq!(v, Viewport { cursor: 1, scroll: 0 });
    let v = move_down(move_down(v, 10, 3), 10, 3);
    assert_eq!(v, Viewport { cursor: 3, scroll: 1 });
    let v = move_up(move_up(move_up(v)));
    assert_eq!(v, Viewport { cursor: 0, scroll: 0 });
    let end = Viewport { cursor: 9, scroll: 7 };
    assert_eq!(move_down(end, 10, 3), end);
}

#[test]
fn settle_clamps_and_jumps() {
    assert_eq!(settle(Viewport { cursor: 4, scroll: 2 }, 0, None, 3), Viewport { cursor: 0, scroll: 0 });
    assert_eq!(settle(Viewport { cursor: 9, scroll: 8 }, 5, None, 3), Viewport { cursor: 4, scroll: 2 });
    assert_eq!(settle(Viewport { cursor: 4, scroll: 2 }, 10, Some(0), 3), Viewport { cursor: 0, scroll: 0 });
    assert_eq!(settle(Viewport { cursor: 1, scroll: 6 }, 8, None, 3), Viewport { cursor: 1, scroll: 1 });
}

#[test]
fn row_of_and_window() {
    assert_eq!(row_of(&vec![0, 2, 5], 5), Some(2));
    assert_eq!(row_of(&vec![0, 2, 5], 3), None);
    assert_eq!(visible_window(10, 4, 3), (4, 7));
    assert_eq!(visible_window(5, 4, 3), (4, 5));
    assert_eq!(visible_window(5, 9, 3), (5, 5));
}

#[test]
fn insert_children_grows_tree_in_preorder() {
    let mut t = new_tree();
    insert_children(&mut t, 0, vec![entry("b.txt", false), entry("src", true), entry("a", true)]);
    let paths: Vec<&str> = t.iter().map(|n| n.path.as_str()).collect();
    assert_eq!(paths, vec!["", "a", "src", "b.txt"]);
    insert_children(&mut t, 1, vec![]);
    insert_children(&mut t, 2, vec![entry("main.rs", false), entry("lib", true)]);
    insert_children(&mut t, 3, vec![entry("x.rs", false)]);
    let got: Vec<(&str, usize)> = t.iter().map(|n| (n.path.as_str(), n.depth)).collect();
    assert_eq!(
        got,
        vec![
            ("", 0),
            ("a", 1),
            ("src", 1),
            ("src/lib", 2),
            ("src/lib/x.rs", 3),
            ("src/main.rs", 2),
            ("b.txt", 1),
        ]
    );
    assert!(t[3].is_dir && !t[5].is_dir);
    assert_eq!(t[4].name, "x.rs");
}
