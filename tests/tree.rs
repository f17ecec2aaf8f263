use path_tree::{line_prefix, name_less, split_path, Tree};

fn segments(path: &str) -> Vec<String> {
    split_path(path)
}

fn build(records: &[(&str, bool)]) -> Tree {
    let mut tree = Tree::new();
    for (path, is_dir) in records {
        tree.insert(&segments(path), *is_dir);
    }
    tree
}

fn lines(records: &[(&str, bool)]) -> Vec<String> {
    build(records).render()
}

#[test]
fn last_sibling_glyphs() {
    assert_eq!(
        lines(&[("x/1", false), ("x/2", false), ("y", false)]),
        vec!["x", "├── 1", "└── 2", "y"]
    );
}

#[test]
fn deep_nesting_uses_blank_continuation() {
    assert_eq!(lines(&[("p/q/r", false)]), vec!["p", "└── q", "    └── r"]);
}

#[test]
fn bar_continuation_under_a_non_last_ancestor() {
    assert_eq!(
        lines(&[("a/b/c", false), ("a/d", false)]),
        vec!["a", "├── b", "│   └── c", "└── d"]
    );
}

#[test]
fn shared_prefix_gives_one_directory() {
    let tree = build(&[("a/b", false), ("a/c", false)]);
    match &tree {
        Tree::Dir(top) => {
            assert_eq!(top.len(), 1);
            assert_eq!(top[0].0, "a");
            match &top[0].1 {
                Tree::Dir(below) => {
                    let names: Vec<&str> = below.iter().map(|e| e.0.as_str()).collect();
                    assert_eq!(names, vec!["b", "c"]);
                }
                Tree::File(_) => panic!("a should be a directory"),
            }
        }
        Tree::File(_) => panic!("the root should be a directory"),
    }
    assert_eq!(tree.render(), vec!["a", "├── b", "└── c"]);
}

#[test]
fn file_that_gains_a_child_becomes_a_directory() {
    assert_eq!(lines(&[("a", false), ("a/b", false)]), vec!["a", "└── b"]);
    assert_eq!(lines(&[("a", false), ("a/b", true)]), vec!["a", "└── b"]);
    assert!(matches!(build(&[("a", false), ("a/b", true)]), Tree::Dir(_)));
}

#[test]
fn empty_tree_renders_nothing() {
    assert!(Tree::new().render().is_empty());
}

#[test]
fn empty_path_is_ignored() {
    let mut tree = Tree::new();
    tree.insert(&[], false);
    tree.insert(&segments("//"), true);
    assert!(tree.render().is_empty());
}

#[test]
fn reinsertion_is_idempotent() {
    let once = lines(&[("a/b", false), ("c", true)]);
    let twice = lines(&[("a/b", false), ("a/b", false), ("c", true), ("c", true)]);
    assert_eq!(once, twice);
    assert_eq!(once, vec!["a", "└── b", "c"]);
}

#[test]
fn insertion_order_does_not_matter() {
    let records = [("src/main.rs", false), ("src/lib", true), ("README", false), ("src", true)];
    let expected = vec!["README", "src", "├── lib", "└── main.rs"];
    let orders: [[usize; 4]; 4] = [[0, 1, 2, 3], [3, 2, 1, 0], [2, 0, 3, 1], [1, 3, 0, 2]];
    for order in orders.iter() {
        let permuted: Vec<(&str, bool)> = order.iter().map(|&i| records[i]).collect();
        assert_eq!(lines(&permuted), expected);
    }
    assert_eq!(lines(&[("a", false), ("a/b", false)]), lines(&[("a/b", false), ("a", false)]));
}

#[test]
fn siblings_sort_by_code_point() {
    assert_eq!(
        lines(&[("a", false), ("Z", false), ("ab", false), ("B", false), ("é", false)]),
        vec!["B", "Z", "a", "ab", "é"]
    );
}

#[test]
fn prefix_for_each_depth() {
    assert_eq!(line_prefix(&[]), "");
    assert_eq!(line_prefix(&[true]), "");
    assert_eq!(line_prefix(&[false, true]), "└── ");
    assert_eq!(line_prefix(&[true, false]), "├── ");
    assert_eq!(line_prefix(&[false, false, true, false]), "│       ├── ");
}

#[test]
fn name_order() {
    let s = |x: &str| x.to_string();
    assert!(name_less(&s("a"), &s("b")));
    assert!(!name_less(&s("b"), &s("a")));
    assert!(!name_less(&s("a"), &s("a")));
    assert!(name_less(&s("a"), &s("ab")));
    assert!(!name_less(&s("ab"), &s("a")));
    assert!(name_less(&s(""), &s("a")));
    assert!(!name_less(&s("é"), &s("z")));
}


#[test]
fn split_path_keeps_nonempty_segments() {
    assert_eq!(split_path("src/main.rs"), vec!["src", "main.rs"]);
    assert_eq!(split_path("/a//b/"), vec!["a", "b"]);
    assert_eq!(split_path("ä/ö"), vec!["ä", "ö"]);
    assert_eq!(split_path("single"), vec!["single"]);
    assert!(split_path("").is_empty());
    assert!(split_path("///").is_empty());
}
