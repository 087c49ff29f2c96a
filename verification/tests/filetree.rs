use test_results_parser::filetree::components::reverse_components;
use test_results_parser::filetree::ReverseFileTree;

#[test]
fn test_reverse_components() {
    let components = reverse_components("mod.rs");
    assert_eq!(components, ["mod.rs"]);

    let components = reverse_components("./foo/./bar/mod.rs");
    assert_eq!(components, ["mod.rs", "bar", "foo"]);

    let components = reverse_components("./foo/../bar/mod.rs");
    assert_eq!(components, ["mod.rs", "bar"]);

    let components = reverse_components("foo/../bar/../mod.rs");
    assert_eq!(components, ["mod.rs"]);

    let components = reverse_components("foo/bar/foobar/../../mod.rs");
    assert_eq!(components, ["mod.rs", "foo"]);
}

fn build(paths: &[&str]) -> ReverseFileTree {
    let owned: Vec<String> = paths.iter().map(|p| p.to_string()).collect();
    ReverseFileTree::from_iter(&owned)
}

#[test]
fn test_min_matches() {
    let tree = build(&["x/y/z"]);

    let cases: &[(usize, &str, &[&str])] = &[
        // only the basename has to match
        (0, "z", &["x/y/z"]),
        (0, "R/z", &["x/y/z"]),
        (0, "R/y/z", &["x/y/z"]),
        (0, "x/y/z", &["x/y/z"]),
        (0, "w/x/y/z", &["x/y/z"]),
        // basename + one ancestor have to match
        (1, "z", &[]),
        (1, "R/z", &[]),
        (1, "R/y/z", &["x/y/z"]),
        (1, "x/y/z", &["x/y/z"]),
        (1, "w/x/y/z", &["x/y/z"]),
        // 3 components have to match
        (2, "z", &[]),
        (2, "R/z", &[]),
        (2, "R/y/z", &[]),
        (2, "x/y/z", &["x/y/z"]),
        (2, "w/x/y/z", &["x/y/z"]),
    ];
    for &(min_matches, lookup, result) in cases {
        assert_eq!(tree.lookup(lookup, Some(min_matches)), result);
    }
}

#[test]
fn test_lookup() {
    let tree = build(&["mod.rs"]);
    // exact lookup
    assert_eq!(tree.lookup("mod.rs", None), ["mod.rs"]);
    // no match
    assert!(tree.lookup("not-found", None).is_empty());

    let tree = build(&["foo/bar/mod.rs"]);

    // the tree will follow unambiguous paths:
    assert_eq!(tree.lookup("bar/mod.rs", None), ["foo/bar/mod.rs"]);
    // it will also follow unambiguous partial matches:
    assert_eq!(tree.lookup("qux/baz/bar/mod.rs", None), ["foo/bar/mod.rs"]);
}

#[test]
fn round_trip_returns_inserted_path() {
    let mut tree = ReverseFileTree::new();
    tree.insert("src/filetree/mod.rs");
    assert_eq!(tree.lookup("src/filetree/mod.rs", None), ["src/filetree/mod.rs"]);
}

#[test]
fn ambiguous_paths_are_reported_together() {
    let tree = build(&["./mod.rs", "mod.rs"]);
    // both original strings normalize to the same single component
    assert_eq!(tree.lookup("mod.rs", None), ["./mod.rs", "mod.rs"]);
    assert_eq!(tree.lookup("./mod.rs", None), ["./mod.rs", "mod.rs"]);
}

#[test]
fn duplicate_insertion_accumulates() {
    let tree = build(&["a/b.rs", "a/b.rs"]);
    assert_eq!(tree.lookup("a/b.rs", None), ["a/b.rs", "a/b.rs"]);
}

#[test]
fn empty_components_are_ordinary() {
    // consecutive separators produce empty components that stay significant
    assert_eq!(reverse_components("a//b"), ["b", "", "a"]);
    let tree = build(&["a//b"]);
    assert_eq!(tree.lookup("a//b", None), ["a//b"]);
    assert!(tree.lookup("a/b", Some(1)).is_empty());
}

#[test]
fn empty_string_is_a_component() {
    assert_eq!(reverse_components(""), [""]);
    let tree = build(&[""]);
    assert_eq!(tree.lookup("", None), [""]);
}

#[test]
fn trailing_parent_markers_are_dropped() {
    assert_eq!(reverse_components("../../mod.rs"), ["mod.rs"]);
    assert_eq!(reverse_components(".."), Vec::<String>::new());
}

#[test]
fn branching_stops_forced_completion() {
    let tree = build(&["a/x/m.rs", "b/x/m.rs"]);
    // the walk matches "m.rs" and "x" but the next level is ambiguous
    assert!(tree.lookup("x/m.rs", None).is_empty());
    // a fully specified query still resolves
    assert_eq!(tree.lookup("a/x/m.rs", None), ["a/x/m.rs"]);
}

#[test]
fn forced_completion_follows_long_chains() {
    let tree = build(&["q/r/s/t.rs"]);
    assert_eq!(tree.lookup("t.rs", None), ["q/r/s/t.rs"]);
    assert!(tree.lookup("t.rs", Some(1)).is_empty());
}

#[test]
fn dot_segments_do_not_consume_parents() {
    // `.` between `..` and its target must not absorb the cancellation
    assert_eq!(reverse_components("foo/.././bar"), ["bar"]);
    assert_eq!(reverse_components("foo/./../bar"), ["bar"]);
}
