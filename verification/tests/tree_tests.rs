use eq_tree::TreeNode;

fn leaf(id: &str, label: &str) -> TreeNode {
    TreeNode::new(id.to_string(), label.to_string())
}

fn branch(id: &str, label: &str, children: Vec<TreeNode>) -> TreeNode {
    TreeNode::new_with_children(id.to_string(), label.to_string(), children)
}

fn ids(nodes: &[&TreeNode]) -> Vec<String> {
    nodes.iter().map(|n| n.id.clone()).collect()
}

#[test]
fn new_leaf_has_no_children_and_no_parent() {
    let n = leaf("a", "A");
    assert_eq!(n.id, "a");
    assert_eq!(n.label, "A");
    assert_eq!(n.parent_id, None);
    assert!(n.children.is_empty());
    assert!(n.is_leaf());
}

#[test]
fn branch_stamps_parent_id_on_children() {
    let b = branch("b", "B", vec![leaf("x", "X"), leaf("y", "Y"), leaf("z", "Z")]);
    assert_eq!(b.parent_id, None);
    assert_eq!(b.children.len(), 3);
    for child in &b.children {
        assert_eq!(child.parent_id.as_deref(), Some("b"));
    }
    assert_eq!(b.children[0].id, "x");
    assert_eq!(b.children[1].id, "y");
    assert_eq!(b.children[2].id, "z");
    assert!(!b.is_leaf());
}

#[test]
fn add_child_stamps_parent_id() {
    let mut root = leaf("r", "Root");
    root.add_child(leaf("a", "A"));
    assert_eq!(root.children.len(), 1);
    assert_eq!(root.children[0].parent_id.as_deref(), Some("r"));
    assert!(!root.is_leaf());
}

#[test]
fn find_by_id_tests_self_first() {
    let t = branch("r", "Root", vec![leaf("a", "A")]);
    let found = t.find_by_id("r").expect("root should be found");
    assert_eq!(found.label, "Root");
}

#[test]
fn find_by_id_descends_pre_order() {
    let t = branch(
        "r",
        "Root",
        vec![branch("a", "A", vec![leaf("c", "C")]), leaf("b", "B")],
    );
    assert_eq!(t.find_by_id("c").expect("c is a grandchild").label, "C");
    assert_eq!(t.find_by_id("b").expect("b is a child").label, "B");
    assert!(t.find_by_id("missing").is_none());
}

#[test]
fn find_by_id_returns_first_depth_first_match() {
    // Two nodes carry the id "d"; the depth-first walk reaches the one
    // inside "a" before the direct child.
    let t = branch(
        "r",
        "Root",
        vec![branch("a", "A", vec![leaf("d", "inner")]), leaf("d", "outer")],
    );
    assert_eq!(t.find_by_id("d").expect("some d exists").label, "inner");
}

#[test]
fn find_parent_of_direct_child() {
    let t = branch("r", "Root", vec![leaf("a", "A"), leaf("b", "B")]);
    assert_eq!(t.find_parent_of("b").expect("b has a parent").id, "r");
}

#[test]
fn find_parent_of_nested_child() {
    let t = branch(
        "r",
        "Root",
        vec![branch("a", "A", vec![branch("b", "B", vec![leaf("c", "C")])])],
    );
    assert_eq!(t.find_parent_of("c").expect("c has a parent").id, "b");
}

#[test]
fn find_parent_of_self_or_absent_is_none() {
    let t = branch("r", "Root", vec![leaf("a", "A")]);
    assert!(t.find_parent_of("r").is_none());
    assert!(t.find_parent_of("missing").is_none());
}

#[test]
fn find_path_to_returns_inclusive_path() {
    let t = branch(
        "r",
        "Root",
        vec![leaf("a", "A"), branch("b", "B", vec![leaf("c", "C")])],
    );
    let path = t.find_path_to("c");
    assert_eq!(ids(&path), vec!["r", "b", "c"]);
    let self_path = t.find_path_to("r");
    assert_eq!(ids(&self_path), vec!["r"]);
}

#[test]
fn find_path_to_absent_is_empty() {
    let t = branch("r", "Root", vec![leaf("a", "A")]);
    assert!(t.find_path_to("missing").is_empty());
}

#[test]
fn flatten_is_pre_order() {
    let t = branch(
        "r",
        "Root",
        vec![
            branch("a", "A", vec![leaf("c", "C"), leaf("d", "D")]),
            leaf("b", "B"),
        ],
    );
    let flat = t.flatten();
    assert_eq!(ids(&flat), vec!["r", "a", "c", "d", "b"]);
}

#[test]
fn flatten_length_is_node_count() {
    let t = branch(
        "r",
        "Root",
        vec![
            branch("a", "A", vec![leaf("c", "C")]),
            branch("b", "B", vec![leaf("d", "D"), leaf("e", "E")]),
        ],
    );
    assert_eq!(t.flatten().len(), 6);
}

#[test]
fn flatten_matches_concatenated_child_flattenings() {
    let t = branch(
        "r",
        "Root",
        vec![
            branch("a", "A", vec![leaf("c", "C")]),
            branch("b", "B", vec![leaf("d", "D")]),
        ],
    );
    let flat = t.flatten();
    assert_eq!(flat[0].id, "r");
    let mut expected = vec!["r".to_string()];
    for child in &t.children {
        expected.extend(ids(&child.flatten()));
    }
    assert_eq!(ids(&flat), expected);
}

#[test]
fn depth_of_descendants_matches_path_length() {
    let t = branch(
        "r",
        "Root",
        vec![
            leaf("a", "A"),
            branch("b", "B", vec![branch("c", "C", vec![leaf("d", "D")])]),
        ],
    );
    assert_eq!(t.depth_of("r"), Some(0));
    assert_eq!(t.depth_of("a"), Some(1));
    assert_eq!(t.depth_of("b"), Some(1));
    assert_eq!(t.depth_of("c"), Some(2));
    assert_eq!(t.depth_of("d"), Some(3));
    for id in ["r", "a", "b", "c", "d"] {
        assert_eq!(t.depth_of(id).unwrap() + 1, t.find_path_to(id).len());
    }
}

#[test]
fn depth_of_absent_is_none() {
    let t = branch("r", "Root", vec![leaf("a", "A")]);
    assert_eq!(t.depth_of("missing"), None);
}

#[test]
fn leaf_count_counts_empty_children_nodes() {
    let t = branch(
        "r",
        "Root",
        vec![
            branch("a", "A", vec![leaf("c", "C"), leaf("d", "D")]),
            leaf("b", "B"),
        ],
    );
    assert_eq!(t.leaf_count(), 3);
    let by_flatten = t
        .flatten()
        .iter()
        .filter(|n| n.children.is_empty())
        .count();
    assert_eq!(t.leaf_count(), by_flatten);
}

#[test]
fn leaf_count_of_single_node_is_one() {
    let t = leaf("r", "Root");
    assert_eq!(t.leaf_count(), 1);
    assert_eq!(t.flatten().len(), 1);
}

#[test]
fn add_child_to_inserts_at_nested_parent() {
    let mut t = branch("r", "Root", vec![branch("a", "A", vec![leaf("b", "B")])]);
    assert!(t.add_child_to("b", leaf("c", "C")));
    let b = t.find_by_id("b").expect("b is present");
    assert_eq!(b.children.len(), 1);
    assert_eq!(b.children[0].id, "c");
    assert_eq!(b.children[0].parent_id.as_deref(), Some("b"));
}

#[test]
fn add_child_to_missing_parent_fails_unchanged() {
    let mut t = branch("r", "Root", vec![leaf("a", "A")]);
    let before = t.clone();
    assert!(!t.add_child_to("missing", leaf("c", "C")));
    assert_eq!(t, before);
}

#[test]
fn add_child_to_appends_in_order() {
    let mut t = leaf("r", "Root");
    assert!(t.add_child_to("r", leaf("a", "A")));
    assert!(t.add_child_to("r", leaf("b", "B")));
    assert_eq!(ids(&t.children.iter().collect::<Vec<_>>()), vec!["a", "b"]);
}

#[test]
fn remove_node_detaches_direct_child() {
    let mut t = branch("r", "Root", vec![leaf("a", "A"), leaf("b", "B")]);
    let removed = t.remove_node("a").expect("a is a direct child");
    assert_eq!(removed.id, "a");
    assert_eq!(t.children.len(), 1);
    assert_eq!(t.children[0].id, "b");
}

#[test]
fn remove_node_detaches_nested_subtree() {
    let mut t = branch(
        "r",
        "Root",
        vec![branch("a", "A", vec![branch("b", "B", vec![leaf("c", "C")])])],
    );
    let removed = t.remove_node("b").expect("b is below the root");
    assert_eq!(ids(&removed.flatten()), vec!["b", "c"]);
    assert!(t.find_by_id("b").is_none());
    assert!(t.find_by_id("c").is_none());
    assert!(t.find_by_id("a").is_some());
}

#[test]
fn remove_node_cannot_remove_the_root() {
    let mut t = branch("r", "Root", vec![leaf("a", "A")]);
    assert!(t.remove_node("r").is_none());
    assert_eq!(t.children.len(), 1);
}

#[test]
fn remove_node_absent_id_is_none_and_unchanged() {
    let mut t = branch("r", "Root", vec![leaf("a", "A")]);
    let before = t.clone();
    assert!(t.remove_node("missing").is_none());
    assert_eq!(t, before);
}

#[test]
fn empty_node_twice_first_returns_children_then_nothing() {
    let mut t = branch("r", "Root", vec![leaf("a", "A"), leaf("b", "B")]);
    let first = t.empty_node();
    assert_eq!(first.len(), 2);
    assert_eq!(first[0].id, "a");
    assert_eq!(first[1].id, "b");
    assert!(t.is_leaf());
    let second = t.empty_node();
    assert!(second.is_empty());
    assert!(t.is_leaf());
}

#[test]
fn clone_is_deep_and_equal() {
    let t = branch(
        "r",
        "Root",
        vec![branch("a", "A", vec![leaf("c", "C")]), leaf("b", "B")],
    );
    let copy = t.clone();
    assert_eq!(copy, t);
    assert_eq!(ids(&copy.flatten()), ids(&t.flatten()));
}
