use eq_tree::TreeNode;

fn leaf(id: &str, label: &str) -> TreeNode {
    TreeNode::new(id.to_string(), label.to_string())
}

fn branch(id: &str, label: &str, children: Vec<TreeNode>) -> TreeNode {
    TreeNode::new_with_children(id.to_string(), label.to_string(), children)
}

fn ids(nodes: &[&TreeNode]) -> Vec<String> {
    nodes.iter().map(|n| n.id.clone()).collect()
}

#[test]
fn move_node_rejects_self_move() {
    let mut t = branch("r", "Root", vec![leaf("x", "X"), leaf("y", "Y")]);
    let before = t.clone();
    assert!(!t.move_node("x", "x"));
    assert_eq!(t, before);
    assert!(!t.move_node("missing", "missing"));
    assert_eq!(t, before);
}

#[test]
fn move_node_rejects_cycle() {
    // A -> B -> C: moving B under its own descendant C must fail and leave
    // the tree unchanged.
    let mut t = branch(
        "a",
        "A",
        vec![branch("b", "B", vec![leaf("c", "C")])],
    );
    let before = t.clone();
    assert!(!t.move_node("b", "c"));
    assert_eq!(t, before);
}

#[test]
fn move_node_relocates_leaf_under_sibling() {
    // root{A, B} with A a leaf: after moving A under B, B is A's parent and
    // A is no longer a direct child of the root.
    let mut t = branch("r", "Root", vec![leaf("a", "A"), leaf("b", "B")]);
    assert!(t.move_node("a", "b"));
    assert_eq!(t.find_parent_of("a").expect("a has a parent").id, "b");
    assert!(t.children.iter().all(|c| c.id != "a"));
    assert_eq!(t.find_by_id("a").expect("a is still in the tree").label, "A");
    assert_eq!(t.find_by_id("a").unwrap().parent_id.as_deref(), Some("b"));
}

#[test]
fn move_node_moves_whole_subtree() {
    let mut t = branch(
        "r",
        "Root",
        vec![branch("a", "A", vec![leaf("c", "C")]), leaf("b", "B")],
    );
    assert!(t.move_node("a", "b"));
    assert_eq!(ids(&t.flatten()), vec!["r", "b", "a", "c"]);
    assert_eq!(t.depth_of("c"), Some(3));
}

#[test]
fn move_node_missing_source_fails_unchanged() {
    let mut t = branch("r", "Root", vec![leaf("a", "A")]);
    let before = t.clone();
    assert!(!t.move_node("missing", "a"));
    assert_eq!(t, before);
}

#[test]
fn move_node_missing_target_fails_and_restores() {
    // The detach succeeds but the attach cannot: the subtree is put back and
    // the tree reports failure instead of dropping the subtree.
    let mut t = branch("r", "Root", vec![branch("a", "A", vec![leaf("c", "C")])]);
    let before = t.clone();
    assert!(!t.move_node("a", "missing"));
    assert_eq!(t, before);
}

#[test]
fn move_node_cannot_move_the_root() {
    let mut t = branch("r", "Root", vec![leaf("a", "A")]);
    let before = t.clone();
    assert!(!t.move_node("r", "a"));
    assert_eq!(t, before);
}

#[test]
fn removal_detaches_subtree_scenario() {
    // root{A{X, Y}}: removing A yields a node flattening to [A, X, Y], and A
    // is no longer found from the root.
    let mut t = branch(
        "root",
        "Root",
        vec![branch("A", "a", vec![leaf("X", "x"), leaf("Y", "y")])],
    );
    let removed = t.remove_node("A").expect("A is below the root");
    assert_eq!(ids(&removed.flatten()), vec!["A", "X", "Y"]);
    assert!(t.find_by_id("A").is_none());
    assert_eq!(t.flatten().len(), 1);
}

#[test]
fn build_then_inspect_then_relocate_scenario() {
    // root = branch("r", "Root", [leaf("a","A"), branch("b","B",[leaf("c","C")])])
    let mut root = branch(
        "r",
        "Root",
        vec![leaf("a", "A"), branch("b", "B", vec![leaf("c", "C")])],
    );
    assert_eq!(root.depth_of("c"), Some(2));
    assert_eq!(root.leaf_count(), 2);
    assert_eq!(ids(&root.find_path_to("c")), vec!["r", "b", "c"]);
    assert!(root.move_node("a", "b"));
    assert_eq!(root.find_parent_of("a").expect("a has a parent").id, "b");
    assert_eq!(root.children.len(), 1);
    assert_eq!(root.children[0].id, "b");
}
