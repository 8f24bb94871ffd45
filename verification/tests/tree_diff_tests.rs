use chrome_dom_diff::diff::tree_diff::{compute_tree_diff, DiffChange, NodeChange, TreeDiff};
use chrome_dom_diff::dom::{DomNode, DomTree};

fn create_simple_tree() -> DomTree {
    let mut tree = DomTree::new();

    let root = DomNode::new_element(1, "div");
    let child1 = DomNode::new_element(2, "span");
    let child2 = DomNode::new_text(3, "hello");

    tree.add_node(root);
    tree.add_node(child1);
    tree.add_node(child2);
    tree.set_root(1);

    tree.append_child(1, 2);
    tree.append_child(1, 3);

    tree
}

fn replace_node(tree: &mut DomTree, id: u64, edit: impl FnOnce(&mut DomNode)) {
    let mut node = tree.get_node(id).unwrap().clone();
    edit(&mut node);
    tree.add_node(node);
}

#[test]
fn tree_diff_test_no_diff() {
    let tree1 = create_simple_tree();
    let tree2 = create_simple_tree();

    let diff = compute_tree_diff(&tree1, &tree2);

    assert!(!diff.has_changes());
    assert_eq!(diff.change_count(), 0);
}

#[test]
fn test_attribute_change() {
    let tree1 = create_simple_tree();
    let mut tree2 = create_simple_tree();

    replace_node(&mut tree2, 1, |node| {
        node.attributes.push(("class".to_string(), "container".to_string()));
    });

    let diff = compute_tree_diff(&tree1, &tree2);

    assert!(diff.has_changes());
    assert_eq!(diff.change_count(), 1);

    match &diff.changes[0] {
        DiffChange::Update { node, changes } => {
            assert_eq!(*node, 1);
            assert_eq!(changes.len(), 1);
        }
        _ => panic!("Expected Update change"),
    }
}

#[test]
fn test_text_change() {
    let tree1 = create_simple_tree();
    let mut tree2 = create_simple_tree();

    replace_node(&mut tree2, 3, |node| {
        node.text_content = Some("world".to_string());
    });

    let diff = compute_tree_diff(&tree1, &tree2);

    assert!(diff.has_changes());
    assert_eq!(diff.change_count(), 1);
}

#[test]
fn test_insert_node() {
    let tree1 = create_simple_tree();
    let mut tree2 = create_simple_tree();

    let new_id = tree2.generate_id();
    let new_node = DomNode::new_element(new_id, "p");
    tree2.add_node(new_node);
    tree2.append_child(1, new_id);

    let diff = compute_tree_diff(&tree1, &tree2);

    assert!(diff.has_changes());

    let has_insert = diff.changes.iter().any(|c| matches!(c, DiffChange::Insert { .. }));
    assert!(has_insert);
}

#[test]
fn test_delete_node() {
    let mut tree1 = create_simple_tree();
    let tree2 = create_simple_tree();

    tree1.remove_child(1, 2);

    let diff = compute_tree_diff(&tree1, &tree2);

    assert!(diff.has_changes());

    let has_delete = diff.changes.iter().any(|c| matches!(c, DiffChange::Delete { .. }));
    assert!(has_delete);
}

#[test]
fn test_clear_diff() {
    let mut diff = TreeDiff::new();
    diff.add_change(DiffChange::Update { node: 1, changes: vec![] });

    assert!(diff.has_changes());

    diff.clear();

    assert!(!diff.has_changes());
}

#[test]
fn test_children_reorder() {
    let tree1 = create_simple_tree();
    let mut tree2 = create_simple_tree();

    tree2.remove_child(1, 3);
    tree2.remove_child(1, 2);
    tree2.append_child(1, 3);
    tree2.append_child(1, 2);

    let diff = compute_tree_diff(&tree1, &tree2);

    let has_move = diff.changes.iter().any(|c| matches!(c, DiffChange::Move { .. }));
    assert!(has_move);
}

#[test]
fn scenario_identical_deep_trees_yield_empty_diff() {
    let mut t1 = DomTree::new();
    let mut t2 = DomTree::new();
    for t in [&mut t1, &mut t2] {
        t.add_node(DomNode::new_element(1, "html"));
        t.add_node(DomNode::new_element(2, "body"));
        t.add_node(DomNode::new_element(3, "div").with_attr("id", "main"));
        t.add_node(DomNode::new_text(4, "content"));
        t.set_root(1);
        t.append_child(1, 2);
        t.append_child(2, 3);
        t.append_child(3, 4);
    }
    let diff = compute_tree_diff(&t1, &t2);
    assert_eq!(diff.change_count(), 0);
}

#[test]
fn scenario_single_attribute_value_edit() {
    let mut t1 = create_simple_tree();
    replace_node(&mut t1, 2, |n| {
        n.attributes.push(("class".to_string(), "old".to_string()));
    });
    let mut t2 = create_simple_tree();
    replace_node(&mut t2, 2, |n| {
        n.attributes.push(("class".to_string(), "new".to_string()));
    });

    let diff = compute_tree_diff(&t1, &t2);
    assert_eq!(diff.change_count(), 1);
    match &diff.changes[0] {
        DiffChange::Update { node, changes } => {
            assert_eq!(*node, 2);
            assert_eq!(changes.len(), 1);
            match &changes[0] {
                NodeChange::AttrChange { name, old_value, new_value } => {
                    assert_eq!(name, "class");
                    assert_eq!(old_value.as_deref(), Some("old"));
                    assert_eq!(new_value.as_deref(), Some("new"));
                }
                _ => panic!("Expected AttrChange"),
            }
        }
        _ => panic!("Expected Update change"),
    }
}

#[test]
fn scenario_text_edit_reports_old_and_new() {
    let t1 = create_simple_tree();
    let mut t2 = create_simple_tree();
    replace_node(&mut t2, 3, |n| {
        n.text_content = Some("goodbye".to_string());
    });

    let diff = compute_tree_diff(&t1, &t2);
    assert_eq!(diff.change_count(), 1);
    match &diff.changes[0] {
        DiffChange::Update { node, changes } => {
            assert_eq!(*node, 3);
            assert_eq!(changes.len(), 1);
            match &changes[0] {
                NodeChange::TextChange { old_value, new_value } => {
                    assert_eq!(old_value, "hello");
                    assert_eq!(new_value, "goodbye");
                }
                _ => panic!("Expected TextChange"),
            }
        }
        _ => panic!("Expected Update change"),
    }
}

#[test]
fn scenario_child_swap_yields_moves_at_both_positions() {
    let t1 = create_simple_tree();
    let mut t2 = create_simple_tree();
    t2.remove_child(1, 3);
    t2.remove_child(1, 2);
    t2.append_child(1, 3);
    t2.append_child(1, 2);

    let diff = compute_tree_diff(&t1, &t2);
    assert_eq!(diff.change_count(), 2);
    assert_eq!(
        diff.changes[0],
        DiffChange::Move { from_parent: 1, to_parent: 1, index: 0, node: 3 }
    );
    assert_eq!(
        diff.changes[1],
        DiffChange::Move { from_parent: 1, to_parent: 1, index: 1, node: 2 }
    );
}

#[test]
fn scenario_fresh_leaf_is_exactly_one_insert() {
    // appending one leaf under a childless parent: the new node appears as
    // exactly one insert at its position, the parent's changed child count
    // shows up as one delete of the parent's subtree on the old side
    let mut t1 = DomTree::new();
    t1.add_node(DomNode::new_element(1, "div"));
    t1.add_node(DomNode::new_element(2, "span"));
    t1.set_root(1);
    t1.append_child(1, 2);

    let mut t2 = DomTree::new();
    t2.add_node(DomNode::new_element(1, "div"));
    t2.add_node(DomNode::new_element(2, "span"));
    t2.set_root(1);
    t2.append_child(1, 2);
    t2.add_node(DomNode::new_text(3, "leaf"));
    t2.append_child(2, 3);

    let diff = compute_tree_diff(&t1, &t2);

    let inserts: Vec<&DiffChange> = diff
        .changes
        .iter()
        .filter(|c| matches!(c, DiffChange::Insert { .. }))
        .collect();
    assert_eq!(inserts.len(), 1);
    assert_eq!(*inserts[0], DiffChange::Insert { parent: 2, index: 0, node: 3 });
    assert!(diff.inserts.contains_key(&3));
}

#[test]
fn scenario_removed_sole_leaf_is_one_delete() {
    // removing a parent's only leaf: one delete covers the subtree and no
    // change is reported for the leaf's former position individually
    let mut t1 = DomTree::new();
    t1.add_node(DomNode::new_element(1, "div"));
    t1.add_node(DomNode::new_element(2, "span"));
    t1.add_node(DomNode::new_text(3, "leaf"));
    t1.set_root(1);
    t1.append_child(1, 2);
    t1.append_child(2, 3);

    let mut t2 = DomTree::new();
    t2.add_node(DomNode::new_element(1, "div"));
    t2.add_node(DomNode::new_element(2, "span"));
    t2.set_root(1);
    t2.append_child(1, 2);

    let diff = compute_tree_diff(&t1, &t2);
    assert_eq!(diff.change_count(), 1);
    assert_eq!(diff.changes[0], DiffChange::Delete { parent: 1, index: 0, node: 2 });
    assert!(diff.deletes.contains_key(&2));
}

#[test]
fn test_tree_diff_indices_mirror_changes() {
    let tree1 = create_simple_tree();
    let mut tree2 = create_simple_tree();
    let new_id = tree2.generate_id();
    tree2.add_node(DomNode::new_element(new_id, "p"));
    tree2.append_child(1, new_id);

    let diff = compute_tree_diff(&tree1, &tree2);
    for c in &diff.changes {
        match c {
            DiffChange::Insert { parent, index, node } => {
                assert_eq!(diff.inserts.get(node), Some(&(*parent, *index)));
            }
            DiffChange::Delete { parent, index, node } => {
                assert_eq!(diff.deletes.get(node), Some(&(*parent, *index)));
            }
            DiffChange::Move { from_parent, to_parent, index, node } => {
                assert_eq!(diff.moves.get(node), Some(&(*from_parent, *to_parent, *index)));
            }
            DiffChange::Update { .. } => {}
        }
    }
}
