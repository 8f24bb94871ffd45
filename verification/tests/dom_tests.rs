use chrome_dom_diff::dom::{DomNode, DomTree};

#[test]
fn test_dom_tree_creation() {
    let mut tree = DomTree::new();

    let root_id = tree.generate_id();
    let root = DomNode::new_element(root_id, "div");
    tree.add_node(root);
    tree.set_root(root_id);

    assert_eq!(tree.root(), Some(root_id));
    assert_eq!(tree.node_count(), 1);
}

#[test]
fn mod_test_append_child() {
    let mut tree = DomTree::new();

    let root_id = tree.generate_id();
    let root = DomNode::new_element(root_id, "div");
    tree.add_node(root);
    tree.set_root(root_id);

    let child_id = tree.generate_id();
    let child = DomNode::new_element(child_id, "span");
    tree.add_node(child);

    assert!(tree.append_child(root_id, child_id));

    let root = tree.get_node(root_id).unwrap();
    assert_eq!(root.children, vec![child_id]);

    let child = tree.get_node(child_id).unwrap();
    assert_eq!(child.parent, Some(root_id));
}

#[test]
fn test_remove_child() {
    let mut tree = DomTree::new();

    let root_id = tree.generate_id();
    let root = DomNode::new_element(root_id, "div");
    tree.add_node(root);
    tree.set_root(root_id);

    let child_id = tree.generate_id();
    let child = DomNode::new_element(child_id, "span");
    tree.add_node(child);

    tree.append_child(root_id, child_id);
    assert!(tree.remove_child(root_id, child_id));

    let root = tree.get_node(root_id).unwrap();
    assert!(root.children.is_empty());

    let child = tree.get_node(child_id).unwrap();
    assert_eq!(child.parent, None);
}

#[test]
fn test_attributes() {
    let node = DomNode::new_element(1, "div")
        .with_attr("class", "container")
        .with_attr("id", "main");

    assert_eq!(node.get_attr("class").map(|v| v.as_str()), Some("container"));
    assert_eq!(node.get_attr("id").map(|v| v.as_str()), Some("main"));
    assert_eq!(node.get_attr("href").map(|v| v.as_str()), None);
}

#[test]
fn test_iter_no_recursion() {
    let mut tree = DomTree::new();

    let root = DomNode::new_element(1, "div");
    let n2 = DomNode::new_element(2, "span");
    let n3 = DomNode::new_element(3, "p");
    let n4 = DomNode::new_text(4, "hello");
    let n5 = DomNode::new_text(5, "world");

    tree.add_node(root);
    tree.add_node(n2);
    tree.add_node(n3);
    tree.add_node(n4);
    tree.add_node(n5);
    tree.set_root(1);

    tree.append_child(1, 2);
    tree.append_child(1, 3);
    tree.append_child(2, 4);
    tree.append_child(2, 5);

    let mut ids: Vec<u64> = Vec::new();
    let mut it = tree.iter();
    while let Some(id) = it.next() {
        ids.push(id);
    }
    assert_eq!(ids, vec![1, 2, 4, 5, 3]);
}

#[test]
fn test_sibling_caches_follow_child_order() {
    let mut tree = DomTree::new();
    tree.add_node(DomNode::new_element(1, "ul"));
    tree.add_node(DomNode::new_element(2, "li"));
    tree.add_node(DomNode::new_element(3, "li"));
    tree.add_node(DomNode::new_element(4, "li"));
    tree.set_root(1);
    tree.append_child(1, 2);
    tree.append_child(1, 3);
    tree.append_child(1, 4);

    assert_eq!(tree.get_node(2).unwrap().next_sibling, Some(3));
    assert_eq!(tree.get_node(3).unwrap().prev_sibling, Some(2));
    assert_eq!(tree.get_node(3).unwrap().next_sibling, Some(4));

    assert!(tree.remove_child(1, 3));
    assert_eq!(tree.get_node(1).unwrap().children, vec![2, 4]);
    assert_eq!(tree.get_node(2).unwrap().next_sibling, Some(4));
    assert_eq!(tree.get_node(4).unwrap().prev_sibling, Some(2));
    assert_eq!(tree.get_node(3).unwrap().parent, None);
    assert_eq!(tree.get_node(3).unwrap().prev_sibling, None);
    assert_eq!(tree.get_node(3).unwrap().next_sibling, None);
}

#[test]
fn test_clone_subtree_copies_root() {
    let mut tree = DomTree::new();
    let a = tree.generate_id();
    tree.add_node(DomNode::new_element(a, "div"));
    tree.set_root(a);
    let b = tree.generate_id();
    tree.add_node(DomNode::new_text(b, "hi"));
    tree.append_child(a, b);

    let before = tree.node_count();
    let copy = tree.clone_subtree(a);
    assert!(copy.is_some());
    assert!(tree.node_count() > before);
    assert!(tree.clone_subtree(999).is_none());
}
