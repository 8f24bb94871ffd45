use chrome_dom_diff::diff::ops_generator::{
    BatchOp, DomOp, MutationRecord, MutationType, OpsGenerator,
};
use chrome_dom_diff::dom::{DomNode, DomTree};

fn create_test_tree() -> DomTree {
    let mut tree = DomTree::new();

    let root = DomNode::new_element(1, "div");
    let child1 = DomNode::new_element(2, "span");
    let child2 = DomNode::new_text(3, "hello");

    tree.add_node(root);
    tree.add_node(child1);
    tree.add_node(child2);
    tree.set_root(1);

    tree.append_child(1, 2);
    tree.append_child(1, 3);

    tree
}

#[test]
fn test_append_child_op() {
    let tree = create_test_tree();
    let generator = OpsGenerator::new(&tree);

    let mutations = vec![MutationRecord {
        type_: MutationType::ChildList,
        target: 1,
        related_node: Some(2),
        attribute_name: None,
        old_value: None,
        new_value: None,
        previous_sibling: None,
        next_sibling: None,
    }];

    let ops = generator.generate_ops_sequence(&mutations);

    assert_eq!(ops.len(), 1);
    assert_eq!(ops[0], DomOp::AppendChild { parent: 1, child: 2 });
}

#[test]
fn test_set_attribute_op() {
    let tree = create_test_tree();
    let generator = OpsGenerator::new(&tree);

    let mutations = vec![MutationRecord {
        type_: MutationType::Attributes,
        target: 1,
        related_node: None,
        attribute_name: Some("class".to_string()),
        old_value: None,
        new_value: Some("container".to_string()),
        previous_sibling: None,
        next_sibling: None,
    }];

    let ops = generator.generate_ops_sequence(&mutations);

    assert_eq!(ops.len(), 1);
    assert_eq!(
        ops[0],
        DomOp::SetAttribute { node: 1, name: "class".to_string(), value: "container".to_string() }
    );
}

#[test]
fn test_set_text_content_op() {
    let tree = create_test_tree();
    let generator = OpsGenerator::new(&tree);

    let mutations = vec![MutationRecord {
        type_: MutationType::CharacterData,
        target: 3,
        related_node: None,
        attribute_name: None,
        old_value: Some("hello".to_string()),
        new_value: Some("world".to_string()),
        previous_sibling: None,
        next_sibling: None,
    }];

    let ops = generator.generate_ops_sequence(&mutations);

    assert_eq!(ops.len(), 1);
    assert_eq!(ops[0], DomOp::SetTextContent { node: 3, text: "world".to_string() });
}

#[test]
fn test_insert_before_op() {
    let mut tree = DomTree::new();

    let root = DomNode::new_element(1, "div");
    let child1 = DomNode::new_element(2, "span");
    let child2 = DomNode::new_text(3, "hello");
    let child3 = DomNode::new_text(4, "world");

    tree.add_node(root);
    tree.add_node(child1);
    tree.add_node(child2);
    tree.add_node(child3);
    tree.set_root(1);

    tree.append_child(1, 2);
    tree.append_child(1, 3);
    // the reference snapshot already reflects the insertion of 4
    tree.append_child(1, 4);

    let generator = OpsGenerator::new(&tree);

    let mutations = vec![MutationRecord {
        type_: MutationType::ChildList,
        target: 1,
        related_node: Some(4),
        attribute_name: None,
        old_value: None,
        new_value: None,
        previous_sibling: Some(2),
        next_sibling: Some(3),
    }];

    let ops = generator.generate_ops_sequence(&mutations);

    assert_eq!(ops.len(), 1);
    assert_eq!(ops[0], DomOp::InsertBefore { parent: 1, new: 4, reference: 3 });
}

#[test]
fn test_remove_child_op() {
    let mut tree = create_test_tree();
    // node 2 is no longer under node 1 in the reference snapshot
    tree.remove_child(1, 2);
    let generator = OpsGenerator::new(&tree);

    let mutations = vec![MutationRecord {
        type_: MutationType::ChildList,
        target: 1,
        related_node: Some(2),
        attribute_name: None,
        old_value: None,
        new_value: None,
        previous_sibling: None,
        next_sibling: None,
    }];

    let ops = generator.generate_ops_sequence(&mutations);

    assert_eq!(ops.len(), 1);
    assert_eq!(ops[0], DomOp::RemoveChild { parent: 1, child: 2 });
}

#[test]
fn test_remove_attribute_op() {
    let tree = create_test_tree();
    let generator = OpsGenerator::new(&tree);

    let mutations = vec![MutationRecord {
        type_: MutationType::Attributes,
        target: 1,
        related_node: None,
        attribute_name: Some("class".to_string()),
        old_value: Some("container".to_string()),
        new_value: None,
        previous_sibling: None,
        next_sibling: None,
    }];

    let ops = generator.generate_ops_sequence(&mutations);

    assert_eq!(ops.len(), 1);
    assert_eq!(ops[0], DomOp::RemoveAttribute { node: 1, name: "class".to_string() });
}

#[test]
fn test_multiple_mutations() {
    let tree = create_test_tree();
    let generator = OpsGenerator::new(&tree);

    let mutations = vec![
        MutationRecord {
            type_: MutationType::Attributes,
            target: 1,
            related_node: None,
            attribute_name: Some("id".to_string()),
            old_value: None,
            new_value: Some("main".to_string()),
            previous_sibling: None,
            next_sibling: None,
        },
        MutationRecord {
            type_: MutationType::CharacterData,
            target: 3,
            related_node: None,
            attribute_name: None,
            old_value: Some("hello".to_string()),
            new_value: Some("world".to_string()),
            previous_sibling: None,
            next_sibling: None,
        },
    ];

    let ops = generator.generate_ops_sequence(&mutations);

    assert_eq!(ops.len(), 2);
    assert_eq!(
        ops[0],
        DomOp::SetAttribute { node: 1, name: "id".to_string(), value: "main".to_string() }
    );
    assert_eq!(ops[1], DomOp::SetTextContent { node: 3, text: "world".to_string() });
}

#[test]
fn test_batch_ops() {
    let tree = create_test_tree();
    let generator = OpsGenerator::new(&tree);

    let changes = vec![
        (1, BatchOp::AddAttr("class".to_string(), "container".to_string())),
        (3, BatchOp::SetText("world".to_string())),
    ];

    let ops = generator.generate_batch_ops(&changes);

    assert_eq!(ops.len(), 2);
}

#[test]
fn test_dom_op_node_ids() {
    let op = DomOp::AppendChild { parent: 1, child: 2 };

    assert_eq!(op.node_ids(), vec![1, 2]);
    assert!(op.is_structure_change());

    let op = DomOp::SetAttribute { node: 1, name: "class".to_string(), value: "container".to_string() };

    assert_eq!(op.node_ids(), vec![1]);
    assert!(!op.is_structure_change());
}

#[test]
fn test_character_data_without_new_value_is_dropped() {
    let tree = create_test_tree();
    let generator = OpsGenerator::new(&tree);

    let mutations = vec![MutationRecord {
        type_: MutationType::CharacterData,
        target: 3,
        related_node: None,
        attribute_name: None,
        old_value: Some("hello".to_string()),
        new_value: None,
        previous_sibling: None,
        next_sibling: None,
    }];

    assert_eq!(generator.generate_ops_sequence(&mutations).len(), 0);
}

#[test]
fn test_subtree_record_is_informational() {
    let tree = create_test_tree();
    let generator = OpsGenerator::new(&tree);

    let mutations = vec![MutationRecord {
        type_: MutationType::Subtree,
        target: 1,
        related_node: Some(2),
        attribute_name: None,
        old_value: None,
        new_value: None,
        previous_sibling: None,
        next_sibling: None,
    }];

    assert_eq!(generator.generate_ops_sequence(&mutations).len(), 0);
}

#[test]
fn test_batch_ops_every_kind() {
    let tree = create_test_tree();
    let generator = OpsGenerator::new(&tree);

    let changes = vec![
        (1, BatchOp::AddAttr("k".to_string(), "v".to_string())),
        (1, BatchOp::RemoveAttr("k".to_string())),
        (3, BatchOp::SetText("t".to_string())),
        (1, BatchOp::Append(9)),
        (1, BatchOp::Remove(9)),
    ];

    let ops = generator.generate_batch_ops(&changes);
    assert_eq!(ops.len(), 5);
    assert_eq!(ops[0], DomOp::SetAttribute { node: 1, name: "k".to_string(), value: "v".to_string() });
    assert_eq!(ops[1], DomOp::RemoveAttribute { node: 1, name: "k".to_string() });
    assert_eq!(ops[2], DomOp::SetTextContent { node: 3, text: "t".to_string() });
    assert_eq!(ops[3], DomOp::AppendChild { parent: 1, child: 9 });
    assert_eq!(ops[4], DomOp::RemoveChild { parent: 1, child: 9 });
}
