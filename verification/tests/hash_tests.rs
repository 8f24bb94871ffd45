use chrome_dom_diff::diff::hash::{hash_node, hash_node_with_seed, hash_nodes, nodes_maybe_equal};
use chrome_dom_diff::dom::{DomNode, DomTree};

#[test]
fn test_hash_element_node() {
    let node1 = DomNode::new_element(1, "div");
    let node2 = DomNode::new_element(2, "div");
    let node3 = DomNode::new_element(3, "span");

    assert_eq!(hash_node(&node1), hash_node(&node2));
    assert_ne!(hash_node(&node1), hash_node(&node3));
}

#[test]
fn test_hash_text_node() {
    let node1 = DomNode::new_text(1, "hello");
    let node2 = DomNode::new_text(2, "hello");
    let node3 = DomNode::new_text(3, "world");

    assert_eq!(hash_node(&node1), hash_node(&node2));
    assert_ne!(hash_node(&node1), hash_node(&node3));
}

#[test]
fn test_hash_with_attributes() {
    let node1 = DomNode::new_element(1, "div").with_attr("class", "container");
    let node2 = DomNode::new_element(2, "div").with_attr("class", "container");
    let node3 = DomNode::new_element(3, "div").with_attr("id", "main");

    assert_eq!(hash_node(&node1), hash_node(&node2));
    assert_ne!(hash_node(&node1), hash_node(&node3));
}

#[test]
fn test_hash_with_id_attribute() {
    let node1 = DomNode::new_element(1, "div").with_attr("id", "main");
    let node2 = DomNode::new_element(2, "div").with_attr("id", "main");
    let node3 = DomNode::new_element(3, "div").with_attr("id", "header");

    assert_eq!(hash_node(&node1), hash_node(&node2));
    assert_ne!(hash_node(&node1), hash_node(&node3));
}

#[test]
fn test_hash_with_class_attribute() {
    let node1 = DomNode::new_element(1, "div").with_attr("class", "btn");
    let node2 = DomNode::new_element(2, "div").with_attr("class", "btn");
    let node3 = DomNode::new_element(3, "div").with_attr("class", "btn-primary");

    assert_eq!(hash_node(&node1), hash_node(&node2));
    assert_ne!(hash_node(&node1), hash_node(&node3));
}

#[test]
fn test_hash_text_length() {
    let node1 = DomNode::new_text(1, "hello");
    let node2 = DomNode::new_text(2, "hello world!");
    let node3 = DomNode::new_text(3, "different");

    assert_ne!(hash_node(&node1), hash_node(&node2));
    assert_ne!(hash_node(&node1), hash_node(&node3));
}

#[test]
fn test_hash_children_count() {
    let mut tree = DomTree::new();

    let parent1 = DomNode::new_element(1, "div");
    let parent2 = DomNode::new_element(2, "div");
    let child1 = DomNode::new_text(3, "a");
    let child2 = DomNode::new_text(4, "b");

    tree.add_node(parent1);
    tree.add_node(parent2);
    tree.add_node(child1);
    tree.add_node(child2);

    tree.append_child(1, 3);

    tree.append_child(2, 4);
    tree.append_child(2, 3);

    let node1 = tree.get_node(1).unwrap();
    let node2 = tree.get_node(2).unwrap();

    assert_ne!(hash_node(node1), hash_node(node2));
}

#[test]
fn test_hash_with_seed() {
    let node = DomNode::new_element(1, "div");

    let hash1 = hash_node(&node);
    let hash2 = hash_node_with_seed(&node, 42);
    let hash3 = hash_node_with_seed(&node, 100);

    assert_ne!(hash1, hash2);
    assert_ne!(hash2, hash3);
}

#[test]
fn test_nodes_maybe_equal() {
    let node1 = DomNode::new_element(1, "div");
    let node2 = DomNode::new_element(2, "div");
    let node3 = DomNode::new_element(3, "span");

    assert!(nodes_maybe_equal(&node1, &node2));
    assert!(!nodes_maybe_equal(&node1, &node3));
}

#[test]
fn test_hash_nodes_batch() {
    let nodes = vec![
        DomNode::new_element(1, "div"),
        DomNode::new_element(2, "span"),
        DomNode::new_text(3, "hello"),
    ];

    let hashes = hash_nodes(&nodes);

    assert_eq!(hashes.len(), 3);
    assert_ne!(hashes[0], hashes[1]);
}

#[test]
fn test_hash_long_text() {
    let long_text = "a".repeat(1000);
    let short_text = "a".repeat(10);

    let node1 = DomNode::new_text(1, &long_text);
    let node2 = DomNode::new_text(2, &short_text);

    assert_ne!(hash_node(&node1), hash_node(&node2));
}

#[test]
fn test_hash_comment_node() {
    let node1 = DomNode::new_comment(1, "comment");
    let node2 = DomNode::new_comment(2, "comment");
    let node3 = DomNode::new_comment(3, "different");

    assert_eq!(hash_node(&node1), hash_node(&node2));
    assert_ne!(hash_node(&node1), hash_node(&node3));
}

#[test]
fn test_hash_deterministic_across_calls() {
    let node = DomNode::new_element(7, "section")
        .with_attr("id", "hero")
        .with_attr("class", "wide");
    let first = hash_node(&node);
    for _ in 0..10 {
        assert_eq!(hash_node(&node), first);
    }
}

#[test]
fn test_hash_id_prefix_collision_by_design() {
    // `id` values sharing their first sixteen bytes are defined to hash
    // identically: only a capped prefix enters the fingerprint.
    let node1 = DomNode::new_element(1, "div").with_attr("id", "abcdefghijklmnop-one");
    let node2 = DomNode::new_element(2, "div").with_attr("id", "abcdefghijklmnop-two");
    assert_eq!(hash_node(&node1), hash_node(&node2));

    // a difference inside the prefix is seen
    let node3 = DomNode::new_element(3, "div").with_attr("id", "Xbcdefghijklmnop-one");
    assert_ne!(hash_node(&node1), hash_node(&node3));
}

#[test]
fn test_hash_long_text_tail_sample() {
    // long payloads are sampled head and tail: a middle-only difference
    // beyond both samples collides by design
    let a = format!("{}{}{}", "h".repeat(16), "middle-a".repeat(4), "t".repeat(16));
    let b = format!("{}{}{}", "h".repeat(16), "middle-b".repeat(4), "t".repeat(16));
    assert_eq!(a.len(), b.len());
    let node1 = DomNode::new_text(1, &a);
    let node2 = DomNode::new_text(2, &b);
    assert_eq!(hash_node(&node1), hash_node(&node2));
}
