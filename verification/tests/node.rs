use std::cmp::Ordering;
use tree_ds::prelude::{AutomatedId, Node, NodeLabel, Nodes};
use tree_ds::render::join;

#[test]
fn test_node() {
    let mut node = Node::new(1, Some(2));
    let mut child = Node::new(2, Some(3));
    node.add_child(&mut child);
    assert_eq!(node.get_children_ids().len(), 1);
}

#[test]
fn node_test_node_get_node_id() {
    let node = Node::new(1, Some(2));
    assert_eq!(node.get_node_id(), 1);
}

#[test]
fn node_test_node_get_parent() {
    let mut parent_node = Node::new(1, Some(2));
    let mut child_node = Node::new(2, Some(3));
    parent_node.add_child(&mut child_node);
    assert_eq!(
        child_node.get_parent_id().as_ref(),
        Some(&parent_node.get_node_id())
    );
    assert!(parent_node.get_parent_id().is_none());
}

#[test]
fn node_test_node_get_value() {
    let node = Node::new(1, Some(2));
    assert_eq!(node.get_value(), Some(2));
}

#[test]
fn node_test_node_set_value() {
    let mut node = Node::new(1, Some(2));
    assert_eq!(node.get_value(), Some(2));
    node.set_value(Some(3));
    assert_eq!(node.get_value(), Some(3));
}

#[test]
fn node_test_node_set_parent() {
    let mut parent_node = Node::new(1, Some(2));
    let mut child_node = Node::new(2, Some(3));
    child_node.set_parent(Some(&mut parent_node));
    assert_eq!(
        child_node.get_parent_id().as_ref(),
        Some(&parent_node.get_node_id())
    );
}

#[test]
fn node_test_node_remove_child() {
    let mut parent_node = Node::new(1, Some(2));
    let mut child_node = Node::new(2, Some(3));
    parent_node.add_child(&mut child_node);
    parent_node.remove_child(&mut child_node);
    assert_eq!(parent_node.get_children_ids().len(), 0);
}

#[test]
fn node_test_node_eq() {
    let node1 = Node::new(1, Some(2));
    let node2 = Node::new(1, Some(2));
    assert_eq!(node1, node2);
}

#[test]
fn auto_id_test_new_with_auto_id() {
    let node = Node::<AutomatedId, &str>::new_with_auto_id(Some("Harry Doe"));
    let node_2 = Node::<AutomatedId, &str>::new_with_auto_id(Some("Jane Doe"));
    assert_eq!(node.get_value(), Some("Harry Doe"));
    assert_ne!(node.get_node_id(), node_2.get_node_id());
}

#[test]
fn test_new_with_auto_id_async() {
    let node = Node::<AutomatedId, &str>::new_with_auto_id(Some("Harry Doe"));
    let node_2 = Node::<AutomatedId, &str>::new_with_auto_id(Some("Jane Doe"));
    assert_eq!(node.get_value(), Some("Harry Doe"));
    assert_ne!(node.get_node_id(), node_2.get_node_id());
}

#[test]
fn mod_test_new_with_auto_id() {
    let node = Node::<AutomatedId, &str>::new_with_auto_id(Some("Harry Doe"));
    let node_2 = Node::<AutomatedId, &str>::new_with_auto_id(Some("Jane Doe"));
    assert_eq!(node.get_value(), Some("Harry Doe"));
    assert_ne!(node.get_node_id(), node_2.get_node_id());
}

#[test]
fn test_new_with_id_from() {
    let node = Node::<AutomatedId, &str>::new_with_id_from(41, Some("Harry Doe"));
    assert_eq!(node.get_node_id(), 41);
    assert_eq!(node.get_value(), Some("Harry Doe"));
    assert_eq!(node.get_children_ids().len(), 0);
    assert!(node.get_parent_id().is_none());
    let wide = Node::<u128, i32>::new_with_id_from(u128::MAX, None);
    assert_eq!(wide.get_node_id(), u128::MAX);
}

#[test]
fn test_node_new() {
    let node = Node::new(1, Some(2));
    assert_eq!(node.get_node_id(), 1);
    assert_eq!(node.get_value(), Some(2));
    assert_eq!(node.get_children_ids().len(), 0);
    assert!(node.get_parent_id().is_none());
}

#[test]
fn test_node_adding_children() {
    let mut node = Node::new(1, Some(2));
    let mut child = Node::new(2, Some(3));
    node.add_child(&mut child);
    assert_eq!(node.get_children_ids().len(), 1);
}

#[test]
fn mod_test_node_get_node_id() {
    let node = Node::new(1, Some(2));
    assert_eq!(node.get_node_id(), 1);
}

#[test]
fn mod_test_node_get_parent() {
    let mut parent_node = Node::new(1, Some(2));
    let mut child_node = Node::new(2, Some(3));
    parent_node.add_child(&mut child_node);
    assert_eq!(
        child_node.get_parent_id().as_ref(),
        Some(&parent_node.get_node_id())
    );
    assert!(parent_node.get_parent_id().is_none());
}

#[test]
fn mod_test_node_get_value() {
    let node = Node::new(1, Some(2));
    assert_eq!(node.get_value(), Some(2));
}

#[test]
fn mod_test_node_set_value() {
    let mut node = Node::new(1, Some(2));
    assert_eq!(node.get_value(), Some(2));
    node.set_value(Some(3));
    assert_eq!(node.get_value(), Some(3));
}

#[test]
fn mod_test_node_set_parent() {
    let mut parent_node = Node::new(1, Some(2));
    let mut child_node = Node::new(2, Some(3));
    child_node.set_parent(Some(&mut parent_node));
    assert_eq!(
        child_node.get_parent_id().as_ref(),
        Some(&parent_node.get_node_id())
    );
}

#[test]
fn mod_test_node_remove_child() {
    let mut parent_node = Node::new(1, Some(2));
    let mut child_node = Node::new(2, Some(3));
    parent_node.add_child(&mut child_node);
    parent_node.remove_child(&mut child_node);
    assert_eq!(parent_node.get_children_ids().len(), 0);
}

#[test]
fn test_node_update_value() {
    let mut node = Node::new(1, Some(2));
    node.update_value(|value| *value = value.map(|x| x + 1));
    assert_eq!(node.get_value(), Some(3));
}

#[test]
fn mod_test_node_eq() {
    let node1 = Node::new(1, Some(2));
    let node2 = Node::new(1, Some(2));
    assert_eq!(node1, node2);
}

#[test]
fn test_node_display_with_id() {
    let node = Node::new(1, Some(2));
    assert_eq!(node.to_string(), "1: 2");
}

#[test]
fn test_node_display_without_id() {
    let node = Node::new(1, Some(2));
    assert_eq!(node.label(NodeLabel::Value), "2");
}

#[test]
fn test_nodes() {
    let nodes = Nodes::new(vec![Node::new(1, Some(2))]);
    assert_eq!(nodes.len(), 1);
}

#[test]
fn test_nodes_len() {
    let nodes = Nodes::new(vec![Node::new(1, Some(2))]);
    assert_eq!(nodes.len(), 1);
}

#[test]
fn test_nodes_is_empty() {
    let nodes: Nodes<i32, String> = Nodes::default();
    assert!(nodes.is_empty());
}

#[test]
fn test_nodes_get() {
    let nodes = Nodes::new(vec![Node::new(1, Some(2))]);
    assert_eq!(nodes.get(0).unwrap().get_node_id(), 1);
}

#[test]
fn test_nodes_get_by_node_id() {
    let nodes = Nodes::new(vec![Node::new(1, Some(2))]);
    assert_eq!(nodes.get_by_node_id(&1).unwrap().get_node_id(), 1);
}

#[test]
fn test_nodes_push() {
    let mut nodes = Nodes::new(vec![Node::new(1, Some(2))]);
    nodes.push(Node::new(2, Some(3)));
    assert_eq!(nodes.len(), 2);
}

#[test]
fn test_nodes_remove() {
    let mut nodes = Nodes::new(vec![Node::new(1, Some(2))]);
    let removed_node = nodes.remove(0);
    assert_eq!(removed_node.get_node_id(), 1);
    assert_eq!(nodes.len(), 0);
}

#[test]
fn test_nodes_retain() {
    let mut nodes = Nodes::new(vec![Node::new(1, Some(2)), Node::new(2, Some(3))]);
    nodes.retain(|node| node.get_node_id() == 1);
    assert_eq!(nodes.len(), 1);
}

#[test]
fn test_nodes_clear() {
    let mut nodes = Nodes::new(vec![Node::new(1, Some(2)), Node::new(2, Some(3))]);
    nodes.clear();
    assert_eq!(nodes.len(), 0);
}

#[test]
fn test_nodes_append() {
    let mut nodes = Nodes::new(vec![Node::new(1, Some(2))]);
    let mut other_nodes = Nodes::new(vec![Node::new(2, Some(3))]);
    nodes.append(&mut other_nodes);
    assert_eq!(nodes.len(), 2);
}

#[test]
fn test_nodes_append_raw() {
    let mut nodes = Nodes::new(vec![Node::new(1, Some(2))]);
    let mut other_nodes = vec![Node::new(2, Some(3))];
    nodes.append_raw(&mut other_nodes);
    assert_eq!(nodes.len(), 2);
}

#[test]
fn test_nodes_first() {
    let nodes = Nodes::new(vec![Node::new(1, Some(2)), Node::new(2, Some(3))]);
    assert_eq!(nodes.first().unwrap().get_node_id(), 1);
}

#[test]
fn test_nodes_default() {
    let nodes: Nodes<i32, String> = Nodes::default();
    assert!(nodes.is_empty());
}

#[test]
fn test_nodes_from_iter() {
    let nodes = Nodes::from_iter(vec![Node::new(1, Some(2))]);
    assert_eq!(nodes.len(), 1);
}

#[test]
fn test_nodes_iterator() {
    let nodes = Nodes::new(vec![Node::new(1, Some(2)), Node::new(2, Some(3))]);
    let mut iter = nodes.iter();
    assert_eq!(iter.next().unwrap().get_node_id(), 1);
    assert_eq!(iter.next().unwrap().get_node_id(), 2);
}

#[test]
fn test_nodes_next() {
    let mut nodes = Nodes::new(vec![Node::new(1, Some(2)), Node::new(2, Some(3))]);
    assert_eq!(nodes.next().unwrap().get_node_id(), 1);
    assert_eq!(nodes.next().unwrap().get_node_id(), 2);
}

#[test]
fn test_nodes_size_hint() {
    let nodes = Nodes::new(vec![Node::new(1, Some(2))]);
    let (lower, upper) = nodes.size_hint();
    assert_eq!(lower, 1);
    assert_eq!(upper, Some(1));
}

#[test]
fn test_nodes_as_ref() {
    let nodes = Nodes::new(vec![Node::new(1, Some(2))]);
    assert_eq!(nodes.as_ref().len(), 1);
}

#[test]
fn test_nodes_eq() {
    let nodes1 = Nodes::new(vec![Node::new(1, Some(2))]);
    let nodes2 = Nodes::new(vec![Node::new(1, Some(2))]);
    assert_eq!(nodes1, nodes2);
}

#[test]
fn test_nodes_display() {
    let nodes = Nodes::new(vec![Node::new(1, Some(2))]);
    assert_eq!(nodes.to_string(), "1: 2");
    assert_eq!(join(&nodes.labels(NodeLabel::Value)), "2");
}

#[test]
fn test_node_eq_ignores_links() {
    let mut a = Node::new(1, Some(2));
    let b = Node::new(1, Some(2));
    let mut child = Node::new(5, Some(0));
    a.add_child(&mut child);
    assert_eq!(a, b);
    assert_ne!(a, Node::new(1, Some(3)));
    assert_ne!(a, Node::new(2, Some(2)));
    assert_ne!(a, Node::new(1, None));
}

#[test]
fn test_node_remove_child_takes_every_occurrence() {
    let mut parent = Node::new(1, Some(0));
    let mut a = Node::new(2, Some(0));
    let mut b = Node::new(3, Some(0));
    parent.add_child(&mut a);
    parent.add_child(&mut b);
    parent.add_child(&mut a);
    assert_eq!(parent.get_children_ids(), vec![2, 3, 2]);
    parent.remove_child(&mut a);
    assert_eq!(parent.get_children_ids(), vec![3]);
    assert!(a.get_parent_id().is_none());
    assert_eq!(b.get_parent_id(), Some(1));
}

#[test]
fn test_node_set_parent_none() {
    let mut parent = Node::new(1, Some(0));
    let mut child = Node::new(2, Some(0));
    child.set_parent(Some(&mut parent));
    assert_eq!(parent.get_children_ids(), vec![2]);
    child.set_parent(None);
    assert!(child.get_parent_id().is_none());
    assert_eq!(parent.get_children_ids(), vec![2]);
}

#[test]
fn test_node_sort_children() {
    let mut parent = Node::new(1, Some(2));
    for id in [4, 2, 5, 3] {
        let mut child = Node::new(id, Some(0));
        parent.add_child(&mut child);
    }
    parent.sort_children(|a, b| a.cmp(b).reverse());
    assert_eq!(parent.get_children_ids(), vec![5, 4, 3, 2]);
    parent.sort_children(|a, b| a.cmp(b));
    assert_eq!(parent.get_children_ids(), vec![2, 3, 4, 5]);
    assert_eq!(parent.get_node_id(), 1);
    assert_eq!(parent.get_value(), Some(2));
}

#[test]
fn test_node_sort_children_keeps_equal_ones_in_order() {
    let mut parent = Node::new(0, Some(0));
    for id in [21, 10, 22, 11, 12] {
        let mut child = Node::new(id, Some(0));
        parent.add_child(&mut child);
    }
    parent.sort_children(|a, b| (a / 10).cmp(&(b / 10)));
    assert_eq!(parent.get_children_ids(), vec![10, 11, 12, 21, 22]);
    parent.sort_children(|_, _| Ordering::Equal);
    assert_eq!(parent.get_children_ids(), vec![10, 11, 12, 21, 22]);
}

#[test]
fn test_node_label_of_missing_value() {
    let node: Node<i32, i32> = Node::new(7, None);
    assert_eq!(node.to_string(), "7: 0");
    assert_eq!(node.label(NodeLabel::Value), "0");
    let named: Node<&str, String> = Node::new("a", None);
    assert_eq!(named.to_string(), "a: ");
}

#[test]
fn test_node_clone_is_a_copy() {
    let mut node = Node::new(1, Some(2));
    let mut child = Node::new(2, Some(3));
    node.add_child(&mut child);
    let copy = child.clone();
    assert_eq!(copy.get_node_id(), 2);
    assert_eq!(copy.get_value(), Some(3));
    assert_eq!(copy.get_parent_id(), Some(1));
    assert_eq!(node.clone().get_children_ids(), vec![2]);
}

#[test]
fn test_nodes_get_out_of_range() {
    let nodes = Nodes::new(vec![Node::new(1, Some(2))]);
    assert!(nodes.get(1).is_none());
    assert!(nodes.get_by_node_id(&2).is_none());
    let empty: Nodes<i32, i32> = Nodes::default();
    assert!(empty.first().is_none());
}

#[test]
fn test_nodes_get_by_node_id_takes_the_first() {
    let nodes = Nodes::new(vec![
        Node::new(1, Some(2)),
        Node::new(2, Some(3)),
        Node::new(2, Some(4)),
    ]);
    assert_eq!(nodes.get_by_node_id(&2).unwrap().get_value(), Some(3));
}

#[test]
fn test_nodes_retain_keeps_order() {
    let mut nodes = Nodes::new(vec![
        Node::new(1, Some(2)),
        Node::new(2, Some(3)),
        Node::new(3, Some(4)),
        Node::new(4, Some(5)),
    ]);
    nodes.retain(|node| node.get_node_id() % 2 == 1);
    assert_eq!(nodes.len(), 2);
    assert_eq!(nodes.get(0).unwrap().get_node_id(), 1);
    assert_eq!(nodes.get(1).unwrap().get_node_id(), 3);
}

#[test]
fn test_nodes_append_empties_the_other() {
    let mut nodes = Nodes::new(vec![Node::new(1, Some(2))]);
    let mut other = Nodes::new(vec![Node::new(2, Some(3)), Node::new(3, Some(4))]);
    nodes.append(&mut other);
    assert!(other.is_empty());
    assert_eq!(nodes.get(1).unwrap().get_node_id(), 2);
    assert_eq!(nodes.get(2).unwrap().get_node_id(), 3);
}

#[test]
fn test_nodes_next_past_the_end() {
    let mut nodes = Nodes::new(vec![Node::new(1, Some(2))]);
    assert!(nodes.next().is_some());
    assert!(nodes.next().is_none());
    assert!(nodes.next().is_none());
    assert_eq!(nodes.len(), 1);
}

#[test]
fn test_nodes_eq_counts_the_cursor() {
    let mut a = Nodes::new(vec![Node::new(1, Some(2))]);
    let b = Nodes::new(vec![Node::new(1, Some(2))]);
    assert_eq!(a.clone(), b);
    a.next();
    assert_ne!(a, b);
    assert_ne!(b, Nodes::new(vec![Node::new(1, Some(2)), Node::new(2, Some(2))]));
    assert_ne!(b, Nodes::new(vec![Node::new(1, Some(3))]));
}
