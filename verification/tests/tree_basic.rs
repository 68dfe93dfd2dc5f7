use tree_ds::prelude::{Node, NodeRemovalStrategy, SubTree, Tree};

#[test]
fn tree_test_tree_new() {
    let tree = Tree::<u32, u32>::new(None);
    assert_eq!(tree.get_nodes().len(), 0);
}

#[test]
fn tree_test_tree_add_node() {
    let mut tree = Tree::new(None);
    let node_id = tree.add_node(Node::new(1, Some(2)), None).unwrap();
    assert_eq!(tree.get_nodes().len(), 1);
    assert_eq!(node_id, 1);
    let node_id_2 = tree.add_node(Node::new(2, Some(3)), Some(&1)).unwrap();
    assert_eq!(tree.get_nodes().len(), 2);
    assert_eq!(node_id_2, 2);
    let node_2 = tree.get_node(2).unwrap();
    assert_eq!(node_2.get_parent_id().unwrap(), 1);
}

#[test]
fn tree_test_tree_get_node() {
    let mut tree = Tree::new(None);
    let node = Node::new(1, Some(2));
    tree.add_node(node.clone(), None).unwrap();
    assert_eq!(tree.get_node(1), Some(node));
    assert_eq!(tree.get_node(2), None);
}

#[test]
fn tree_test_tree_get_nodes() {
    let mut tree = Tree::new(None);
    let node = Node::new(1, Some(2));
    tree.add_node(node.clone(), None).unwrap();
    assert_eq!(tree.get_nodes().len(), 1);
}

#[test]
fn tree_test_tree_remove_node() {
    let mut tree = Tree::new(None);
    let node = Node::new(1, Some(2));
    tree.add_node(node.clone(), None).unwrap();
    let node_2 = Node::new(2, Some(3));
    tree.add_node(node_2.clone(), Some(&1)).unwrap();
    let node_3 = Node::new(3, Some(6));
    tree.add_node(node_3.clone(), Some(&2)).unwrap();
    tree.remove_node(&2, NodeRemovalStrategy::RetainChildren)
        .unwrap();
    assert_eq!(tree.get_nodes().len(), 2);
    let node_4 = Node::new(4, Some(5));
    let node_5 = Node::new(5, Some(12));
    tree.add_node(node_4.clone(), Some(&3)).unwrap();
    tree.add_node(node_5.clone(), Some(&3)).unwrap();
    tree.remove_node(&3, NodeRemovalStrategy::RemoveNodeAndChildren)
        .unwrap();
    assert_eq!(tree.get_nodes().len(), 1);
}

#[test]
fn tree_test_tree_get_subsection() {
    let mut tree = Tree::new(None);
    let node = Node::new(1, Some(2));
    tree.add_node(node.clone(), None).unwrap();
    let node_2 = Node::new(2, Some(3));
    tree.add_node(node_2.clone(), Some(&1)).unwrap();
    let node_3 = Node::new(3, Some(6));
    tree.add_node(node_3.clone(), Some(&2)).unwrap();
    let node_4 = Node::new(4, Some(5));
    tree.add_node(node_4.clone(), Some(&2)).unwrap();
    let node_5 = Node::new(5, Some(6));
    tree.add_node(node_5.clone(), Some(&3)).unwrap();
    let subsection = tree.get_subtree(&2, None).unwrap();
    assert_eq!(subsection.get_nodes().len(), 4);
    let subsection = tree.get_subtree(&2, Some(0)).unwrap();
    assert_eq!(subsection.get_nodes().len(), 1);
    let subsection = tree.get_subtree(&2, Some(1)).unwrap();
    assert_eq!(subsection.get_nodes().len(), 3);
}

#[test]
fn tree_test_tree_add_subsection() {
    let mut tree = Tree::new(None);
    let node_id = tree.add_node(Node::new(1, Some(2)), None).unwrap();
    let mut subtree = SubTree::new(None);
    subtree.add_node(Node::new(2, Some(3)), None).unwrap();
    subtree.add_node(Node::new(3, Some(6)), Some(&2)).unwrap();
    tree.add_subtree(&node_id, subtree).unwrap();
    assert_eq!(tree.get_nodes().len(), 3);
}

#[test]
fn tree_test_tree_display() {
    let mut tree = Tree::new(None);
    let node = Node::new(1, Some(2));
    tree.add_node(node.clone(), None).unwrap();
    let node_2 = Node::new(2, Some(3));
    tree.add_node(node_2.clone(), Some(&1)).unwrap();
    let node_3 = Node::new(3, Some(6));
    tree.add_node(node_3.clone(), Some(&2)).unwrap();
    let node_4 = Node::new(4, Some(5));
    tree.add_node(node_4.clone(), Some(&2)).unwrap();
    let node_5 = Node::new(5, Some(6));
    tree.add_node(node_5.clone(), Some(&3)).unwrap();
    let expected_str = "1: 2\n└── 2: 3\n    ├── 3: 6\n    │   └── 5: 6\n    └── 4: 5\n";
    assert_eq!(tree.to_string(), expected_str);
}

#[test]
fn tree_compare_tree() {
    let mut tree = Tree::new(None);
    let node = Node::new(1, Some(2));
    tree.add_node(node.clone(), None).unwrap();
    let node_2 = Node::new(2, Some(3));
    tree.add_node(node_2.clone(), Some(&1)).unwrap();
    let node_3 = Node::new(3, Some(6));
    tree.add_node(node_3.clone(), Some(&2)).unwrap();
    let node_4 = Node::new(4, Some(5));
    tree.add_node(node_4.clone(), Some(&2)).unwrap();
    let node_5 = Node::new(5, Some(6));
    tree.add_node(node_5.clone(), Some(&3)).unwrap();
    let mut tree_2 = Tree::new(None);
    let node = Node::new(1, Some(2));
    tree_2.add_node(node.clone(), None).unwrap();
    let node_2 = Node::new(2, Some(3));
    tree_2.add_node(node_2.clone(), Some(&1)).unwrap();
    let node_3 = Node::new(3, Some(6));
    tree_2.add_node(node_3.clone(), Some(&2)).unwrap();
    let node_4 = Node::new(4, Some(5));
    tree_2.add_node(node_4.clone(), Some(&2)).unwrap();
    let node_5 = Node::new(5, Some(6));
    tree_2.add_node(node_5.clone(), Some(&3)).unwrap();
    assert_eq!(tree, tree_2);
}
