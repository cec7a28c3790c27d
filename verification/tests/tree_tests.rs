use widget_core::tree::{Tree, TreeError};

#[test]
fn first_registered_node_is_the_root() {
    let mut tree = Tree::new();
    assert_eq!(None, tree.root());
    tree.register_node(4);
    tree.register_node(2);
    assert_eq!(Some(4), tree.root());
    assert!(tree.contains(4));
    assert!(tree.contains(2));
    assert!(!tree.contains(3));
}

#[test]
fn append_child_links_in_call_order() {
    let mut tree = Tree::new();
    tree.register_node(0);
    tree.register_node(1);
    tree.register_node(2);
    tree.register_node(3);
    assert_eq!(Ok(()), tree.append_child(0, 2));
    assert_eq!(Ok(()), tree.append_child(0, 1));
    assert_eq!(Ok(()), tree.append_child(0, 3));
    assert_eq!(vec![2, 1, 3], tree.children(0));
    assert_eq!(Some(0), tree.parent(2));
    assert_eq!(Some(0), tree.parent(1));
    assert_eq!(Some(0), tree.parent(3));
    assert_eq!(None, tree.parent(0));
}

#[test]
fn append_child_rejects_a_second_parent() {
    let mut tree = Tree::new();
    tree.register_node(0);
    tree.register_node(1);
    tree.register_node(2);
    assert_eq!(Ok(()), tree.append_child(0, 2));
    assert_eq!(Err(TreeError::AlreadyParented), tree.append_child(1, 2));
    // The failed call changed nothing.
    assert_eq!(Some(0), tree.parent(2));
    assert!(tree.children(1).is_empty());
}

#[test]
fn append_child_rejects_unregistered_endpoints() {
    let mut tree = Tree::new();
    tree.register_node(0);
    assert_eq!(Err(TreeError::UnknownEntity), tree.append_child(0, 9));
    assert_eq!(Err(TreeError::UnknownEntity), tree.append_child(9, 0));
    assert!(tree.children(0).is_empty());
}
