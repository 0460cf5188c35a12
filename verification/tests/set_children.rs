use issho::access_node::AccessNode;
use issho::access_tree::AccessTree;
use issho::node_ids::NodeIdSource;

#[derive(Clone)]
struct TestWindow;

#[test]
fn set_children_keeps_retained_children_in_the_new_order() {
    let mut ids = NodeIdSource::new();
    let mut tree = AccessTree::<TestWindow, ()>::new();
    let root = tree.insert_node(AccessNode::new(&mut ids), None);
    let a = tree.insert_node(AccessNode::new(&mut ids), Some(root));
    let b = tree.insert_node(AccessNode::new(&mut ids), Some(root));
    let c = tree.insert_node(AccessNode::new(&mut ids), Some(root));
    let b_leaf = tree.insert_node(AccessNode::new(&mut ids), Some(b));
    let id = tree.get_node(b).unwrap().id();

    tree.set_children(root, &[c, b]);

    assert_eq!(tree.get_first_child(root), Some(c));
    assert_eq!(tree.get_next_sibling(c), Some(b));
    assert_eq!(tree.get_last_child(root), Some(b));
    assert!(!tree.contains_node(a));
    assert_eq!(tree.get_parent(b_leaf), Some(b));
    assert_eq!(tree.get_node(b).unwrap().id(), id);
}

#[test]
fn set_children_adopts_nodes_from_elsewhere() {
    let mut ids = NodeIdSource::new();
    let mut tree = AccessTree::<TestWindow, ()>::new();
    let root = tree.insert_node(AccessNode::new(&mut ids), None);
    let other_root = tree.insert_node(AccessNode::new(&mut ids), None);
    let elsewhere = tree.insert_node(AccessNode::new(&mut ids), Some(other_root));
    let stray_root = tree.insert_node(AccessNode::new(&mut ids), None);
    tree.set_focus(stray_root, Some(stray_root));

    tree.set_children(root, &[elsewhere, stray_root]);

    assert_eq!(tree.get_parent(elsewhere), Some(root));
    assert_eq!(tree.get_parent(stray_root), Some(root));
    assert_eq!(tree.get_first_child(other_root), None);
    assert_eq!(tree.get_focus(stray_root), None);
    assert_eq!(tree.get_node_root(stray_root), Some(root));
    assert_eq!(tree.get_last_child(root), Some(stray_root));
}

#[test]
fn set_children_with_an_empty_list_removes_every_child() {
    let mut ids = NodeIdSource::new();
    let mut tree = AccessTree::<TestWindow, ()>::new();
    let root = tree.insert_node(AccessNode::new(&mut ids), None);
    let a = tree.insert_node(AccessNode::new(&mut ids), Some(root));
    let a_leaf = tree.insert_node(AccessNode::new(&mut ids), Some(a));
    tree.set_focus(root, Some(a_leaf));

    tree.set_children(root, &[]);

    assert_eq!(tree.get_first_child(root), None);
    assert!(!tree.contains_node(a));
    assert!(!tree.contains_node(a_leaf));
    assert_eq!(tree.get_focus(root), None);
}

#[test]
fn set_children_keeps_a_listed_child_twice() {
    let mut ids = NodeIdSource::new();
    let mut tree = AccessTree::<TestWindow, ()>::new();
    let root = tree.insert_node(AccessNode::new(&mut ids), None);
    let a = tree.insert_node(AccessNode::new(&mut ids), None);

    tree.set_children(root, &[a, a]);

    assert_eq!(tree.get_first_child(root), Some(a));
    assert_eq!(tree.get_last_child(root), Some(a));
    assert_eq!(tree.get_next_sibling(a), Some(a));
    assert_eq!(tree.get_parent(a), Some(root));
}

#[test]
fn can_set_children_tells_which_lists_are_allowed() {
    let mut ids = NodeIdSource::new();
    let mut tree = AccessTree::<TestWindow, ()>::new();
    let root = tree.insert_node(AccessNode::new(&mut ids), None);
    let a = tree.insert_node(AccessNode::new(&mut ids), Some(root));
    let a_leaf = tree.insert_node(AccessNode::new(&mut ids), Some(a));
    let b = tree.insert_node(AccessNode::new(&mut ids), Some(root));
    let gone = tree.insert_node(AccessNode::new(&mut ids), None);
    tree.remove_node(gone);

    assert!(tree.can_set_children(root, &[b, a]));
    assert!(tree.can_set_children(root, &[a_leaf, a]));
    assert!(tree.can_set_children(a, &[b]));
    assert!(tree.can_set_children(root, &[a_leaf]));
    assert!(!tree.can_set_children(a, &[root]));
    assert!(!tree.can_set_children(a_leaf, &[a]));
    assert!(!tree.can_set_children(a, &[a]));
    assert!(!tree.can_set_children(root, &[gone]));
    assert!(!tree.can_set_children(gone, &[]));
}

#[test]
fn subtree_membership_follows_parent_links() {
    let mut ids = NodeIdSource::new();
    let mut tree = AccessTree::<TestWindow, ()>::new();
    let root = tree.insert_node(AccessNode::new(&mut ids), None);
    let a = tree.insert_node(AccessNode::new(&mut ids), Some(root));
    let a_leaf = tree.insert_node(AccessNode::new(&mut ids), Some(a));
    let b = tree.insert_node(AccessNode::new(&mut ids), Some(root));

    assert!(tree.is_in_subtree(root, a_leaf));
    assert!(tree.is_in_subtree(a, a_leaf));
    assert!(tree.is_in_subtree(a, a));
    assert!(!tree.is_in_subtree(b, a_leaf));
    assert!(!tree.is_in_subtree(a_leaf, a));
}

#[test]
fn set_children_drops_a_focus_that_leaves_its_root() {
    let mut ids = NodeIdSource::new();
    let mut tree = AccessTree::<TestWindow, ()>::new();
    let root = tree.insert_node(AccessNode::new(&mut ids), None);
    let other = tree.insert_node(AccessNode::new(&mut ids), None);
    let branch = tree.insert_node(AccessNode::new(&mut ids), Some(other));
    let leaf = tree.insert_node(AccessNode::new(&mut ids), Some(branch));
    tree.set_focus(other, Some(leaf));

    tree.set_children(root, &[branch]);

    assert_eq!(tree.get_focus(other), None);
    assert_eq!(tree.get_node_root(leaf), Some(root));
}

#[test]
fn set_children_adopts_a_node_from_an_omitted_subtree() {
    let mut ids = NodeIdSource::new();
    let mut tree = AccessTree::<TestWindow, ()>::new();
    let r = tree.insert_node(AccessNode::new(&mut ids), None);
    let a = tree.insert_node(AccessNode::new(&mut ids), Some(r));
    let g = tree.insert_node(AccessNode::new(&mut ids), Some(a));
    let g_leaf = tree.insert_node(AccessNode::new(&mut ids), Some(g));
    let a_other = tree.insert_node(AccessNode::new(&mut ids), Some(a));

    tree.set_children(r, &[g]);

    assert_eq!(tree.get_first_child(r), Some(g));
    assert_eq!(tree.get_last_child(r), Some(g));
    assert_eq!(tree.get_parent(g), Some(r));
    assert!(tree.contains_node(g));
    assert_eq!(tree.get_parent(g_leaf), Some(g));
    assert!(!tree.contains_node(a));
    assert!(!tree.contains_node(a_other));
}
