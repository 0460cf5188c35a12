use issho::access_key::AccessKey;
use issho::access_node::AccessNode;
use issho::access_property::{AccessProperty, PropertyChange, PropertyValue};
use issho::access_rect::AccessRect;
use issho::access_tree::AccessTree;
use issho::live_setting::LiveSetting;
use issho::node_ids::NodeIdSource;
use issho::roles::Role;

#[derive(Clone, Debug, PartialEq)]
struct TestWindow;

fn rect(x: f64, y: f64, width: f64, height: f64) -> AccessRect {
    AccessRect::from_bits(x.to_bits(), y.to_bits(), width.to_bits(), height.to_bits())
}

/// Whether the point `(x, y)` lies inside a rectangle: the left and top edges
/// are inclusive, the right and bottom edges exclusive, and empty rectangles
/// hold no point.
fn point(x: f64, y: f64) -> impl Fn(AccessRect) -> bool {
    move |r: AccessRect| {
        let (rx, ry, w, h) = (
            f64::from_bits(r.x),
            f64::from_bits(r.y),
            f64::from_bits(r.width),
            f64::from_bits(r.height),
        );
        w > 0.0 && h > 0.0 && x >= rx && x < rx + w && y >= ry && y < ry + h
    }
}

fn count_property(changes: &[Option<PropertyChange>], property: AccessProperty) -> usize {
    changes
        .iter()
        .filter(|change| matches!(change, Some(c) if c.property == property))
        .count()
}

#[test]
fn framework_name_can_be_updated() {
    let mut tree = AccessTree::<TestWindow, ()>::new();

    assert_eq!(tree.framework_name(), "");

    tree.set_framework_name("Qt");

    assert_eq!(tree.framework_name(), "Qt");
}

#[test]
fn node_semantics_can_be_initialized_and_updated() {
    let mut ids = NodeIdSource::new();
    let mut tree = AccessTree::<TestWindow, ()>::new();
    let mut node = AccessNode::new(&mut ids);
    node.set_name("Initial");
    node.set_role(Role::Button);
    node.set_enabled(false);
    let node = tree.insert_node(node, None);

    assert_eq!(tree.get_node(node).unwrap().name(), "Initial");
    assert_eq!(tree.get_node(node).unwrap().role(), Role::Button);
    assert!(!tree.get_node(node).unwrap().enabled());

    tree.get_node_mut(node).unwrap().set_name("Updated");
    tree.get_node_mut(node).unwrap().set_enabled(true);

    assert_eq!(tree.get_node(node).unwrap().name(), "Updated");
    assert!(tree.get_node(node).unwrap().enabled());
}

#[test]
fn focus_is_retained_per_root() {
    let mut ids = NodeIdSource::new();
    let mut tree = AccessTree::<TestWindow, ()>::new();
    let first_root = tree.insert_node(AccessNode::new(&mut ids), None);
    let first_child = tree.insert_node(AccessNode::new(&mut ids), Some(first_root));
    let second_root = tree.insert_node(AccessNode::new(&mut ids), None);
    let second_child = tree.insert_node(AccessNode::new(&mut ids), Some(second_root));

    tree.set_focus(first_root, Some(first_child));
    tree.set_focus(second_root, Some(second_child));

    assert_eq!(tree.get_focus(first_root), Some(first_child));
    assert_eq!(tree.get_focus(second_root), Some(second_child));

    tree.set_focus(first_root, None);

    assert_eq!(tree.get_focus(first_root), None);
    assert_eq!(tree.get_focus(second_root), Some(second_child));
}

#[test]
fn focus_notification_is_forwarded_to_the_platform() {
    let mut ids = NodeIdSource::new();
    let mut tree = AccessTree::<TestWindow, ()>::new();
    let root = tree.insert_node(AccessNode::new(&mut ids), None);
    let child = tree.insert_node(AccessNode::new(&mut ids), Some(root));

    let mut event_count = 0;
    let mut last_focused = None;
    for _ in 0..2 {
        if let Some(focused) = tree.set_focus(root, Some(child)) {
            event_count += 1;
            last_focused = Some(focused);
        }
    }

    assert_eq!(event_count, 1);
    assert_eq!(last_focused, Some(child));
}

#[test]
fn changed_name_notifies_the_platform_once() {
    let mut ids = NodeIdSource::new();
    let mut tree = AccessTree::<TestWindow, ()>::new();
    let mut node = AccessNode::new(&mut ids);
    node.set_name("0");
    node.set_live_setting(LiveSetting::Assertive);
    let node = tree.insert_node(node, None);

    let changes = [tree.set_name(node, "1"), tree.set_name(node, "1")];

    assert_eq!(tree.get_node(node).unwrap().name(), "1");
    assert_eq!(tree.get_node(node).unwrap().live_setting(), LiveSetting::Assertive);
    assert_eq!(count_property(&changes, AccessProperty::Name), 1);
}

#[test]
fn value_can_be_initialized_and_updated() {
    let mut ids = NodeIdSource::new();
    let mut tree = AccessTree::<TestWindow, ()>::new();
    let mut node = AccessNode::new(&mut ids);
    node.set_value("Initial");
    let node = tree.insert_node(node, None);

    assert_eq!(tree.get_node(node).unwrap().value(), "Initial");

    tree.get_node_mut(node).unwrap().set_value("Updated");

    assert_eq!(tree.get_node(node).unwrap().value(), "Updated");
}

#[test]
fn changed_value_notifies_the_platform_once() {
    let mut ids = NodeIdSource::new();
    let mut tree = AccessTree::<TestWindow, ()>::new();
    let node = tree.insert_node(AccessNode::new(&mut ids), None);

    let changes = [tree.set_value(node, "1"), tree.set_value(node, "1")];

    assert_eq!(tree.get_node(node).unwrap().value(), "1");
    assert_eq!(count_property(&changes, AccessProperty::Value), 1);
}

#[test]
fn bounding_rect_can_be_initialized_and_updated() {
    let mut ids = NodeIdSource::new();
    let mut tree = AccessTree::<TestWindow, ()>::new();
    let initial = rect(10.0, 20.0, 100.0, 50.0);
    let mut node = AccessNode::new(&mut ids);
    node.set_bounding_rect(initial);
    let node = tree.insert_node(node, None);

    assert_eq!(tree.get_node(node).unwrap().bounding_rect(), initial);

    let updated = rect(30.0, 40.0, 200.0, 75.0);
    tree.get_node_mut(node).unwrap().set_bounding_rect(updated);

    assert_eq!(tree.get_node(node).unwrap().bounding_rect(), updated);
}

#[test]
fn point_lookup_returns_the_topmost_deepest_node() {
    let mut ids = NodeIdSource::new();
    let mut tree = AccessTree::<TestWindow, ()>::new();
    let mut root = AccessNode::new(&mut ids);
    root.set_bounding_rect(rect(0.0, 0.0, 100.0, 100.0));
    let root = tree.insert_node(root, None);

    let mut lower_child = AccessNode::new(&mut ids);
    lower_child.set_bounding_rect(rect(10.0, 10.0, 50.0, 50.0));
    let _lower_child = tree.insert_node(lower_child, Some(root));

    let mut upper_child = AccessNode::new(&mut ids);
    upper_child.set_bounding_rect(rect(10.0, 10.0, 50.0, 50.0));
    let upper_child = tree.insert_node(upper_child, Some(root));

    let mut grandchild = AccessNode::new(&mut ids);
    grandchild.set_bounding_rect(rect(20.0, 20.0, 10.0, 10.0));
    let grandchild = tree.insert_node(grandchild, Some(upper_child));

    assert_eq!(tree.element_from_point(root, point(5.0, 5.0)), Some(root));
    assert_eq!(tree.element_from_point(root, point(15.0, 15.0)), Some(upper_child));
    assert_eq!(tree.element_from_point(root, point(25.0, 25.0)), Some(grandchild));
    assert_eq!(tree.element_from_point(root, point(100.0, 100.0)), None);
}

#[test]
fn update_node_preserves_identity_and_children() {
    let mut ids = NodeIdSource::new();
    let mut tree = AccessTree::<TestWindow, ()>::new();
    let mut root = AccessNode::new(&mut ids);
    root.set_name("before");
    let root = tree.insert_node(root, None);
    let child = tree.insert_node(AccessNode::new(&mut ids), Some(root));
    let id = tree.get_node(root).unwrap().id();

    let mut replacement = AccessNode::new(&mut ids);
    replacement.set_name("after");
    replacement.set_role(Role::Group);
    tree.update_node(root, replacement);

    assert_eq!(tree.get_node(root).unwrap().name(), "after");
    assert_eq!(tree.get_node(root).unwrap().role(), Role::Group);
    assert_eq!(tree.get_node(root).unwrap().id(), id);
    assert_eq!(tree.get_first_child(root), Some(child));
    assert_eq!(tree.get_parent(child), Some(root));
}

#[test]
fn set_children_reorders_and_removes_omitted_subtrees() {
    let mut ids = NodeIdSource::new();
    let mut tree = AccessTree::<TestWindow, ()>::new();
    let root = tree.insert_node(AccessNode::new(&mut ids), None);
    let first = tree.insert_node(AccessNode::new(&mut ids), Some(root));
    let grandchild = tree.insert_node(AccessNode::new(&mut ids), Some(first));
    let second = tree.insert_node(AccessNode::new(&mut ids), Some(root));

    tree.set_children(root, &[second]);

    assert_eq!(tree.get_first_child(root), Some(second));
    assert!(!tree.contains_node(first));
    assert!(!tree.contains_node(grandchild));
}

#[test]
fn unnamed_parent_derives_name_from_retained_contents() {
    let mut ids = NodeIdSource::new();
    let mut tree = AccessTree::<TestWindow, ()>::new();
    let parent = tree.insert_node(AccessNode::new(&mut ids), None);
    let mut child = AccessNode::new(&mut ids);
    child.set_name("Open");
    let child = tree.insert_node(child, Some(parent));

    assert_eq!(tree.accessible_name(parent).as_deref(), Some("Open"));

    tree.set_name(child, "Close");

    assert_eq!(tree.accessible_name(parent).as_deref(), Some("Close"));
}

#[test]
fn detached_node_keeps_identity_when_reparented() {
    let mut ids = NodeIdSource::new();
    let mut tree = AccessTree::<TestWindow, ()>::new();
    let first_parent = tree.insert_node(AccessNode::new(&mut ids), None);
    let second_parent = tree.insert_node(AccessNode::new(&mut ids), None);
    let child = tree.insert_node(AccessNode::new(&mut ids), Some(first_parent));
    let grandchild = tree.insert_node(AccessNode::new(&mut ids), Some(child));
    let id = tree.get_node(child).unwrap().id();

    tree.detach_node(child);

    assert_eq!(tree.get_parent(child), None);
    assert_eq!(tree.get_parent(grandchild), Some(child));

    tree.append_child(second_parent, child);

    assert_eq!(tree.get_parent(child), Some(second_parent));
    assert_eq!(tree.get_node(child).unwrap().id(), id);
    assert_eq!(tree.get_parent(grandchild), Some(child));
}

#[test]
fn property_changes_carry_old_and_new_values() {
    let mut ids = NodeIdSource::new();
    let mut tree = AccessTree::<TestWindow, ()>::new();
    let node = tree.insert_node(AccessNode::new(&mut ids), None);

    let change = tree.set_checked(node, true).unwrap();
    assert_eq!(change.node, node);
    assert_eq!(change.property, AccessProperty::Checked);
    assert!(matches!(change.old_value, PropertyValue::Bool(false)));
    assert!(matches!(change.new_value, PropertyValue::Bool(true)));
    assert!(tree.set_checked(node, true).is_none());

    let change = tree.set_name(node, "Ok").unwrap();
    assert!(matches!(&change.old_value, PropertyValue::Text(text) if text.is_empty()));
    assert!(matches!(&change.new_value, PropertyValue::Text(text) if text == "Ok"));
}

#[test]
fn update_node_reports_each_changed_property() {
    let mut ids = NodeIdSource::new();
    let mut tree = AccessTree::<TestWindow, ()>::new();
    let mut node = AccessNode::new(&mut ids);
    node.set_name("a");
    node.set_value("1");
    let node = tree.insert_node(node, None);

    let mut replacement = AccessNode::new(&mut ids);
    replacement.set_name("b");
    replacement.set_value("1");
    replacement.set_checked(true);
    let changes = tree.update_node(node, replacement);

    let properties: Vec<AccessProperty> = changes.iter().map(|c| c.property).collect();
    assert_eq!(properties, vec![AccessProperty::Checked, AccessProperty::Name]);
    assert!(tree.get_node(node).unwrap().checked());
}

#[test]
fn siblings_link_both_ways() {
    let mut ids = NodeIdSource::new();
    let mut tree = AccessTree::<TestWindow, ()>::new();
    let root = tree.insert_node(AccessNode::new(&mut ids), None);
    let a = tree.insert_node(AccessNode::new(&mut ids), Some(root));
    let b = tree.insert_node(AccessNode::new(&mut ids), Some(root));
    let c = tree.insert_node(AccessNode::new(&mut ids), Some(root));

    assert_eq!(tree.get_first_child(root), Some(a));
    assert_eq!(tree.get_last_child(root), Some(c));
    assert_eq!(tree.get_next_sibling(a), Some(b));
    assert_eq!(tree.get_previous_sibling(b), Some(a));
    assert_eq!(tree.get_next_sibling(b), Some(c));
    assert_eq!(tree.get_previous_sibling(c), Some(b));
    assert_eq!(tree.get_previous_sibling(a), None);
    assert_eq!(tree.get_next_sibling(c), None);
    assert_eq!(tree.get_next_sibling(root), None);
    assert_eq!(tree.get_first_child(a), None);
}

#[test]
fn node_root_and_focus_follow_the_tree() {
    let mut ids = NodeIdSource::new();
    let mut tree = AccessTree::<TestWindow, ()>::new();
    let root = tree.insert_node(AccessNode::new(&mut ids), None);
    let child = tree.insert_node(AccessNode::new(&mut ids), Some(root));
    let leaf = tree.insert_node(AccessNode::new(&mut ids), Some(child));

    assert_eq!(tree.get_node_root(leaf), Some(root));
    assert_eq!(tree.get_node_root(root), Some(root));
    assert!(!tree.is_focused(leaf));

    tree.set_focus(root, Some(leaf));
    assert!(tree.is_focused(leaf));
    assert!(!tree.is_focused(child));

    assert_eq!(tree.set_focus(root, None), None);
    assert!(!tree.is_focused(leaf));
}

#[test]
fn removal_takes_the_subtree_and_its_focus() {
    let mut ids = NodeIdSource::new();
    let mut tree = AccessTree::<TestWindow, ()>::new();
    let root = tree.insert_node(AccessNode::new(&mut ids), None);
    let child = tree.insert_node(AccessNode::new(&mut ids), Some(root));
    let leaf = tree.insert_node(AccessNode::new(&mut ids), Some(child));
    let sibling = tree.insert_node(AccessNode::new(&mut ids), Some(root));
    tree.set_focus(root, Some(leaf));

    tree.remove_node(child);

    assert!(!tree.contains_node(child));
    assert!(!tree.contains_node(leaf));
    assert_eq!(tree.get_first_child(root), Some(sibling));
    assert_eq!(tree.get_focus(root), None);

    tree.remove_node(child);
    assert!(tree.contains_node(sibling));
}

#[test]
fn detaching_the_focused_subtree_clears_the_focus() {
    let mut ids = NodeIdSource::new();
    let mut tree = AccessTree::<TestWindow, ()>::new();
    let root = tree.insert_node(AccessNode::new(&mut ids), None);
    let child = tree.insert_node(AccessNode::new(&mut ids), Some(root));
    let other = tree.insert_node(AccessNode::new(&mut ids), Some(root));

    tree.set_focus(root, Some(other));
    tree.detach_node(child);
    assert_eq!(tree.get_focus(root), Some(other));
    assert_eq!(tree.get_parent(child), None);
    assert_eq!(tree.get_root_window(child), None);

    tree.set_focus(root, Some(root));
    tree.detach_node(other);
    assert_eq!(tree.get_focus(root), Some(root));

    let leaf = tree.insert_node(AccessNode::new(&mut ids), Some(child));
    tree.append_child(root, child);
    tree.set_focus(root, Some(leaf));
    tree.detach_node(child);
    assert_eq!(tree.get_focus(root), None);
    assert_eq!(tree.get_node_root(leaf), Some(child));
}

#[test]
fn appending_moves_a_child_between_parents() {
    let mut ids = NodeIdSource::new();
    let mut tree = AccessTree::<TestWindow, ()>::new();
    let first = tree.insert_node(AccessNode::new(&mut ids), None);
    let second = tree.insert_node(AccessNode::new(&mut ids), None);
    let child = tree.insert_node(AccessNode::new(&mut ids), None);
    tree.set_focus(child, Some(child));

    tree.append_child(first, child);
    assert_eq!(tree.get_focus(child), None);
    assert_eq!(tree.get_first_child(first), Some(child));

    tree.append_child(second, child);
    tree.append_child(second, child);

    assert_eq!(tree.get_first_child(first), None);
    assert_eq!(tree.get_first_child(second), Some(child));
    assert_eq!(tree.get_last_child(second), Some(child));
    assert_eq!(tree.get_parent(child), Some(second));
}

#[test]
fn windows_are_kept_per_root() {
    let mut ids = NodeIdSource::new();
    let mut tree = AccessTree::<TestWindow, ()>::new();
    let root = tree.insert_node(AccessNode::new(&mut ids), None);
    let other = tree.insert_node(AccessNode::new(&mut ids), None);

    assert_eq!(tree.get_root_window(root), None);
    tree.set_root_window(root, TestWindow);
    assert_eq!(tree.get_root_window(root), Some(TestWindow));
    assert_eq!(tree.get_root_window(other), None);

    assert_eq!(tree.find_window_root(|window: &TestWindow| *window == TestWindow), Some(root));
    assert_eq!(tree.find_window_root(|_: &TestWindow| false), None);
}

#[test]
fn keys_stay_distinct_after_removal() {
    let mut ids = NodeIdSource::new();
    let mut tree = AccessTree::<TestWindow, ()>::new();
    let first = tree.insert_node(AccessNode::new(&mut ids), None);
    tree.remove_node(first);
    let second = tree.insert_node(AccessNode::new(&mut ids), None);

    assert_ne!(first, second);
    assert!(!tree.contains_node(first));
    assert!(tree.contains_node(second));
    assert_eq!(tree.get_node(first).map(|n| n.id()), None);
}

#[test]
fn accessible_name_searches_descendants_in_order() {
    let mut ids = NodeIdSource::new();
    let mut tree = AccessTree::<TestWindow, ()>::new();
    let root = tree.insert_node(AccessNode::new(&mut ids), None);
    let empty = tree.insert_node(AccessNode::new(&mut ids), Some(root));
    let deep = tree.insert_node(AccessNode::new(&mut ids), Some(empty));
    let named = tree.insert_node(AccessNode::new(&mut ids), Some(root));
    tree.set_name(named, "Later");

    assert_eq!(tree.accessible_name(root).as_deref(), Some("Later"));
    tree.set_name(deep, "Deep");
    assert_eq!(tree.accessible_name(root).as_deref(), Some("Deep"));
    tree.set_name(root, "Own");
    assert_eq!(tree.accessible_name(root).as_deref(), Some("Own"));
    assert_eq!(tree.accessible_name(named).as_deref(), Some("Later"));

    let lonely = tree.insert_node(AccessNode::new(&mut ids), None);
    assert_eq!(tree.accessible_name(lonely).as_deref(), Some(""));
    tree.remove_node(lonely);
    assert_eq!(tree.accessible_name(lonely), None);
}

#[test]
fn unknown_nodes_have_no_links() {
    let mut ids = NodeIdSource::new();
    let mut tree = AccessTree::<TestWindow, ()>::new();
    let node = tree.insert_node(AccessNode::new(&mut ids), None);
    tree.remove_node(node);

    assert_eq!(tree.get_parent(node), None);
    assert_eq!(tree.get_node_root(node), None);
    assert_eq!(tree.get_first_child(node), None);
    assert_eq!(tree.get_last_child(node), None);
    assert!(!tree.is_focused(node));
    assert!(tree.get_node_mut(node).is_none());
    assert_eq!(tree.element_from_point(node, point(0.0, 0.0)), None);
}

#[test]
fn keys_are_copied_by_value() {
    let key = AccessKey { bits: 7 };
    let copy = key;
    assert_eq!(key, copy);
}

#[test]
fn focus_does_not_follow_a_subtree_into_another_root() {
    let mut ids = NodeIdSource::new();
    let mut tree = AccessTree::<TestWindow, ()>::new();
    let first = tree.insert_node(AccessNode::new(&mut ids), None);
    let second = tree.insert_node(AccessNode::new(&mut ids), None);
    let child = tree.insert_node(AccessNode::new(&mut ids), Some(first));
    let leaf = tree.insert_node(AccessNode::new(&mut ids), Some(child));
    let sibling = tree.insert_node(AccessNode::new(&mut ids), Some(first));

    tree.set_focus(first, Some(leaf));
    tree.append_child(sibling, child);
    assert_eq!(tree.get_focus(first), Some(leaf));

    tree.append_child(second, child);
    assert_eq!(tree.get_focus(first), None);
    assert_eq!(tree.get_node_root(leaf), Some(second));
    assert!(!tree.is_focused(leaf));
}

#[test]
fn counts_follow_the_tree() {
    let mut ids = NodeIdSource::new();
    let mut tree = AccessTree::<TestWindow, ()>::new();
    assert_eq!(tree.node_count(), 0);
    let root = tree.insert_node(AccessNode::new(&mut ids), None);
    let child = tree.insert_node(AccessNode::new(&mut ids), Some(root));
    tree.insert_node(AccessNode::new(&mut ids), Some(root));

    assert_eq!(tree.node_count(), 3);
    assert_eq!(tree.child_count(root), Some(2));
    assert_eq!(tree.child_count(child), Some(0));
    tree.remove_node(child);
    assert_eq!(tree.node_count(), 2);
    assert_eq!(tree.child_count(child), None);
}

#[test]
fn detaching_a_root_clears_its_focus_and_window() {
    let mut ids = NodeIdSource::new();
    let mut tree = AccessTree::<TestWindow, ()>::new();
    let root = tree.insert_node(AccessNode::new(&mut ids), None);
    let child = tree.insert_node(AccessNode::new(&mut ids), Some(root));
    tree.set_root_window(root, TestWindow);
    tree.set_focus(root, Some(child));

    tree.detach_node(root);

    assert_eq!(tree.get_focus(root), None);
    assert_eq!(tree.get_root_window(root), None);
    assert_eq!(tree.get_parent(child), Some(root));
}
