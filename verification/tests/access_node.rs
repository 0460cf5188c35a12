use issho::access_node::AccessNode;
use issho::access_rect::AccessRect;
use issho::live_setting::LiveSetting;
use issho::node_ids::NodeIdSource;
use issho::roles::Role;
use issho::text::SupportedTextSelection;

#[derive(Clone, Debug, PartialEq)]
struct TestContext;

#[test]
fn nodes_and_clones_have_unique_ids() {
    let mut ids = NodeIdSource::new();
    let first = AccessNode::<TestContext>::new(&mut ids);
    let second = AccessNode::<TestContext>::new(&mut ids);
    let clone = first.duplicate(&mut ids);

    assert_ne!(first.id(), second.id());
    assert_ne!(first.id(), clone.id());
    assert_ne!(second.id(), clone.id());
}

#[test]
fn nodes_are_enabled_by_default() {
    let mut ids = NodeIdSource::new();
    assert!(AccessNode::<()>::new(&mut ids).enabled());
    assert!(AccessNode::<()>::new(&mut NodeIdSource::default()).enabled());
}

#[test]
fn new_node_has_default_properties() {
    let mut ids = NodeIdSource::new();
    let node = AccessNode::<()>::new(&mut ids);
    assert_eq!(node.id(), 0);
    assert_eq!(node.name(), "");
    assert_eq!(node.value(), "");
    assert!(!node.checked());
    assert_eq!(node.role(), Role::GenericContainer);
    assert_eq!(node.live_setting(), LiveSetting::Off);
    assert_eq!(node.supports_text_selection(), SupportedTextSelection::NoSelection);
    assert_eq!(node.bounding_rect(), AccessRect::default());
    assert!(node.context().is_none());
}

#[test]
fn setters_read_back() {
    let mut ids = NodeIdSource::new();
    let mut node = AccessNode::<TestContext>::new(&mut ids);
    node.set_name("Save");
    node.set_value("42");
    node.set_checked(true);
    node.set_enabled(false);
    node.set_role(Role::CheckBox);
    node.set_live_setting(LiveSetting::Polite);
    node.set_text_supported_text_selection(SupportedTextSelection::Multiple);
    let rect = AccessRect::from_bits(1, 2, 3, 4);
    node.set_bounding_rect(rect);
    node.set_context(TestContext);

    assert_eq!(node.name(), "Save");
    assert_eq!(node.value(), "42");
    assert!(node.checked());
    assert!(!node.enabled());
    assert_eq!(node.role(), Role::CheckBox);
    assert_eq!(node.live_setting(), LiveSetting::Polite);
    assert_eq!(node.supports_text_selection(), SupportedTextSelection::Multiple);
    assert_eq!(node.bounding_rect(), rect);
    assert_eq!(node.context(), Some(&TestContext));
}

#[test]
fn duplicate_copies_properties_but_not_identity() {
    let mut ids = NodeIdSource::new();
    let mut node = AccessNode::<TestContext>::new(&mut ids);
    node.set_name("Copy me");
    node.set_role(Role::Link);
    node.set_context(TestContext);
    let copy = node.duplicate(&mut ids);

    assert_eq!(copy.name(), "Copy me");
    assert_eq!(copy.role(), Role::Link);
    assert_eq!(copy.context(), Some(&TestContext));
    assert_eq!(copy.id(), node.id() + 1);
}

#[test]
fn id_source_counts_up() {
    let mut ids = NodeIdSource::new();
    assert_eq!(ids.next_id(), 0);
    assert_eq!(ids.next_id(), 1);
    assert_eq!(ids.next_id(), 2);
    assert!(!ids.is_exhausted());
}
