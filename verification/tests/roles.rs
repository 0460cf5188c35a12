use issho::roles::{is_content_element, Role};

#[test]
fn interactive_roles_are_keyboard_focusable() {
    assert!(Role::Window.is_keyboard_focusable());
    assert!(Role::Button.is_keyboard_focusable());
    assert!(Role::CheckBox.is_keyboard_focusable());
    assert!(Role::RadioButton.is_keyboard_focusable());
    assert!(Role::TextInput.is_keyboard_focusable());
    assert!(!Role::GenericContainer.is_keyboard_focusable());
    assert!(!Role::Label.is_keyboard_focusable());
}

#[test]
fn remaining_roles_follow_the_focusable_list() {
    for role in [
        Role::ComboBox,
        Role::Link,
        Role::ListItem,
        Role::MenuItem,
        Role::ScrollBar,
        Role::Slider,
        Role::Tab,
        Role::TreeItem,
    ] {
        assert!(role.is_keyboard_focusable(), "{:?}", role);
    }
    for role in [
        Role::Group,
        Role::Image,
        Role::List,
        Role::Menu,
        Role::ProgressBar,
        Role::TabList,
        Role::ToolBar,
        Role::Tree,
        Role::Separator,
    ] {
        assert!(!role.is_keyboard_focusable(), "{:?}", role);
    }
}

#[test]
fn only_generic_containers_are_not_content() {
    assert!(!is_content_element(Role::GenericContainer));
    assert!(is_content_element(Role::Button));
    assert!(is_content_element(Role::Label));
    assert!(is_content_element(Role::Window));
}

#[test]
fn default_role_is_a_generic_container() {
    assert_eq!(Role::default(), Role::GenericContainer);
}
