use vstd::prelude::*;

verus! {

/// The semantic role of an accessibility node.
#[derive(Clone, Copy, Debug, PartialEq, Eq, Structural)]
pub enum Role {
    /// A top-level application window.
    Window,
    /// A structural container with no more specific role.
    GenericContainer,
    /// A named group of related elements.
    Group,
    /// A control that performs an action when invoked.
    Button,
    /// A control that can be checked or unchecked.
    CheckBox,
    /// A control that combines an editable field or button with a list of choices.
    ComboBox,
    /// Static text that conveys information.
    Label,
    /// A link to another location or resource.
    Link,
    /// An image or graphic.
    Image,
    /// An editable text field.
    TextInput,
    /// A container of selectable items.
    List,
    /// An item in a list.
    ListItem,
    /// A container of commands or options.
    Menu,
    /// A command or option in a menu.
    MenuItem,
    /// An indicator showing the progress of an operation.
    ProgressBar,
    /// One option in a set of mutually exclusive choices.
    RadioButton,
    /// A control for scrolling through content.
    ScrollBar,
    /// A control for selecting a value from a continuous range.
    Slider,
    /// A container of tabs.
    TabList,
    /// A selectable tab in a tab list.
    Tab,
    /// A container of commonly used commands.
    ToolBar,
    /// A hierarchical list of items.
    Tree,
    /// An item in a tree.
    TreeItem,
    /// A visual divider between groups of content.
    Separator,
}

/// The roles whose elements take part in keyboard focus navigation.
pub open spec fn spec_keyboard_focusable(role: Role) -> bool {
    match role {
        Role::Window | Role::Button | Role::CheckBox | Role::ComboBox | Role::Link
        | Role::TextInput | Role::ListItem | Role::MenuItem | Role::RadioButton
        | Role::ScrollBar | Role::Slider | Role::Tab | Role::TreeItem => true,
        _ => false,
    }
}

impl Role {
    /// Returns whether an element with this role can receive keyboard focus.
    pub fn is_keyboard_focusable(self) -> (r: bool)
        ensures
            r == spec_keyboard_focusable(self),
    {
        match self {
            Role::Window | Role::Button | Role::CheckBox | Role::ComboBox | Role::Link
            | Role::TextInput | Role::ListItem | Role::MenuItem | Role::RadioButton
            | Role::ScrollBar | Role::Slider | Role::Tab | Role::TreeItem => true,
            _ => false,
        }
    }
}

/// Whether an element with `role` is exposed as content to assistive
/// technology: every role but the generic container is.
pub fn is_content_element(role: Role) -> (r: bool)
    ensures
        r == (role != Role::GenericContainer),
{
    match role {
        Role::GenericContainer => false,
        _ => true,
    }
}

impl Default for Role {
    /// A freshly created node is a generic container.
    fn default() -> (r: Role)
        ensures
            r == Role::GenericContainer,
    {
        Role::GenericContainer
    }
}

} // verus!
