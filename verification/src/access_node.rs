use smol_str::SmolStr;
use vstd::prelude::*;

use crate::access_key::AccessKey;
use crate::access_rect::AccessRect;
use crate::access_window::AccessNodeContext;
use crate::key_list::{key_list_items, key_list_len_limit, key_list_new, key_list_push, KeyList};
use crate::live_setting::LiveSetting;
use crate::node_ids::NodeIdSource;
use crate::roles::Role;
use crate::selection_data::{SelectionData, SelectionView};
use crate::text::{SupportedTextSelection, TextData};
use crate::text_store::{smol_as_str, smol_clone, smol_empty, smol_new, smol_text};

verus! {

/// A node in an accessibility tree.
pub struct AccessNode<U: AccessNodeContext> {
    parent: Option<AccessKey>,
    children: KeyList,
    /// A unique id for this node.
    id: u64,
    bounding_rect: AccessRect,
    checked: bool,
    enabled: bool,
    live_setting: LiveSetting,
    name: SmolStr,
    role: Role,
    value: String,
    text_selection: SupportedTextSelection,
    text_data: Option<Box<TextData>>,
    context: Option<U>,
    selection_data: Option<SelectionData>,
}

/// What a node holds.
pub struct NodeView<U> {
    /// The node's parent within its tree, if it has one.
    pub parent: Option<AccessKey>,
    /// The node's children within its tree, in order.
    pub children: Seq<AccessKey>,
    /// The node's unique id.
    pub id: u64,
    pub bounding_rect: AccessRect,
    pub checked: bool,
    pub enabled: bool,
    pub live_setting: LiveSetting,
    pub name: Seq<char>,
    pub role: Role,
    pub value: Seq<char>,
    pub text_selection: SupportedTextSelection,
    /// Whether the node holds extra text state.
    pub has_text_data: bool,
    pub context: Option<U>,
    pub selection: Option<SelectionView>,
}

/// The accessibility properties of a node that `AccessNode::new` creates with `id`:
/// enabled, unchecked, unnamed, a generic container with no value, no live
/// region, no text selection, no context, and not yet linked into a tree.
pub open spec fn fresh_node_view<U>(id: u64) -> NodeView<U> {
    NodeView {
        parent: None,
        children: Seq::empty(),
        id,
        bounding_rect: AccessRect { x: 0, y: 0, width: 0, height: 0 },
        checked: false,
        enabled: true,
        live_setting: LiveSetting::Off,
        name: Seq::empty(),
        role: Role::GenericContainer,
        value: Seq::empty(),
        text_selection: SupportedTextSelection::NoSelection,
        has_text_data: false,
        context: None,
        selection: None,
    }
}

impl<U: AccessNodeContext> View for AccessNode<U> {
    type V = NodeView<U>;

    closed spec fn view(&self) -> NodeView<U> {
        NodeView {
            parent: self.parent,
            children: key_list_items(self.children),
            id: self.id,
            bounding_rect: self.bounding_rect,
            checked: self.checked,
            enabled: self.enabled,
            live_setting: self.live_setting,
            name: smol_text(self.name),
            role: self.role,
            value: self.value@,
            text_selection: self.text_selection,
            has_text_data: self.text_data is Some,
            context: self.context,
            selection: match self.selection_data {
                Some(data) => Some(data@),
                None => None,
            },
        }
    }
}

impl<U: AccessNodeContext> AccessNode<U> {
    /// Creates a node with default accessibility properties and the next id of `ids`.
    pub fn new(ids: &mut NodeIdSource) -> (node: AccessNode<U>)
        requires
            !old(ids).spec_exhausted(),
        ensures
            node@ == fresh_node_view::<U>(old(ids).upcoming()),
            !old(ids).has_issued(node@.id),
            final(ids).upcoming() == old(ids).upcoming() + 1,
    {
        let id = ids.next_id();
        AccessNode {
            parent: None,
            children: key_list_new(),
            id,
            bounding_rect: AccessRect::default(),
            checked: false,
            enabled: true,
            live_setting: LiveSetting::Off,
            name: smol_empty(),
            role: Role::GenericContainer,
            value: String::new(),
            text_selection: SupportedTextSelection::NoSelection,
            text_data: None,
            context: None,
            selection_data: None,
        }
    }

    /// Copies this node's accessibility properties into a new node with the
    /// next id of `ids`. The copy is not linked into any tree and holds no
    /// extra text state; its context is a clone of this node's context.
    pub fn duplicate(&self, ids: &mut NodeIdSource) -> (copy: AccessNode<U>)
        requires
            !old(ids).spec_exhausted(),
        ensures
            copy@.id == old(ids).upcoming(),
            !old(ids).has_issued(copy@.id),
            final(ids).upcoming() == old(ids).upcoming() + 1,
            copy@.parent is None,
            copy@.children == Seq::<AccessKey>::empty(),
            !copy@.has_text_data,
            copy@.bounding_rect == self@.bounding_rect,
            copy@.checked == self@.checked,
            copy@.enabled == self@.enabled,
            copy@.live_setting == self@.live_setting,
            copy@.name == self@.name,
            copy@.role == self@.role,
            copy@.value == self@.value,
            copy@.text_selection == self@.text_selection,
            copy@.selection == self@.selection,
            copy@.context is Some <==> self@.context is Some,
            copy@.context is Some ==> cloned(self@.context->0, copy@.context->0),
    {
        let id = ids.next_id();
        let context = match &self.context {
            Some(context) => Some(context.clone()),
            None => None,
        };
        let selection_data = match &self.selection_data {
            Some(data) => Some(data.clone()),
            None => None,
        };
        AccessNode {
            parent: None,
            children: key_list_new(),
            id,
            bounding_rect: self.bounding_rect,
            checked: self.checked,
            enabled: self.enabled,
            live_setting: self.live_setting,
            name: smol_clone(&self.name),
            role: self.role,
            value: self.value.clone(),
            text_selection: self.text_selection,
            text_data: None,
            context,
            selection_data,
        }
    }

    /// Returns the unique id of this node.
    pub fn id(&self) -> (id: u64)
        ensures
            id == self@.id,
    {
        self.id
    }

    /// Returns the node's bounding rectangle relative to its root window's client area.
    pub fn bounding_rect(&self) -> (rect: AccessRect)
        ensures
            rect == self@.bounding_rect,
    {
        self.bounding_rect
    }

    /// Sets the node's bounding rectangle relative to its root window's client area.
    pub fn set_bounding_rect(&mut self, bounding_rect: AccessRect)
        ensures
            final(self)@ == (NodeView { bounding_rect, ..old(self)@ }),
    {
        self.bounding_rect = bounding_rect;
    }

    /// Returns whether this node represents a checked toggle control.
    pub fn checked(&self) -> (checked: bool)
        ensures
            checked == self@.checked,
    {
        self.checked
    }

    /// Sets whether this node represents a checked toggle control.
    pub fn set_checked(&mut self, checked: bool)
        ensures
            final(self)@ == (NodeView { checked, ..old(self)@ }),
    {
        self.checked = checked;
    }

    /// Returns whether this node is enabled for user interaction.
    pub fn enabled(&self) -> (enabled: bool)
        ensures
            enabled == self@.enabled,
    {
        self.enabled
    }

    /// Sets whether this node is enabled for user interaction.
    pub fn set_enabled(&mut self, enabled: bool)
        ensures
            final(self)@ == (NodeView { enabled, ..old(self)@ }),
    {
        self.enabled = enabled;
    }

    /// Returns the accessible name of this node.
    pub fn name(&self) -> (name: &str)
        ensures
            name@ == self@.name,
    {
        smol_as_str(&self.name)
    }

    /// Sets the accessible name of this node.
    pub fn set_name(&mut self, name: &str)
        ensures
            final(self)@ == (NodeView { name: name@, ..old(self)@ }),
    {
        self.name = smol_new(name);
    }

    /// Replaces the accessible name of this node and returns the previous one.
    pub(crate) fn replace_name(&mut self, name: SmolStr) -> (previous: SmolStr)
        ensures
            final(self)@ == (NodeView { name: smol_text(name), ..old(self)@ }),
            smol_text(previous) == old(self)@.name,
    {
        let mut previous = name;
        core::mem::swap(&mut self.name, &mut previous);
        previous
    }

    /// Returns how changes to this live region should be announced.
    pub fn live_setting(&self) -> (live_setting: LiveSetting)
        ensures
            live_setting == self@.live_setting,
    {
        self.live_setting
    }

    /// Sets how changes to this live region should be announced.
    pub fn set_live_setting(&mut self, live_setting: LiveSetting)
        ensures
            final(self)@ == (NodeView { live_setting, ..old(self)@ }),
    {
        self.live_setting = live_setting;
    }

    /// Returns the semantic role of this node.
    pub fn role(&self) -> (role: Role)
        ensures
            role == self@.role,
    {
        self.role
    }

    /// Sets the semantic role of this node.
    pub fn set_role(&mut self, role: Role)
        ensures
            final(self)@ == (NodeView { role, ..old(self)@ }),
    {
        self.role = role;
    }

    /// Returns the current value represented by this node.
    pub fn value(&self) -> (value: &str)
        ensures
            value@ == self@.value,
    {
        self.value.as_str()
    }

    /// Sets the current value represented by this node.
    pub fn set_value(&mut self, value: &str)
        ensures
            final(self)@ == (NodeView { value: value@, ..old(self)@ }),
    {
        self.value = value.to_owned();
    }

    /// Replaces the value of this node and returns the previous one.
    pub(crate) fn replace_value(&mut self, value: String) -> (previous: String)
        ensures
            final(self)@ == (NodeView { value: value@, ..old(self)@ }),
            previous@ == old(self)@.value,
    {
        let mut previous = value;
        core::mem::swap(&mut self.value, &mut previous);
        previous
    }

    /// Sets the supported text selection mode.
    pub fn set_text_supported_text_selection(&mut self, text_selection_support: SupportedTextSelection)
        ensures
            final(self)@ == (NodeView { text_selection: text_selection_support, ..old(self)@ }),
    {
        self.text_selection = text_selection_support;
    }

    /// Returns the supported text selection of this node.
    pub fn supports_text_selection(&self) -> (selection: SupportedTextSelection)
        ensures
            selection == self@.text_selection,
    {
        self.text_selection
    }

    /// Sets the node context. This is likely some id or pointer to your UI tree.
    pub fn set_context(&mut self, context: U)
        ensures
            final(self)@ == (NodeView { context: Some(context), ..old(self)@ }),
    {
        self.context = Some(context);
    }

    /// Gets the node context.
    pub fn context(&self) -> (context: Option<&U>)
        ensures
            match context {
                Some(c) => self@.context == Some(*c),
                None => self@.context is None,
            },
    {
        match &self.context {
            Some(c) => Some(c),
            None => None,
        }
    }

    /// The node's parent link.
    pub(crate) fn parent_key(&self) -> (parent: Option<AccessKey>)
        ensures
            parent == self@.parent,
    {
        self.parent
    }

    /// Sets the node's parent link.
    pub(crate) fn set_parent(&mut self, parent: Option<AccessKey>)
        ensures
            final(self)@ == (NodeView { parent, ..old(self)@ }),
    {
        self.parent = parent;
    }

    /// The node's list of children.
    pub(crate) fn child_list(&self) -> (list: &KeyList)
        ensures
            key_list_items(*list) == self@.children,
    {
        &self.children
    }

    /// Replaces the node's list of children and returns the previous list.
    pub(crate) fn replace_children(&mut self, children: KeyList) -> (previous: KeyList)
        ensures
            final(self)@ == (NodeView { children: key_list_items(children), ..old(self)@ }),
            key_list_items(previous) == old(self)@.children,
    {
        let mut previous = children;
        core::mem::swap(&mut self.children, &mut previous);
        previous
    }

    /// Appends `key` to the node's list of children.
    pub(crate) fn push_child(&mut self, key: AccessKey)
        requires
            old(self)@.children.len() < key_list_len_limit(),
        ensures
            final(self)@ == (NodeView { children: old(self)@.children.push(key), ..old(self)@ }),
    {
        key_list_push(&mut self.children, key);
    }

    /// Sets the node's id.
    pub(crate) fn set_id(&mut self, id: u64)
        ensures
            final(self)@ == (NodeView { id, ..old(self)@ }),
    {
        self.id = id;
    }
}

} // verus!
