use vstd::prelude::*;

use crate::access_key::AccessKey;

verus! {

/// A retained accessibility property that can notify a native platform when it changes.
#[derive(Clone, Copy, Debug, PartialEq, Eq, Structural)]
#[non_exhaustive]
pub enum AccessProperty {
    /// The accessible name of a node.
    Name,
    /// The value that a node represents.
    Value,
    /// The checked state of a toggle control.
    Checked,
}

/// A platform-neutral accessibility property value that borrows its text.
#[derive(Clone, Copy, Debug)]
#[non_exhaustive]
pub enum AccessPropertyValue<'a> {
    /// A text value, such as a name or a value.
    Text(&'a str),
    /// A boolean value, such as a checked state.
    Bool(bool),
}

/// A property value that owns its text, as a notification carries it.
#[derive(Debug)]
pub enum PropertyValue {
    /// A text value, such as a name or a value.
    Text(String),
    /// A boolean value, such as a checked state.
    Bool(bool),
}

/// What a property value holds.
pub enum ValueView {
    Text(Seq<char>),
    Bool(bool),
}

impl View for PropertyValue {
    type V = ValueView;

    open spec fn view(&self) -> ValueView {
        match self {
            PropertyValue::Text(text) => ValueView::Text(text@),
            PropertyValue::Bool(value) => ValueView::Bool(*value),
        }
    }
}

/// A change of a retained property of a node, to be reported to the native platform.
#[derive(Debug)]
pub struct PropertyChange {
    /// The node whose property changed.
    pub node: AccessKey,
    /// The property that changed.
    pub property: AccessProperty,
    /// The value before the change.
    pub old_value: PropertyValue,
    /// The value after the change.
    pub new_value: PropertyValue,
}

/// What a property change holds.
pub struct ChangeView {
    pub node: AccessKey,
    pub property: AccessProperty,
    pub old_value: ValueView,
    pub new_value: ValueView,
}

impl View for PropertyChange {
    type V = ChangeView;

    open spec fn view(&self) -> ChangeView {
        ChangeView {
            node: self.node,
            property: self.property,
            old_value: self.old_value@,
            new_value: self.new_value@,
        }
    }
}

impl PropertyValue {
    /// Borrows this value as an `AccessPropertyValue`.
    pub fn as_access_value(&self) -> (r: AccessPropertyValue<'_>)
        ensures
            match (self, r) {
                (PropertyValue::Text(owned), AccessPropertyValue::Text(borrowed)) => borrowed@
                    == owned@,
                (PropertyValue::Bool(a), AccessPropertyValue::Bool(b)) => a == b,
                _ => false,
            },
    {
        match self {
            PropertyValue::Text(text) => AccessPropertyValue::Text(text.as_str()),
            PropertyValue::Bool(value) => AccessPropertyValue::Bool(*value),
        }
    }
}

} // verus!
