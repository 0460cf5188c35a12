use vstd::prelude::*;

use crate::access_key::AccessKey;
use crate::key_list::{key_list_clone, key_list_items, key_list_new, KeyList};

verus! {

/// Selection state of a container of selectable items.
pub struct SelectionData {
    /// Whether at least one item must stay selected.
    pub is_mandatory: bool,
    /// Whether several items can be selected at once.
    pub multiple_selectable: bool,
    /// The selected items, in order.
    pub selected_children: KeyList,
}

/// What a `SelectionData` holds.
pub struct SelectionView {
    pub is_mandatory: bool,
    pub multiple_selectable: bool,
    pub selected_children: Seq<AccessKey>,
}

impl View for SelectionData {
    type V = SelectionView;

    open spec fn view(&self) -> SelectionView {
        SelectionView {
            is_mandatory: self.is_mandatory,
            multiple_selectable: self.multiple_selectable,
            selected_children: key_list_items(self.selected_children),
        }
    }
}

impl Default for SelectionData {
    /// Nothing selected, nothing mandatory, one item at a time.
    fn default() -> (r: SelectionData)
        ensures
            r@ == (SelectionView {
                is_mandatory: false,
                multiple_selectable: false,
                selected_children: Seq::empty(),
            }),
    {
        SelectionData {
            is_mandatory: false,
            multiple_selectable: false,
            selected_children: key_list_new(),
        }
    }
}

impl Clone for SelectionData {
    /// A copy holding the same flags and the same selected items in the same order.
    fn clone(&self) -> (r: SelectionData)
        ensures
            r@ == self@,
    {
        let copy = key_list_clone(&self.selected_children);
        SelectionData {
            is_mandatory: self.is_mandatory,
            multiple_selectable: self.multiple_selectable,
            selected_children: copy,
        }
    }
}

} // verus!
