use vstd::prelude::*;

verus! {

/// The kind of text selection that a text element supports.
#[derive(Clone, Copy, Debug, PartialEq, Eq, Hash, Structural)]
pub enum SupportedTextSelection {
    /// The element's text cannot be selected.
    NoSelection,
    /// One contiguous range of text can be selected.
    Single,
    /// Several disjoint ranges of text can be selected.
    Multiple,
}

impl Default for SupportedTextSelection {
    /// Text is not selectable unless a node says otherwise.
    fn default() -> (r: SupportedTextSelection)
        ensures
            r == SupportedTextSelection::NoSelection,
    {
        SupportedTextSelection::NoSelection
    }
}

/// Extra text state of a text element; it carries no data yet.
pub struct TextData {}

} // verus!
