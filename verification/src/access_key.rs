use vstd::prelude::*;

verus! {

/// The key of a node in an accessibility tree.
///
/// A key is the `slotmap` key that the tree allocated for the node, held as
/// the 64-bit pattern that `slotmap::KeyData::as_ffi` gives for it. A key
/// that the tree hands out is held by no node of the tree at that moment.
#[derive(Clone, Copy, Debug, PartialEq, Eq, Hash, Structural)]
pub struct AccessKey {
    /// The key's `as_ffi` bit pattern.
    pub bits: u64,
}

} // verus!
