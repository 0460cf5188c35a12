use vstd::prelude::*;

verus! {

/// Data that an application attaches to a node, such as an id or a pointer into its UI tree.
pub trait AccessNodeContext: Clone {}

impl<T: Clone> AccessNodeContext for T {}

} // verus!
