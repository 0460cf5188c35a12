use vstd::prelude::*;

use crate::access_key::AccessKey;

verus! {

/// Errors encountered by the accessibility tree.
pub enum IsshoError {
    /// The node no longer exists.
    MissingAccessNode(AccessKey),
}

} // verus!
