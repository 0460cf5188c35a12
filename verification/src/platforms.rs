//! Accessibility platforms that need no native integration.
use vstd::prelude::*;

verus! {

/// A platform that exposes nothing to assistive technology; the tree uses it
/// until a native platform is installed.
#[derive(Copy, Clone, Default)]
pub struct BlankPlatform;

impl BlankPlatform {
    /// Creates the platform.
    pub fn new() -> (platform: BlankPlatform)
        ensures
            platform == BlankPlatform,
    {
        BlankPlatform
    }
}

} // verus!
