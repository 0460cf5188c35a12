use vstd::prelude::*;

verus! {

/// Controls how assistive technology announces changes to a live region.
#[derive(Clone, Copy, Debug, PartialEq, Eq, Structural)]
pub enum LiveSetting {
    /// Changes are not announced automatically.
    Off,
    /// Changes are announced after the current announcement finishes.
    Polite,
    /// Changes are announced immediately.
    Assertive,
}

impl Default for LiveSetting {
    /// Live regions are off unless a node asks for announcements.
    fn default() -> (r: LiveSetting)
        ensures
            r == LiveSetting::Off,
    {
        LiveSetting::Off
    }
}

} // verus!
