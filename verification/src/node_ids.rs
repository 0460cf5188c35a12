use vstd::prelude::*;

verus! {

/// A source of node identifiers.
///
/// Identifiers are handed out in increasing order, so no two identifiers
/// drawn from the same source are equal.
pub struct NodeIdSource {
    next: u64,
}

impl NodeIdSource {
    /// The identifier that the next call of `next_id` hands out.
    pub closed spec fn upcoming(&self) -> u64 {
        self.next
    }

    /// Whether this source has handed out `id`: every identifier below the
    /// upcoming one has been handed out, and no other.
    pub open spec fn has_issued(&self, id: u64) -> bool {
        id < self.upcoming()
    }

    /// Whether every identifier has been handed out.
    pub open spec fn spec_exhausted(&self) -> bool {
        self.upcoming() == u64::MAX
    }

    /// Creates a source that has handed out nothing.
    pub fn new() -> (s: NodeIdSource)
        ensures
            s.upcoming() == 0,
    {
        NodeIdSource { next: 0 }
    }

    /// Returns whether every identifier has been handed out.
    pub fn is_exhausted(&self) -> (r: bool)
        ensures
            r == self.spec_exhausted(),
    {
        self.next == u64::MAX
    }

    /// Hands out the next identifier: one that this source has not handed out before.
    pub fn next_id(&mut self) -> (id: u64)
        requires
            !old(self).spec_exhausted(),
        ensures
            id == old(self).upcoming(),
            !old(self).has_issued(id),
            final(self).upcoming() == id + 1,
            forall|other: u64| #[trigger]
                final(self).has_issued(other) <==> (old(self).has_issued(other) || other == id),
    {
        let id = self.next;
        self.next = id + 1;
        id
    }
}

impl Default for NodeIdSource {
    /// A source that has handed out nothing.
    fn default() -> (s: NodeIdSource)
        ensures
            s.upcoming() == 0,
    {
        NodeIdSource::new()
    }
}

/// An identifier that a source has handed out stays handed out, and no later
/// state of the source hands it out again: each draw only moves the source on.
pub proof fn law_issued_ids_never_repeat(earlier: &NodeIdSource, later: &NodeIdSource, id: u64)
    requires
        earlier.has_issued(id),
        earlier.upcoming() <= later.upcoming(),
    ensures
        later.has_issued(id),
        later.upcoming() != id,
{
}

} // verus!
