use vstd::prelude::*;

verus! {

#[verifier::external_type_specification]
#[verifier::external_body]
pub struct ExInstant(std::time::Instant);

/// Relies on std::time::Instant::now to read the monotonic clock; nothing is
/// assumed of the value it returns.
pub assume_specification[ std::time::Instant::now ]() -> std::time::Instant;

/// What one top-level search did: how many positions it looked at, and when
/// it started. It is for reporting only and never steers the search.
pub struct Stat {
    pub nodes_viewed: u32,
    pub start: std::time::Instant,
}

impl Stat {
    pub fn new() -> (r: Stat)
        ensures
            r.nodes_viewed == 0,
    {
        Stat { nodes_viewed: 0, start: std::time::Instant::now() }
    }

    /// Counts one more position, wrapping around past `u32::MAX`.
    pub fn count_node(&mut self)
        ensures
            final(self).nodes_viewed == (if old(self).nodes_viewed == u32::MAX {
                0
            } else {
                old(self).nodes_viewed + 1
            }),
            final(self).start == old(self).start,
    {
        if self.nodes_viewed == u32::MAX {
            self.nodes_viewed = 0;
        } else {
            self.nodes_viewed = self.nodes_viewed + 1;
        }
    }
}

} // verus!
