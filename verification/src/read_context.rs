//! Borrowed context shared by the values of one read.

use vstd::prelude::*;

use crate::prepared_read::PreparedConfigRead;

verus! {

/// The prepared read that every value under deserialization belongs to.
#[derive(Debug, Clone, Copy)]
pub struct ReadContext<'a> {
    /// The prepared read.
    pub prepared: &'a PreparedConfigRead<'a>,
}

impl<'a> ReadContext<'a> {
    /// Whether values must carry their locations: only when interpolation
    /// replaced some string leaf, whose replacement is found by location.
    pub fn needs_locations(self) -> (needed: bool)
        ensures
            needed == (self.prepared.overlays@.len() > 0),
    {
        self.prepared.overlays.len() > 0
    }
}

} // verus!
