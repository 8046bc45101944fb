//! Typed source segments distinguish object keys from array indices.

use vstd::prelude::*;

verus! {

/// One step below a property's stored value: a literal object key (which may
/// itself contain dots) or an array index.
#[derive(Debug)]
pub enum SourceSegment {
    /// Object key, kept literal.
    Key(String),
    /// Array or collection index.
    Index(usize),
}

impl Clone for SourceSegment {
    fn clone(&self) -> (copy: Self)
        ensures
            copy == *self,
    {
        match self {
            SourceSegment::Key(key) => SourceSegment::Key(key.clone()),
            SourceSegment::Index(index) => SourceSegment::Index(*index),
        }
    }
}

} // verus!
