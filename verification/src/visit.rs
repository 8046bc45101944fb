//! One traversal item with its path, depth, and original source index.

use vstd::prelude::*;

use crate::read_view::ReadView;
use crate::source_location::SourceLocation;
use crate::source_segment::SourceSegment;

verus! {

/// A location by value: property index and segments.
pub type LocationView = (usize, Seq<SourceSegment>);

/// The value of an optional location.
pub open spec fn location_view(location: Option<SourceLocation>) -> Option<LocationView> {
    match location {
        Some(location) => Some((location.property_index, location.segments@)),
        None => None,
    }
}

/// What one visit reports, by value.
pub struct VisitView<'a> {
    /// The visited value.
    pub value: ReadView<'a>,
    /// Where the value is stored, when locations are tracked and known.
    pub location: Option<LocationView>,
    /// Absolute diagnostic path.
    pub path: Seq<char>,
    /// Depth below the read, the root being 1.
    pub depth: usize,
    /// Key of the value in its parent object, if any.
    pub key: Option<Seq<char>>,
    /// Index of the outermost source item that holds the value, if any.
    pub original_index: Option<usize>,
}

/// One value reached by a traversal.
#[derive(Debug)]
pub struct Visit<'a> {
    /// The visited value.
    pub value: ReadView<'a>,
    /// Where the value is stored, when locations are tracked and known.
    pub location: Option<SourceLocation>,
    /// Absolute diagnostic path.
    pub path: String,
    /// Depth below the read, the root being 1.
    pub depth: usize,
    /// Key of the value in its parent object, if any.
    pub key: Option<&'a str>,
    /// Index of the outermost source item that holds the value, if any.
    pub original_index: Option<usize>,
}

impl<'a> View for Visit<'a> {
    type V = VisitView<'a>;

    open spec fn view(&self) -> VisitView<'a> {
        VisitView {
            value: self.value,
            location: location_view(self.location),
            path: self.path@,
            depth: self.depth,
            key: match self.key {
                Some(key) => Some(key@),
                None => None,
            },
            original_index: self.original_index,
        }
    }
}

impl<'a> Visit<'a> {
    /// Index of the outermost source item that holds the value, if any.
    pub fn source_index(&self) -> (index: Option<usize>)
        ensures
            index == self.original_index,
    {
        self.original_index
    }
}

} // verus!
