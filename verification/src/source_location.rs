//! Source property and nested location of a prepared value.

use vstd::prelude::*;

use crate::source_segment::SourceSegment;
use crate::text::chars_of;
use crate::text::compare_chars;
use crate::text::TextOrder;

verus! {

/// Where a prepared value is stored: the index of its property in the source
/// table, and the path of segments below that property's value.
#[derive(Debug)]
pub struct SourceLocation {
    /// Index of the contributing property.
    pub property_index: usize,
    /// Segments below the property's stored value.
    pub segments: Vec<SourceSegment>,
}

impl Clone for SourceLocation {
    fn clone(&self) -> (copy: Self)
        ensures
            copy.property_index == self.property_index,
            copy.segments@ == self.segments@,
    {
        let segments = self.segments.clone();
        assert(segments@ =~= self.segments@);
        SourceLocation { property_index: self.property_index, segments }
    }
}

impl SourceLocation {
    /// The location one segment below this one.
    pub fn child(&self, segment: SourceSegment) -> (location: Self)
        ensures
            location.property_index == self.property_index,
            location.segments@ == self.segments@.push(segment),
    {
        let mut result = self.clone();
        result.segments.push(segment);
        result
    }
}

/// A segment by value.
pub enum SegmentView {
    /// An object key.
    Key(Seq<char>),
    /// An array index.
    Index(usize),
}

/// The value of a segment.
pub open spec fn segment_view(segment: SourceSegment) -> SegmentView {
    match segment {
        SourceSegment::Key(key) => SegmentView::Key(key@),
        SourceSegment::Index(index) => SegmentView::Index(index),
    }
}

/// The values of some segments.
pub open spec fn segments_view(segments: Seq<SourceSegment>) -> Seq<SegmentView> {
    segments.map_values(|segment: SourceSegment| segment_view(segment))
}

/// Two locations name the same place.
pub open spec fn same_place(a: SourceLocation, b: SourceLocation) -> bool {
    a.property_index == b.property_index && segments_view(a.segments@) == segments_view(b.segments@)
}

/// Whether two segments are equal.
pub fn same_segment(a: &SourceSegment, b: &SourceSegment) -> (same: bool)
    ensures
        same == (segment_view(*a) == segment_view(*b)),
{
    match (a, b) {
        (SourceSegment::Key(x), SourceSegment::Key(y)) => {
            let x_chars = chars_of(x.as_str());
            let y_chars = chars_of(y.as_str());
            match compare_chars(&x_chars, &y_chars) {
                TextOrder::Same => true,
                _ => false,
            }
        },
        (SourceSegment::Index(x), SourceSegment::Index(y)) => *x == *y,
        _ => false,
    }
}

/// Whether two locations name the same place.
pub fn same_location(a: &SourceLocation, b: &SourceLocation) -> (same: bool)
    ensures
        same == same_place(*a, *b),
{
    if a.property_index != b.property_index || a.segments.len() != b.segments.len() {
        proof {
            if same_place(*a, *b) {
                assert(segments_view(a.segments@).len() == a.segments@.len());
            }
        }
        return false;
    }
    let mut i: usize = 0;
    while i < a.segments.len()
        invariant
            i <= a.segments@.len() == b.segments@.len(),
            forall|k: int| 0 <= k < i ==> segment_view(#[trigger] a.segments@[k]) == segment_view(b.segments@[k]),
        decreases a.segments@.len() - i,
    {
        if !same_segment(&a.segments[i], &b.segments[i]) {
            proof {
                if segments_view(a.segments@) == segments_view(b.segments@) {
                    assert(segments_view(a.segments@)[i as int] == segments_view(b.segments@)[i as int]);
                }
            }
            return false;
        }
        i = i + 1;
    }
    assert(segments_view(a.segments@) =~= segments_view(b.segments@));
    true
}

/// Replacement text stored for a place: the first overlay naming it.
pub open spec fn overlay_at(overlays: Seq<(SourceLocation, String)>, location: SourceLocation) -> Option<Seq<char>>
    decreases overlays.len(),
{
    if overlays.len() == 0 {
        None
    } else if same_place(overlays[0].0, location) {
        Some(overlays[0].1@)
    } else {
        overlay_at(overlays.drop_first(), location)
    }
}

/// Looks up the replacement text stored for a place.
pub fn overlay_text<'b>(overlays: &'b Vec<(SourceLocation, String)>, location: &SourceLocation) -> (text: Option<&'b String>)
    ensures
        match text {
            Some(t) => overlay_at(overlays@, *location) == Some(t@),
            None => overlay_at(overlays@, *location) is None,
        },
{
    let mut i: usize = 0;
    assert(overlays@.skip(0) =~= overlays@);
    while i < overlays.len()
        invariant
            i <= overlays@.len(),
            overlay_at(overlays@, *location) == overlay_at(overlays@.skip(i as int), *location),
        decreases overlays@.len() - i,
    {
        proof {
            assert(overlays@.skip(i as int).drop_first() =~= overlays@.skip(i + 1));
            assert(overlays@.skip(i as int)[0] == overlays@[i as int]);
        }
        if same_location(&overlays[i].0, location) {
            return Some(&overlays[i].1);
        }
        i = i + 1;
    }
    None
}

/// Index of the first array segment of a location, if any: the position of
/// the source item that a nested value belongs to.
pub open spec fn first_index(segments: Seq<SourceSegment>) -> Option<usize>
    decreases segments.len(),
{
    if segments.len() == 0 {
        None
    } else {
        match segments[0] {
            SourceSegment::Index(index) => Some(index),
            SourceSegment::Key(_) => first_index(segments.drop_first()),
        }
    }
}

/// Source item index recorded in a location: its first index segment.
pub fn source_index(location: Option<&SourceLocation>) -> (index: Option<usize>)
    ensures
        index == match location {
            Some(location) => first_index(location.segments@),
            None => None,
        },
{
    let found = match location {
        Some(found) => found,
        None => return None,
    };
    assert(location == Some(found));
    let mut i: usize = 0;
    assert(found.segments@.skip(0) =~= found.segments@);
    while i < found.segments.len()
        invariant
            i <= found.segments@.len(),
            location == Some(found),
            first_index(found.segments@) == first_index(found.segments@.skip(i as int)),
        decreases found.segments@.len() - i,
    {
        proof {
            let rest = found.segments@.skip(i as int);
            assert(rest.drop_first() =~= found.segments@.skip(i + 1));
            assert(rest[0] == found.segments@[i as int]);
        }
        match &found.segments[i] {
            SourceSegment::Index(index) => {
                return Some(*index);
            },
            SourceSegment::Key(_) => {},
        }
        i = i + 1;
    }
    None
}

} // verus!
