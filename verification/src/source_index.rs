//! Exact reads keep their single source inline; subtrees use indexed tables.

use vstd::prelude::*;

use crate::read_node::NodeId;
use crate::source_location::SourceLocation;
use crate::value::Property;

verus! {

/// Which properties contributed to a prepared read, and where each node is
/// stored.
#[derive(Debug)]
pub enum SourceIndex<'a> {
    /// One exact property is the complete input.
    Exact {
        /// Exact property source.
        property: &'a Property,
        /// Location of the exact property.
        origin: SourceLocation,
    },
    /// Indexed subtree with property and origin tables.
    Tree {
        /// Properties contributing to indexed nodes, in registration order.
        properties: Vec<&'a Property>,
        /// Optional source location of each indexed node.
        origins: Vec<Option<SourceLocation>>,
    },
}

impl<'a> SourceIndex<'a> {
    /// Location of node `id`, if it is known.
    pub open spec fn origin_at(&self, id: int) -> Option<SourceLocation> {
        match self {
            SourceIndex::Exact { origin, .. } => if id == 0 { Some(*origin) } else { None },
            SourceIndex::Tree { origins, .. } => if 0 <= id < origins@.len() { origins@[id] } else { None },
        }
    }

    /// Property number `index`, if registered.
    pub open spec fn property_at(&self, index: int) -> Option<&'a Property> {
        match self {
            SourceIndex::Exact { property, .. } => if index == 0 { Some(*property) } else { None },
            SourceIndex::Tree { properties, .. } => if 0 <= index < properties@.len() {
                Some(properties@[index])
            } else {
                None
            },
        }
    }

    /// Number of registered properties.
    pub open spec fn property_count(&self) -> nat {
        match self {
            SourceIndex::Exact { .. } => 1,
            SourceIndex::Tree { properties, .. } => properties@.len(),
        }
    }

    /// Creates an empty subtree index.
    pub fn tree() -> (index: Self)
        ensures
            index matches SourceIndex::Tree { properties, origins } && properties@.len() == 0
                && origins@.len() == 0,
    {
        SourceIndex::Tree { properties: Vec::new(), origins: Vec::new() }
    }

    /// Creates an index for one exact property, located at its own value.
    pub fn exact(property: &'a Property) -> (index: Self)
        ensures
            index matches SourceIndex::Exact { property: p, origin } && p == property
                && origin.property_index == 0 && origin.segments@.len() == 0,
    {
        SourceIndex::Exact { property, origin: SourceLocation { property_index: 0, segments: Vec::new() } }
    }

    /// Whether this index holds one exact property.
    pub fn is_exact(&self) -> (exact: bool)
        ensures
            exact == (self is Exact),
    {
        match self {
            SourceIndex::Exact { .. } => true,
            SourceIndex::Tree { .. } => false,
        }
    }

    /// Location of node `id`, if it is known.
    pub fn origin(&self, id: NodeId) -> (origin: Option<&SourceLocation>)
        ensures
            match origin {
                Some(location) => self.origin_at(id as int) == Some(*location),
                None => self.origin_at(id as int) is None,
            },
    {
        match self {
            SourceIndex::Exact { origin, .. } => if id == 0 { Some(origin) } else { None },
            SourceIndex::Tree { origins, .. } => if id < origins.len() {
                match &origins[id] {
                    Some(location) => Some(location),
                    None => None,
                }
            } else {
                None
            },
        }
    }

    /// Property number `index`, if registered.
    pub fn property(&self, index: usize) -> (property: Option<&'a Property>)
        ensures
            property == self.property_at(index as int),
    {
        match self {
            SourceIndex::Exact { property, .. } => if index == 0 { Some(*property) } else { None },
            SourceIndex::Tree { properties, .. } => if index < properties.len() {
                Some(properties[index])
            } else {
                None
            },
        }
    }

    /// Number of registered properties.
    pub fn len(&self) -> (count: usize)
        ensures
            count == self.property_count(),
    {
        match self {
            SourceIndex::Exact { .. } => 1,
            SourceIndex::Tree { properties, .. } => properties.len(),
        }
    }

    /// Records the location of the next indexed node.
    pub fn push_origin(&mut self, origin: Option<SourceLocation>)
        requires
            *old(self) is Tree,
        ensures
            match (*old(self), *final(self)) {
                (SourceIndex::Tree { properties: p0, origins: o0 }, SourceIndex::Tree { properties: p1, origins: o1 }) =>
                    p1@ == p0@ && o1@ == o0@.push(origin),
                _ => false,
            },
    {
        match self {
            SourceIndex::Tree { origins, .. } => origins.push(origin),
            SourceIndex::Exact { .. } => {},
        }
    }

    /// Registers the next contributing property.
    pub fn push_property(&mut self, property: &'a Property)
        requires
            *old(self) is Tree,
        ensures
            match (*old(self), *final(self)) {
                (SourceIndex::Tree { properties: p0, origins: o0 }, SourceIndex::Tree { properties: p1, origins: o1 }) =>
                    p1@ == p0@.push(property) && o1@ == o0@,
                _ => false,
            },
    {
        match self {
            SourceIndex::Tree { properties, .. } => properties.push(property),
            SourceIndex::Exact { .. } => {},
        }
    }
}

} // verus!
