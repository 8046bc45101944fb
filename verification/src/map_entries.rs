//! The entries of a map-like value, yielded in order with their values.

use vstd::prelude::*;

use crate::read_context::ReadContext;
use crate::read_node::NodeId;
use crate::read_view::ReadView;
use crate::source_location::SourceLocation;
use crate::traversal::child_count;
use crate::traversal::child_origin;
use crate::traversal::child_step;
use crate::traversal::child_view;
use crate::traversal::children_in_arena;
use crate::source_segment::SourceSegment;
use crate::value::JsonValue;
use crate::visit::location_view;

verus! {

/// Remaining entries of an indexed object, a JSON object or a string map.
#[derive(Debug)]
pub enum MapEntries<'a> {
    /// Children of an indexed object.
    Object {
        /// The children, sorted by key.
        children: &'a Vec<(String, NodeId)>,
        /// Number of entries already yielded.
        next: usize,
    },
    /// Entries of a JSON object.
    Json {
        /// The entries.
        entries: &'a Vec<(String, JsonValue)>,
        /// Number of entries already yielded.
        next: usize,
    },
    /// Entries of a string map.
    StringMap {
        /// The entries.
        entries: &'a Vec<(String, String)>,
        /// Number of entries already yielded.
        next: usize,
    },
}

/// Whether a value is map-like.
pub open spec fn is_map(view: ReadView) -> bool {
    match view {
        ReadView::Object(_) | ReadView::StringMap(_) | ReadView::Json(JsonValue::Object(_)) => true,
        _ => false,
    }
}

impl<'a> MapEntries<'a> {
    /// The map-like value whose entries these are.
    pub open spec fn container(&self) -> ReadView<'a> {
        match *self {
            MapEntries::Object { children, .. } => ReadView::Object(children),
            MapEntries::Json { entries, .. } => ReadView::Json(&JsonValue::Object(*entries)),
            MapEntries::StringMap { entries, .. } => ReadView::StringMap(entries),
        }
    }

    /// Number of entries already yielded.
    pub open spec fn position(&self) -> nat {
        match *self {
            MapEntries::Object { next, .. } => next as nat,
            MapEntries::Json { next, .. } => next as nat,
            MapEntries::StringMap { next, .. } => next as nat,
        }
    }

    /// The entries of a map-like value, from the first.
    pub fn new(value: ReadView<'a>) -> (entries: Option<Self>)
        ensures
            match entries {
                Some(entries) => is_map(value) && entries.container() == value && entries.position() == 0,
                None => !is_map(value),
            },
    {
        match value {
            ReadView::Object(children) => Some(MapEntries::Object { children, next: 0 }),
            ReadView::StringMap(entries) => Some(MapEntries::StringMap { entries, next: 0 }),
            ReadView::Json(JsonValue::Object(entries)) => Some(MapEntries::Json { entries, next: 0 }),
            _ => None,
        }
    }

    /// Number of entries not yet yielded.
    pub fn len(&self) -> (count: usize)
        requires
            self.position() <= child_count(self.container()),
        ensures
            count == child_count(self.container()) - self.position(),
    {
        match self {
            MapEntries::Object { children, next } => children.len() - *next,
            MapEntries::Json { entries, next } => entries.len() - *next,
            MapEntries::StringMap { entries, next } => entries.len() - *next,
        }
    }

    /// Yields the next entry: its key, its value, and, for an indexed
    /// object child, its stored location when the read needs locations or
    /// the value is missing.
    pub fn next(&mut self, context: ReadContext<'a>) -> (entry: Option<(&'a str, ReadView<'a>, Option<SourceLocation>)>)
        requires
            children_in_arena(context.prepared, old(self).container()),
        ensures
            final(self).container() == old(self).container(),
            match entry {
                Some((key, value, origin)) => {
                    let k = old(self).position() as int;
                    &&& k < child_count(old(self).container())
                    &&& final(self).position() == k + 1
                    &&& child_step(old(self).container(), k) matches SourceSegment::Key(name) && key@ == name@
                    &&& value == child_view(context.prepared, old(self).container(), k)
                    &&& location_view(origin) == if context.prepared.overlays@.len() > 0 || value is Missing {
                        location_view(child_origin(context.prepared, old(self).container(), k))
                    } else {
                        None
                    }
                },
                None => old(self).position() >= child_count(old(self).container()) && final(self).position()
                    == old(self).position(),
            },
    {
        match self {
            MapEntries::Object { children, next } => {
                let index = *next;
                if index >= children.len() {
                    return None;
                }
                let entry = &children[index];
                let id: NodeId = entry.1;
                let value = ReadView::from_node(&context.prepared.nodes[id]);
                let keep = context.needs_locations() || match value {
                    ReadView::Missing(_) => true,
                    _ => false,
                };
                let origin = if keep {
                    match context.prepared.sources.origin(id) {
                        Some(origin) => Some(origin.clone()),
                        None => None,
                    }
                } else {
                    None
                };
                *next = index + 1;
                Some((entry.0.as_str(), value, origin))
            },
            MapEntries::Json { entries, next } => {
                let index = *next;
                if index >= entries.len() {
                    return None;
                }
                let entry = &entries[index];
                *next = index + 1;
                Some((entry.0.as_str(), ReadView::Json(&entry.1), None))
            },
            MapEntries::StringMap { entries, next } => {
                let index = *next;
                if index >= entries.len() {
                    return None;
                }
                let entry = &entries[index];
                *next = index + 1;
                Some((entry.0.as_str(), ReadView::Text(&entry.1), None))
            },
        }
    }
}

} // verus!
