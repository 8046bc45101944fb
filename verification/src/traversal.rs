//! Iterative pre-order traversal of a prepared read: only the ancestors of
//! the current value are kept as frames, so a large array never queues its
//! leaves.

use vstd::prelude::*;

use crate::arena::arena_wf;
use crate::arena::object_children;
use crate::path::child_index;
use crate::path::child_index_spec;
use crate::path::child_key;
use crate::path::child_key_spec;
use crate::prepared_read::PreparedConfigRead;
use crate::read_node::NodeId;
use crate::read_node::ReadNode;
use crate::read_view::node_view;
use crate::read_view::scalar_view;
use crate::read_view::ReadView;
use crate::read_view::view_string;
use crate::source_location::SourceLocation;
use crate::source_segment::SourceSegment;
use crate::value::JsonValue;
use crate::value::ScalarValue;
use crate::visit::location_view;
use crate::visit::LocationView;
use crate::visit::Visit;
use crate::visit::VisitView;

verus! {

/// Size of a JSON document: one per value.
pub open spec fn json_size(value: JsonValue) -> nat
    decreases value, 0nat,
{
    match value {
        JsonValue::Array(items) => 1 + json_items_size(items@),
        JsonValue::Object(entries) => 1 + json_entries_size(entries@),
        _ => 1,
    }
}

/// Total size of some JSON documents.
pub open spec fn json_items_size(items: Seq<JsonValue>) -> nat
    decreases items, 1nat,
{
    if items.len() == 0 {
        0
    } else {
        json_items_size(items.drop_last()) + json_size(items.last())
    }
}

/// Total size of the values of some JSON object entries.
pub open spec fn json_entries_size(entries: Seq<(String, JsonValue)>) -> nat
    decreases entries, 1nat,
{
    if entries.len() == 0 {
        0
    } else {
        json_entries_size(entries.drop_last()) + json_size(entries.last().1)
    }
}

/// Size of a stored scalar as a traversal sees it.
pub open spec fn scalar_size(value: ScalarValue) -> nat {
    match value {
        ScalarValue::Json(json) => json_size(json),
        ScalarValue::StringMap(entries) => entries@.len() + 1,
        _ => 1,
    }
}

/// Total size of some stored scalars.
pub open spec fn scalars_size(items: Seq<ScalarValue>) -> nat
    decreases items.len(),
{
    if items.len() == 0 {
        0
    } else {
        scalars_size(items.drop_last()) + scalar_size(items.last())
    }
}

/// Size of a borrowed value.
pub open spec fn view_size(view: ReadView) -> nat {
    match view {
        ReadView::Json(json) => json_size(*json),
        ReadView::Collection(items) => 1 + scalars_size(items@),
        ReadView::StringMap(entries) => entries@.len() + 1,
        _ => 1,
    }
}

pub proof fn lemma_json_items_size(items: Seq<JsonValue>, k: int)
    requires
        0 <= k < items.len(),
    ensures
        json_size(items[k]) <= json_items_size(items),
    decreases items.len(),
{
    if k < items.len() - 1 {
        assert(items.drop_last()[k] == items[k]);
        lemma_json_items_size(items.drop_last(), k);
    }
}

pub proof fn lemma_json_entries_size(entries: Seq<(String, JsonValue)>, k: int)
    requires
        0 <= k < entries.len(),
    ensures
        json_size(entries[k].1) <= json_entries_size(entries),
    decreases entries.len(),
{
    if k < entries.len() - 1 {
        assert(entries.drop_last()[k] == entries[k]);
        lemma_json_entries_size(entries.drop_last(), k);
    }
}

pub proof fn lemma_scalars_size(items: Seq<ScalarValue>, k: int)
    requires
        0 <= k < items.len(),
    ensures
        scalar_size(items[k]) <= scalars_size(items),
    decreases items.len(),
{
    if k < items.len() - 1 {
        assert(items.drop_last()[k] == items[k]);
        lemma_scalars_size(items.drop_last(), k);
    }
}

/// A place of the logical tree: a node of the arena, or a value borrowed
/// from the payload of a node.
pub enum Place<'a> {
    /// The node with this id.
    Node(NodeId),
    /// A borrowed value below a node.
    Value(ReadView<'a>),
}

/// Path, location, depth and source index that the children of a visited
/// value inherit.
pub struct FrameView {
    /// Path of the parent.
    pub path: Seq<char>,
    /// Location of the parent, when tracked and known.
    pub location: Option<LocationView>,
    /// Depth of the children.
    pub depth: usize,
    /// Source index of the parent.
    pub original_index: Option<usize>,
}

/// The value at a place.
pub open spec fn place_view<'a>(prepared: &'a PreparedConfigRead<'a>, place: Place<'a>) -> ReadView<'a> {
    match place {
        Place::Node(id) => node_view(&prepared.nodes@[id as int]),
        Place::Value(view) => view,
    }
}

/// Whether a value has a child iterator: objects, collections, JSON arrays
/// and objects, and string maps.
pub open spec fn is_container(view: ReadView) -> bool {
    match view {
        ReadView::Object(_) | ReadView::Collection(_) | ReadView::StringMap(_) => true,
        ReadView::Json(JsonValue::Array(_)) | ReadView::Json(JsonValue::Object(_)) => true,
        _ => false,
    }
}

/// Number of children of a value.
pub open spec fn child_count(view: ReadView) -> nat {
    match view {
        ReadView::Object(children) => children@.len(),
        ReadView::Collection(items) => items@.len(),
        ReadView::Json(JsonValue::Array(items)) => items@.len(),
        ReadView::Json(JsonValue::Object(entries)) => entries@.len(),
        ReadView::StringMap(entries) => entries@.len(),
        _ => 0,
    }
}

/// The step from a value to its child number `k`: a key or an index.
pub open spec fn child_step(view: ReadView, k: int) -> SourceSegment {
    match view {
        ReadView::Object(children) => SourceSegment::Key(children@[k].0),
        ReadView::Json(JsonValue::Object(entries)) => SourceSegment::Key(entries@[k].0),
        ReadView::StringMap(entries) => SourceSegment::Key(entries@[k].0),
        _ => SourceSegment::Index(k as usize),
    }
}

/// The value of child number `k`.
pub open spec fn child_view<'a>(prepared: &'a PreparedConfigRead<'a>, view: ReadView<'a>, k: int) -> ReadView<'a> {
    match view {
        ReadView::Object(children) => node_view(&prepared.nodes@[children@[k].1 as int]),
        ReadView::Collection(items) => scalar_view(&items@[k]),
        ReadView::Json(JsonValue::Array(items)) => ReadView::Json(&items@[k]),
        ReadView::Json(JsonValue::Object(entries)) => ReadView::Json(&entries@[k].1),
        ReadView::StringMap(entries) => ReadView::Text(&entries@[k].1),
        _ => view,
    }
}

/// The stored location of child number `k`: only indexed object children
/// have one.
pub open spec fn child_origin<'a>(prepared: &'a PreparedConfigRead<'a>, view: ReadView<'a>, k: int) -> Option<SourceLocation> {
    match view {
        ReadView::Object(children) => prepared.sources.origin_at(children@[k].1 as int),
        _ => None,
    }
}

/// The place of child number `k`.
pub open spec fn child_place<'a>(prepared: &'a PreparedConfigRead<'a>, place: Place<'a>, k: int) -> Place<'a> {
    match place_view(prepared, place) {
        ReadView::Object(children) => Place::Node(children@[k].1),
        view => Place::Value(child_view(prepared, view, k)),
    }
}

/// A place that a traversal can reach: a node of the arena, or a borrowed
/// value that is not an indexed object.
pub open spec fn place_ok<'a>(prepared: &'a PreparedConfigRead<'a>, place: Place<'a>) -> bool {
    match place {
        Place::Node(id) => id < prepared.nodes@.len(),
        Place::Value(view) => view !is Object,
    }
}

/// Height of a place: nodes rank above the values they hold, and parents
/// above their children.
pub open spec fn place_rank<'a>(prepared: &'a PreparedConfigRead<'a>, place: Place<'a>) -> nat {
    match place {
        Place::Node(id) => if id < prepared.nodes@.len() {
            (prepared.nodes@.len() - id + 1) as nat
        } else {
            1
        },
        Place::Value(_) => 0,
    }
}

/// Size of a borrowed place.
pub open spec fn place_size<'a>(place: Place<'a>) -> nat {
    match place {
        Place::Node(_) => 0,
        Place::Value(view) => view_size(view),
    }
}

/// Child number `k` of a reachable place lies below it.
pub open spec fn child_within<'a>(prepared: &'a PreparedConfigRead<'a>, place: Place<'a>, k: int) -> bool {
    match place {
        Place::Node(id) => id < prepared.nodes@.len() && match place_view(prepared, place) {
            ReadView::Object(children) => id < children@[k].1 < prepared.nodes@.len(),
            _ => true,
        },
        Place::Value(view) => view !is Object,
    }
}

/// A child lies strictly lower than its parent.
pub proof fn lemma_child_descends<'a>(prepared: &'a PreparedConfigRead<'a>, place: Place<'a>, k: int)
    requires
        0 <= k < child_count(place_view(prepared, place)),
        child_within(prepared, place, k),
    ensures
        place_rank(prepared, child_place(prepared, place, k)) < place_rank(prepared, place) || (place_rank(
            prepared,
            child_place(prepared, place, k),
        ) == place_rank(prepared, place) && place_size(child_place(prepared, place, k)) < place_size(place)),
{
    match place {
        Place::Node(_) => {},
        Place::Value(view) => {
            match view {
                ReadView::Collection(items) => {
                    lemma_scalars_size(items@, k);
                    assert(view_size(scalar_view(&items@[k])) == scalar_size(items@[k]));
                },
                ReadView::Json(json) => {
                    match *json {
                        JsonValue::Array(items) => lemma_json_items_size(items@, k),
                        JsonValue::Object(entries) => lemma_json_entries_size(entries@, k),
                        _ => {},
                    }
                },
                _ => {},
            }
        },
    }
}

/// What a visited value hands down to its children.
pub open spec fn frame_of(visit: VisitView) -> FrameView {
    FrameView {
        path: visit.path,
        location: visit.location,
        depth: visit.depth.saturating_add(1),
        original_index: visit.original_index,
    }
}

/// The visit of child number `k` of a place below a frame.
pub open spec fn child_visit<'a>(
    prepared: &'a PreparedConfigRead<'a>,
    track: bool,
    place: Place<'a>,
    frame: FrameView,
    k: int,
) -> VisitView<'a> {
    let view = place_view(prepared, place);
    let step = child_step(view, k);
    VisitView {
        value: child_view(prepared, view, k),
        location: if !track {
            None
        } else {
            match child_origin(prepared, view, k) {
                Some(origin) => Some((origin.property_index, origin.segments@)),
                None => match frame.location {
                    Some(location) => Some((location.0, location.1.push(step))),
                    None => None,
                },
            }
        },
        path: match step {
            SourceSegment::Key(key) => child_key_spec(frame.path, key@),
            SourceSegment::Index(index) => child_index_spec(frame.path, index as nat),
        },
        depth: frame.depth,
        key: match step {
            SourceSegment::Key(key) => Some(key@),
            SourceSegment::Index(_) => None,
        },
        original_index: match step {
            SourceSegment::Key(_) => frame.original_index,
            SourceSegment::Index(index) => match frame.original_index {
                Some(outer) => Some(outer),
                None => Some(index),
            },
        },
    }
}

/// The visits of a place and of everything below it, in pre-order: the
/// place itself, then the visits of each child in turn.
pub open spec fn visits_of<'a>(
    prepared: &'a PreparedConfigRead<'a>,
    track: bool,
    place: Place<'a>,
    visit: VisitView<'a>,
) -> Seq<VisitView<'a>>
    decreases place_rank(prepared, place), place_size(place), 1nat, 0nat,
{
    seq![visit] + visits_from(prepared, track, place, frame_of(visit), 0)
}

/// The visits below the children of a place from number `k` on.
pub open spec fn visits_from<'a>(
    prepared: &'a PreparedConfigRead<'a>,
    track: bool,
    place: Place<'a>,
    frame: FrameView,
    k: nat,
) -> Seq<VisitView<'a>>
    decreases place_rank(prepared, place), place_size(place), 0nat, child_count(place_view(prepared, place)) - k,
{
    if k < child_count(place_view(prepared, place)) && child_within(prepared, place, k as int) {
        proof {
            lemma_child_descends(prepared, place, k as int);
        }
        visits_of(prepared, track, child_place(prepared, place, k as int), child_visit(prepared, track, place, frame, k as int))
            + visits_from(prepared, track, place, frame, k + 1)
    } else {
        seq![]
    }
}

/// The visit of the root of a read.
pub open spec fn root_visit<'a>(prepared: &'a PreparedConfigRead<'a>, track: bool) -> VisitView<'a> {
    VisitView {
        value: node_view(&prepared.nodes@[prepared.root as int]),
        location: if track {
            match prepared.sources.origin_at(prepared.root as int) {
                Some(origin) => Some((origin.property_index, origin.segments@)),
                None => None,
            }
        } else {
            None
        },
        path: prepared.root_path@,
        depth: 1,
        key: None,
        original_index: None,
    }
}

/// Every visit of a read, in pre-order from the root.
pub open spec fn all_visits<'a>(prepared: &'a PreparedConfigRead<'a>, track: bool) -> Seq<VisitView<'a>> {
    visits_of(prepared, track, Place::Node(prepared.root), root_visit(prepared, track))
}

/// The children of an indexed object are nodes of the arena.
pub open spec fn children_in_arena<'a>(prepared: &'a PreparedConfigRead<'a>, view: ReadView<'a>) -> bool {
    match view {
        ReadView::Object(children) => forall|k: int|
            0 <= k < children@.len() ==> (#[trigger] children@[k]).1 < prepared.nodes@.len(),
        _ => true,
    }
}

/// The step to a child: a borrowed key or an index.
#[derive(Debug)]
pub enum Segment<'a> {
    /// An object key.
    Key(&'a String),
    /// A collection or array index.
    Index(usize),
}

/// One borrowed child yielded by a child iterator.
#[derive(Debug)]
pub struct Child<'a> {
    /// How the child is reached from its parent.
    pub segment: Segment<'a>,
    /// The child's value.
    pub value: ReadView<'a>,
    /// The child's stored location, for indexed object children.
    pub origin: Option<&'a SourceLocation>,
}

/// The children of one container value, yielded in order.
#[derive(Debug)]
pub struct ChildIter<'a> {
    /// The read whose nodes object children refer to.
    pub prepared: &'a PreparedConfigRead<'a>,
    /// The container.
    pub container: ReadView<'a>,
    /// Number of children already yielded.
    pub next: usize,
}

/// The child iterator of a value, for containers only.
pub fn children<'a>(value: ReadView<'a>, prepared: &'a PreparedConfigRead<'a>) -> (iter: Option<ChildIter<'a>>)
    ensures
        match iter {
            Some(iter) => is_container(value) && iter.prepared == prepared && iter.container == value && iter.next == 0,
            None => !is_container(value),
        },
{
    match value {
        ReadView::Object(_) | ReadView::Collection(_) | ReadView::StringMap(_) => Some(
            ChildIter { prepared, container: value, next: 0 },
        ),
        ReadView::Json(JsonValue::Array(_)) | ReadView::Json(JsonValue::Object(_)) => Some(
            ChildIter { prepared, container: value, next: 0 },
        ),
        _ => None,
    }
}

impl<'a> ChildIter<'a> {
    /// Yields the next child, or nothing once all have been yielded.
    pub fn next(&mut self) -> (child: Option<Child<'a>>)
        requires
            old(self).next <= child_count(old(self).container),
            children_in_arena(old(self).prepared, old(self).container),
        ensures
            final(self).prepared == old(self).prepared,
            final(self).container == old(self).container,
            match child {
                Some(child) => {
                    let k = old(self).next as int;
                    &&& k < child_count(old(self).container)
                    &&& final(self).next == k + 1
                    &&& child.value == child_view(old(self).prepared, old(self).container, k)
                    &&& match child.segment {
                        Segment::Key(key) => child_step(old(self).container, k) == SourceSegment::Key(*key),
                        Segment::Index(index) => child_step(old(self).container, k) == SourceSegment::Index(index),
                    }
                    &&& match child.origin {
                        Some(origin) => child_origin(old(self).prepared, old(self).container, k) == Some(*origin),
                        None => child_origin(old(self).prepared, old(self).container, k) is None,
                    }
                },
                None => old(self).next >= child_count(old(self).container) && final(self).next == old(self).next,
            },
    {
        let index = self.next;
        match self.container {
            ReadView::Object(children) => {
                if index >= children.len() {
                    return None;
                }
                let entry = &children[index];
                let id: NodeId = entry.1;
                self.next = index + 1;
                Some(Child {
                    segment: Segment::Key(&entry.0),
                    value: ReadView::from_node(&self.prepared.nodes[id]),
                    origin: self.prepared.sources.origin(id),
                })
            },
            ReadView::Collection(items) => {
                if index >= items.len() {
                    return None;
                }
                self.next = index + 1;
                Some(Child { segment: Segment::Index(index), value: ReadView::from_scalar(&items[index]), origin: None })
            },
            ReadView::Json(JsonValue::Array(items)) => {
                if index >= items.len() {
                    return None;
                }
                self.next = index + 1;
                Some(Child { segment: Segment::Index(index), value: ReadView::Json(&items[index]), origin: None })
            },
            ReadView::Json(JsonValue::Object(entries)) => {
                if index >= entries.len() {
                    return None;
                }
                let entry = &entries[index];
                self.next = index + 1;
                Some(Child { segment: Segment::Key(&entry.0), value: ReadView::Json(&entry.1), origin: None })
            },
            ReadView::StringMap(entries) => {
                if index >= entries.len() {
                    return None;
                }
                let entry = &entries[index];
                self.next = index + 1;
                Some(Child { segment: Segment::Key(&entry.0), value: ReadView::Text(&entry.1), origin: None })
            },
            _ => None,
        }
    }
}

/// One ancestor of the current value: its child iterator and what its
/// children inherit.
pub struct Frame<'a> {
    /// Remaining children.
    pub children: ChildIter<'a>,
    /// Path of the parent.
    pub path: String,
    /// Location of the parent, when tracked and known.
    pub location: Option<SourceLocation>,
    /// Depth of the children.
    pub depth: usize,
    /// Source index of the parent.
    pub original_index: Option<usize>,
    /// The parent's place.
    pub place: Ghost<Place<'a>>,
}

impl<'a> Frame<'a> {
    /// What the children of this frame inherit.
    pub open spec fn frame_view(&self) -> FrameView {
        FrameView {
            path: self.path@,
            location: location_view(self.location),
            depth: self.depth,
            original_index: self.original_index,
        }
    }
}

/// A frame iterates the children of its own reachable place.
pub open spec fn frame_ok<'a>(prepared: &'a PreparedConfigRead<'a>, frame: Frame<'a>) -> bool {
    &&& place_ok(prepared, frame.place@)
    &&& frame.children.prepared == prepared
    &&& frame.children.container == place_view(prepared, frame.place@)
    &&& frame.children.next <= child_count(frame.children.container)
}

/// The visits that remain below a stack of frames: those of the top frame's
/// remaining children first.
pub open spec fn stack_rest<'a>(prepared: &'a PreparedConfigRead<'a>, track: bool, frames: Seq<Frame<'a>>) -> Seq<
    VisitView<'a>,
>
    decreases frames.len(),
{
    if frames.len() == 0 {
        seq![]
    } else {
        let top = frames.last();
        visits_from(prepared, track, top.place@, top.frame_view(), top.children.next as nat) + stack_rest(
            prepared,
            track,
            frames.drop_last(),
        )
    }
}

/// The children of a reachable place lie within the arena and are
/// reachable places themselves.
proof fn lemma_reachable_children<'a>(prepared: &'a PreparedConfigRead<'a>, place: Place<'a>)
    requires
        arena_wf(prepared.nodes@),
        place_ok(prepared, place),
    ensures
        children_in_arena(prepared, place_view(prepared, place)),
        forall|k: int|
            0 <= k < child_count(place_view(prepared, place)) ==> {
                &&& #[trigger] child_within(prepared, place, k)
                &&& place_ok(prepared, child_place(prepared, place, k))
                &&& place_view(prepared, child_place(prepared, place, k)) == child_view(
                    prepared,
                    place_view(prepared, place),
                    k,
                )
            },
{
    match place {
        Place::Node(id) => {
            let node = prepared.nodes@[id as int];
            match node {
                ReadNode::Object(children) => {
                    assert(object_children(node) == children@);
                    assert forall|k: int| 0 <= k < children@.len() implies (#[trigger] children@[k]).1
                        < prepared.nodes@.len() by {
                        assert(object_children(prepared.nodes@[id as int])[k] == children@[k]);
                    }
                    assert forall|k: int| 0 <= k < children@.len() implies #[trigger] child_within(prepared, place, k) by {
                        assert(object_children(prepared.nodes@[id as int])[k] == children@[k]);
                    }
                },
                ReadNode::Scalar(value) => {
                    match *value {
                        ScalarValue::Json(_) | ScalarValue::StringMap(_) => {},
                        _ => {},
                    }
                },
                _ => {},
            }
        },
        Place::Value(view) => {
            match view {
                ReadView::Collection(items) => {
                    assert forall|k: int| 0 <= k < items@.len() implies place_ok(prepared, child_place(prepared, place, k)) by {
                        match items@[k] {
                            ScalarValue::Json(_) | ScalarValue::StringMap(_) => {},
                            _ => {},
                        }
                    }
                },
                _ => {},
            }
        },
    }
}

/// A copy of an optional location.
fn clone_location(location: &Option<SourceLocation>) -> (copy: Option<SourceLocation>)
    ensures
        location_view(copy) == location_view(*location),
{
    match location {
        Some(location) => Some(location.clone()),
        None => None,
    }
}

/// The visit of a child yielded by the top frame as its child number `k`.
fn visit_child<'a>(track: bool, frame: &Frame<'a>, child: Child<'a>, Ghost(k): Ghost<int>) -> (visit: Visit<'a>)
    requires
        frame.children.container == place_view(frame.children.prepared, frame.place@),
        child.value == child_view(frame.children.prepared, frame.children.container, k),
        match child.segment {
            Segment::Key(key) => child_step(frame.children.container, k) == SourceSegment::Key(*key),
            Segment::Index(index) => child_step(frame.children.container, k) == SourceSegment::Index(index),
        },
        match child.origin {
            Some(origin) => child_origin(frame.children.prepared, frame.children.container, k) == Some(*origin),
            None => child_origin(frame.children.prepared, frame.children.container, k) is None,
        },
    ensures
        visit@ == child_visit(frame.children.prepared, track, frame.place@, frame.frame_view(), k),
{
    let (key, path, segment, original_index): (Option<&'a str>, String, Option<SourceSegment>, Option<usize>) =
        match child.segment {
        Segment::Key(key) => {
            let segment = if track {
                Some(SourceSegment::Key(key.clone()))
            } else {
                None
            };
            (Some(key.as_str()), child_key(frame.path.as_str(), key.as_str()), segment, frame.original_index)
        },
        Segment::Index(index) => {
            let segment = if track {
                Some(SourceSegment::Index(index))
            } else {
                None
            };
            let original_index = match frame.original_index {
                Some(outer) => Some(outer),
                None => Some(index),
            };
            (None, child_index(frame.path.as_str(), index), segment, original_index)
        },
    };
    let location = if track {
        match child.origin {
            Some(origin) => Some(origin.clone()),
            None => match &frame.location {
                Some(parent) => match segment {
                    Some(segment) => Some(parent.child(segment)),
                    None => None,
                },
                None => None,
            },
        }
    } else {
        None
    };
    let visit = Visit { value: child.value, location, path, depth: frame.depth, key, original_index };
    assert(visit@.location == child_visit(frame.children.prepared, track, frame.place@, frame.frame_view(), k).location);
    assert(visit@.path == child_visit(frame.children.prepared, track, frame.place@, frame.frame_view(), k).path);
    visit
}

/// A depth, saturated at the largest `usize`.
pub open spec fn capped_depth(depth: int) -> usize {
    if depth < usize::MAX {
        depth as usize
    } else {
        usize::MAX
    }
}

/// A pre-order traversal of a prepared read, one visit at a time. Only the
/// ancestors of the next value are held as frames: a visit at depth `d` is
/// yielded with `d - 1` frames held, however wide the tree.
pub struct Walk<'a> {
    prepared: &'a PreparedConfigRead<'a>,
    track_locations: bool,
    pending: Option<(Visit<'a>, Ghost<Place<'a>>)>,
    stack: Vec<Frame<'a>>,
}

impl<'a> Walk<'a> {
    /// The read being traversed.
    pub closed spec fn prepared(&self) -> &'a PreparedConfigRead<'a> {
        self.prepared
    }

    /// Whether visits carry source locations.
    pub closed spec fn track(&self) -> bool {
        self.track_locations
    }

    /// The visits not yet yielded, in order.
    pub closed spec fn remaining(&self) -> Seq<VisitView<'a>> {
        let head = match self.pending {
            Some((visit, place)) => visits_of(self.prepared, self.track_locations, place@, visit@),
            None => seq![],
        };
        head + stack_rest(self.prepared, self.track_locations, self.stack@)
    }

    /// The traversal state is consistent.
    pub closed spec fn wf(&self) -> bool {
        &&& arena_wf(self.prepared.nodes@)
        &&& forall|i: int| 0 <= i < self.stack@.len() ==> frame_ok(self.prepared, #[trigger] self.stack@[i])
        &&& forall|i: int| 0 <= i < self.stack@.len() ==> (#[trigger] self.stack@[i]).depth == capped_depth(i + 2)
        &&& match self.pending {
            Some((visit, place)) => {
                &&& place_ok(self.prepared, place@)
                &&& visit.value == place_view(self.prepared, place@)
                &&& visit.depth == capped_depth(self.stack@.len() + 1int)
            },
            None => self.stack@.len() == 0,
        }
    }

    /// Number of ancestor frames the walk holds.
    pub closed spec fn frames(&self) -> nat {
        self.stack@.len()
    }

    /// Yields the next visit in pre-order.
    pub fn next(&mut self) -> (visit: Option<Visit<'a>>)
        requires
            old(self).wf(),
        ensures
            final(self).wf(),
            final(self).prepared() == old(self).prepared(),
            final(self).track() == old(self).track(),
            match visit {
                Some(visit) => {
                    &&& old(self).remaining().len() > 0
                    &&& visit@ == old(self).remaining()[0]
                    &&& final(self).remaining() == old(self).remaining().drop_first()
                    &&& visit.depth == capped_depth(old(self).frames() + 1int)
                },
                None => old(self).remaining().len() == 0 && final(self).remaining().len() == 0,
            },
    {
        let ghost before = self.remaining();
        let (current, place) = match self.pending.take() {
            Some(pending) => pending,
            None => {
                assert(self.stack@.len() == 0);
                assert(before =~= Seq::<VisitView<'a>>::empty());
                return None;
            },
        };
        let ghost frame = frame_of(current@);
        proof {
            assert(before == visits_of(self.prepared, self.track_locations, place@, current@) + stack_rest(
                self.prepared,
                self.track_locations,
                self.stack@,
            ));
            lemma_reachable_children(self.prepared, place@);
        }
        let ghost rest = visits_from(self.prepared, self.track_locations, place@, frame, 0);
        match children(current.value, self.prepared) {
            Some(iter) => {
                let parent = Frame {
                    children: iter,
                    path: current.path.clone(),
                    location: clone_location(&current.location),
                    depth: current.depth.saturating_add(1),
                    original_index: current.original_index,
                    place,
                };
                let ghost old_stack = self.stack@;
                self.stack.push(parent);
                proof {
                    assert(parent.frame_view() == frame);
                    assert(self.stack@.drop_last() =~= old_stack);
                    assert(stack_rest(self.prepared, self.track_locations, self.stack@) == rest + stack_rest(
                        self.prepared,
                        self.track_locations,
                        old_stack,
                    ));
                    assert forall|i: int| 0 <= i < self.stack@.len() implies frame_ok(self.prepared, #[trigger] self.stack@[i]) by {
                        if i < old_stack.len() {
                            assert(self.stack@[i] == old_stack[i]);
                        }
                    }
                    assert forall|i: int| 0 <= i < self.stack@.len() implies (#[trigger] self.stack@[i]).depth == capped_depth(i + 2) by {
                        if i < old_stack.len() {
                            assert(self.stack@[i] == old_stack[i]);
                        }
                    }
                }
            },
            None => {
                assert(rest =~= Seq::<VisitView<'a>>::empty());
            },
        }
        proof {
            assert(before.drop_first() =~= stack_rest(self.prepared, self.track_locations, self.stack@));
        }
        self.advance();
        Some(current)
    }

    /// Finds the next child below the frames, popping exhausted frames.
    fn advance(&mut self)
        requires
            old(self).pending is None,
            arena_wf(old(self).prepared.nodes@),
            forall|i: int| 0 <= i < old(self).stack@.len() ==> frame_ok(old(self).prepared, #[trigger] old(self).stack@[i]),
            forall|i: int| 0 <= i < old(self).stack@.len() ==> (#[trigger] old(self).stack@[i]).depth == capped_depth(i + 2),
        ensures
            final(self).wf(),
            final(self).prepared == old(self).prepared,
            final(self).track_locations == old(self).track_locations,
            final(self).remaining() == stack_rest(old(self).prepared, old(self).track_locations, old(self).stack@),
    {
        let ghost target = stack_rest(self.prepared, self.track_locations, self.stack@);
        let ghost prepared = self.prepared;
        let ghost track = self.track_locations;
        assert(self.remaining() =~= target);
        let mut searching = true;
        while searching
            invariant
                self.prepared == prepared,
                self.track_locations == track,
                arena_wf(prepared.nodes@),
                forall|i: int| 0 <= i < self.stack@.len() ==> frame_ok(prepared, #[trigger] self.stack@[i]),
                forall|i: int| 0 <= i < self.stack@.len() ==> (#[trigger] self.stack@[i]).depth == capped_depth(i + 2),
                searching ==> self.pending is None,
                self.pending matches Some((visit, place)) ==> place_ok(prepared, place@) && visit.value
                    == place_view(prepared, place@) && visit.depth == capped_depth(self.stack@.len() + 1int),
                !searching && self.pending is None ==> self.stack@.len() == 0,
                self.remaining() == target,
            decreases self.stack@.len() + if searching { 1int } else { 0int },
        {
            match self.stack.pop() {
                None => {
                    searching = false;
                },
                Some(top) => {
                    let mut top = top;
                    let ghost popped = self.stack@;
                    let ghost k = top.children.next as int;
                    proof {
                        assert(frame_ok(prepared, top));
                        lemma_reachable_children(prepared, top.place@);
                        assert(stack_rest(prepared, track, popped.push(top)) == visits_from(prepared, track, top.place@, top.frame_view(), k as nat) + stack_rest(prepared, track, popped)) by {
                            assert(popped.push(top).drop_last() =~= popped);
                        }
                    }
                    match top.children.next() {
                        Some(child) => {
                            let ghost next_place = child_place(prepared, top.place@, k);
                            let visit = visit_child(self.track_locations, &top, child, Ghost(k));
                            let ghost advanced = top;
                            self.stack.push(top);
                            self.pending = Some((visit, Ghost(next_place)));
                            searching = false;
                            proof {
                                assert(child_within(prepared, advanced.place@, k));
                                assert(self.stack@.drop_last() =~= popped);
                                assert forall|i: int| 0 <= i < self.stack@.len() implies frame_ok(prepared, #[trigger] self.stack@[i]) by {
                                    if i < popped.len() {
                                        assert(self.stack@[i] == popped[i]);
                                    }
                                }
                                assert forall|i: int| 0 <= i < self.stack@.len() implies (#[trigger] self.stack@[i]).depth == capped_depth(i + 2) by {
                                    if i < popped.len() {
                                        assert(self.stack@[i] == popped[i]);
                                    }
                                }
                                assert(self.remaining() =~= target);
                            }
                        },
                        None => {
                            proof {
                                assert(visits_from(prepared, track, top.place@, top.frame_view(), k as nat) =~= Seq::<VisitView<'a>>::empty());
                                assert(self.remaining() =~= target);
                            }
                        },
                    }
                },
            }
        }
    }
}

/// Starts a pre-order traversal at the root of a read; locations are
/// computed only when tracked.
pub fn walk<'a>(prepared: &'a PreparedConfigRead<'a>, track_locations: bool) -> (walk: Walk<'a>)
    requires
        arena_wf(prepared.nodes@),
        prepared.root < prepared.nodes@.len(),
    ensures
        walk.wf(),
        walk.prepared() == prepared,
        walk.track() == track_locations,
        walk.remaining() == all_visits(prepared, track_locations),
{
    let location = if track_locations {
        match prepared.sources.origin(prepared.root) {
            Some(origin) => Some(origin.clone()),
            None => None,
        }
    } else {
        None
    };
    let first = Visit {
        value: ReadView::from_node(&prepared.nodes[prepared.root]),
        location,
        path: prepared.root_path.clone(),
        depth: 1,
        key: None,
        original_index: None,
    };
    let walk = Walk {
        prepared,
        track_locations,
        pending: Some((first, Ghost(Place::Node(prepared.root)))),
        stack: Vec::new(),
    };
    assert(first@ == root_visit(prepared, track_locations));
    assert(walk.remaining() =~= all_visits(prepared, track_locations));
    walk
}

/// Every string leaf among the visits has a location.
pub open spec fn strings_located<'a>(visits: Seq<VisitView<'a>>) -> bool {
    forall|i: int| 0 <= i < visits.len() ==> (view_string((#[trigger] visits[i]).value) is Some ==> visits[i].location is Some)
}

/// Every node that is not an indexed object has a known location.
pub open spec fn nodes_located<'a>(prepared: &'a PreparedConfigRead<'a>) -> bool {
    forall|id: int|
        0 <= id < prepared.nodes@.len() ==> (#[trigger] prepared.nodes@[id] !is Object ==> prepared.sources.origin_at(id) is Some)
}

/// A visit of `place` at `location` is located where it must be: always
/// for a borrowed value, and for any node but an indexed object.
pub open spec fn visit_located<'a>(prepared: &'a PreparedConfigRead<'a>, place: Place<'a>, location: Option<LocationView>) -> bool {
    match place {
        Place::Node(id) => prepared.nodes@[id as int] !is Object ==> location is Some,
        Place::Value(_) => location is Some,
    }
}

proof fn lemma_located_concat<'a>(a: Seq<VisitView<'a>>, b: Seq<VisitView<'a>>)
    requires
        strings_located(a),
        strings_located(b),
    ensures
        strings_located(a + b),
{
    assert forall|i: int| 0 <= i < (a + b).len() implies (view_string((#[trigger] (a + b)[i]).value) is Some ==> (a + b)[i].location is Some) by {
        if i < a.len() {
            assert((a + b)[i] == a[i]);
        } else {
            assert((a + b)[i] == b[i - a.len()]);
        }
    }
}

/// Below a located visit, every string leaf is located.
proof fn lemma_visits_located<'a>(prepared: &'a PreparedConfigRead<'a>, place: Place<'a>, visit: VisitView<'a>)
    requires
        arena_wf(prepared.nodes@),
        nodes_located(prepared),
        place_ok(prepared, place),
        visit.value == place_view(prepared, place),
        visit_located(prepared, place, visit.location),
    ensures
        strings_located(visits_of(prepared, true, place, visit)),
    decreases place_rank(prepared, place), place_size(place), 1nat, 0nat,
{
    lemma_from_located(prepared, place, frame_of(visit), 0);
    let head = seq![visit];
    assert(strings_located(head)) by {
        if view_string(visit.value) is Some {
            match place {
                Place::Node(id) => {
                    assert(prepared.nodes@[id as int] !is Object);
                },
                Place::Value(_) => {},
            }
        }
    }
    lemma_located_concat(head, visits_from(prepared, true, place, frame_of(visit), 0));
}

/// Below the children of a place whose frame is located, every string
/// leaf is located.
proof fn lemma_from_located<'a>(prepared: &'a PreparedConfigRead<'a>, place: Place<'a>, frame: FrameView, k: nat)
    requires
        arena_wf(prepared.nodes@),
        nodes_located(prepared),
        place_ok(prepared, place),
        visit_located(prepared, place, frame.location),
    ensures
        strings_located(visits_from(prepared, true, place, frame, k)),
    decreases place_rank(prepared, place), place_size(place), 0nat, child_count(place_view(prepared, place)) - k,
{
    if k < child_count(place_view(prepared, place)) && child_within(prepared, place, k as int) {
        lemma_child_descends(prepared, place, k as int);
        lemma_reachable_children(prepared, place);
        let child = child_place(prepared, place, k as int);
        let visit = child_visit(prepared, true, place, frame, k as int);
        assert(visit_located(prepared, child, visit.location)) by {
            match place {
                Place::Node(id) => {
                    match place_view(prepared, place) {
                        ReadView::Object(children) => {
                            let c = children@[k as int].1;
                            if prepared.nodes@[c as int] !is Object {
                                assert(prepared.sources.origin_at(c as int) is Some);
                            }
                        },
                        _ => {
                            assert(prepared.nodes@[id as int] !is Object);
                        },
                    }
                },
                Place::Value(_) => {},
            }
        }
        lemma_visits_located(prepared, child, visit);
        lemma_from_located(prepared, place, frame, k + 1);
        lemma_located_concat(visits_of(prepared, true, child, visit), visits_from(prepared, true, place, frame, k + 1));
    }
}

/// A source string always has a storage location: in a read whose nodes,
/// indexed objects aside, all have one, every string leaf that a located
/// traversal visits is located.
pub proof fn lemma_read_strings_located<'a>(prepared: &'a PreparedConfigRead<'a>)
    requires
        arena_wf(prepared.nodes@),
        nodes_located(prepared),
        prepared.root < prepared.nodes@.len(),
    ensures
        strings_located(all_visits(prepared, true)),
{
    lemma_visits_located(prepared, Place::Node(prepared.root), root_visit(prepared, true));
}

} // verus!
