//! Selection and bounded construction of the logical configuration path tree.

use vstd::prelude::*;
use vstd::pervasive::VecAdditionalExecFns;

use crate::arena::arena_extends;
use crate::arena::arena_wf;
use crate::arena::find_child;
use crate::arena::has_child;
use crate::arena::lemma_insert_sorted;
use crate::arena::lemma_extends_refl;
use crate::arena::lemma_extends_trans;
use crate::arena::object_children;
use crate::arena::sorted_keys;
use crate::arena::ChildSlot;
use crate::error::ConfigError;
use crate::error::conflict;
use crate::error::is_conflict;
use crate::index_capacity::IndexCapacity;
use crate::index_capacity::checked;
use crate::index_capacity::node_refusal;
use crate::read_node::NodeId;
use crate::read_node::NodeKind;
use crate::read_node::ReadNode;
use crate::read_node::kind_name;
use crate::read_node::lemma_object_name_unique;
use crate::read_node::node_kind;
use crate::read_node::json_kind;
use crate::source_index::SourceIndex;
use crate::source_location::SourceLocation;
use crate::source_location::SegmentView;
use crate::source_location::segments_view;
use crate::source_segment::SourceSegment;
use crate::text::chars_of;
use crate::value::JsonValue;
use crate::value::Property;
use crate::value::distinct_keys;
use crate::value::json_wf;
use crate::value::json_weight;
use crate::value::entries_weight;
use crate::value::lemma_entries_weight_take;
use crate::value::MissingReason;
use crate::value::DeclaredType;
use crate::path::child_key;
use crate::path::descend;
use crate::arena::resolve;
use crate::arena::lookup_child;
use crate::arena::lemma_resolve_extends;
use crate::arena::lemma_resolve_push;
use crate::arena::lemma_lookup_sorted;
use crate::arena::lemma_lookup_entry;
use crate::read_node::container_node;
use crate::text::key_segments;
use crate::text::lemma_key_segments_nonempty;
use crate::text::lemma_plain_key_segments;
use crate::text::split_dots;
use crate::text::views;
use crate::value::container_wf;
use crate::text::relative_key;
use crate::text::strip_dotted_prefix;
use crate::index_capacity::IndexLimits;
use crate::index_capacity::after_key;
use crate::index_capacity::after_node;
use crate::index_capacity::entry_charges_refusal;
use crate::index_capacity::entries_refusal;
use crate::index_capacity::key_refusal;
use crate::error::LimitError;
use crate::interpolation_overlay::utf8_len;
use crate::error::is_limit;
use crate::traversal::all_visits;
use crate::traversal::capped_depth;
use crate::traversal::lemma_read_strings_located;
use crate::traversal::nodes_located;
use crate::traversal::strings_located;

verus! {

/// A prepared read: the borrowed path index of the selected input, the
/// source of each node, and interpolated replacements of string leaves.
#[derive(Debug)]
pub struct PreparedConfigRead<'a> {
    /// Replacement text of interpolated string leaves, by source location.
    pub overlays: Vec<(SourceLocation, String)>,
    /// Arena of nodes; children always follow their parents.
    pub nodes: Vec<ReadNode<'a>>,
    /// Contributing properties and the location of each node.
    pub sources: SourceIndex<'a>,
    /// Root node of the read.
    pub root: NodeId,
    /// Absolute path of the root.
    pub root_path: String,
}

/// Borrowed payloads are well formed: JSON objects and string maps have
/// distinct keys.
pub open spec fn node_payload_wf(node: ReadNode) -> bool {
    match node {
        ReadNode::Json(value) => json_wf(*value),
        ReadNode::StringMap(entries) => distinct_keys(entries@),
        _ => true,
    }
}

/// `child` is `parent` one key segment further down (or both are unknown).
pub open spec fn located_below(parent: Option<SourceLocation>, child: Option<SourceLocation>, segment: SourceSegment) -> bool {
    match (parent, child) {
        (None, None) => true,
        (Some(p), Some(c)) => c.property_index == p.property_index && c.segments@ == p.segments@.push(segment),
        _ => false,
    }
}

/// Merge size of an incoming node.
pub open spec fn node_weight(node: ReadNode) -> nat {
    match node {
        ReadNode::Json(value) => json_weight(*value),
        ReadNode::StringMap(entries) => entries@.len() + 1,
        _ => 1,
    }
}

/// One merge that remains to be done: the existing node, the incoming
/// value, its location, its depth and its path.
pub type PendingMerge<'a> = (NodeId, ReadNode<'a>, SourceLocation, usize, String);

/// Total merge size of pending merges.
pub open spec fn pending_weight(pending: Seq<PendingMerge>) -> nat
    decreases pending.len(),
{
    if pending.len() == 0 {
        0
    } else {
        pending_weight(pending.drop_last()) + node_weight(pending.last().1)
    }
}

/// The entries that lie below `prefix`, with their keys relative to it, in
/// iteration order.
pub open spec fn selected<'a>(entries: Seq<(String, &'a Property)>, prefix: Seq<char>) -> Seq<(Seq<char>, &'a Property)>
    decreases entries.len(),
{
    if entries.len() == 0 {
        seq![]
    } else {
        let rest = selected(entries.drop_last(), prefix);
        match relative_key(entries.last().0@, prefix) {
            Some(relative) => rest.push((relative, entries.last().1)),
            None => rest,
        }
    }
}

/// What expanding one node requires.
enum Expansion<'a> {
    /// The node already is an indexed object.
    Indexed,
    /// The node is a JSON object with these entries.
    Json(&'a Vec<(String, JsonValue)>),
    /// The node is a string map with these entries.
    StringMap(&'a Vec<(String, String)>),
    /// The node is not an object; it has this kind.
    Conflict(NodeKind),
}

impl<'a> PreparedConfigRead<'a> {
    /// `new` is `old` with node `id` expanded into an indexed object whose
    /// children are the given entries, appended as fresh nodes in entry
    /// order; `payload(k)` is the node of entry `k`.
    pub open spec fn expanded_into(
        old: Self,
        new: Self,
        id: int,
        keys: Seq<String>,
        payload: spec_fn(int) -> ReadNode<'a>,
    ) -> bool {
        let base = old.nodes@.len();
        &&& new.nodes@.len() == base + keys.len()
        &&& new.nodes@[id] is Object
        &&& object_children(new.nodes@[id]).len() == keys.len()
        &&& forall|p: int| 0 <= p < base && p != id ==> new.nodes@[p] == #[trigger] old.nodes@[p]
        &&& forall|k: int| 0 <= k < keys.len() ==> has_child(object_children(new.nodes@[id]), (#[trigger] keys[k])@, (base + k) as NodeId)
        &&& forall|k: int| 0 <= k < keys.len() ==> new.nodes@[base + k] == payload(k) && #[trigger] keys[k] == keys[k]
        &&& forall|k: int| 0 <= k < keys.len() ==> located_below(old.origins()[id], new.origins()[base + k], SourceSegment::Key(#[trigger] keys[k]))
        &&& new.origins().take(base as int) == old.origins()
    }

    /// The property registered as number `index` is placed at `segments`
    /// below the root: the path resolves to a node of the kind of the
    /// property's value, and unless an object is there (merged from several
    /// sources), the node is the property's own value located at that
    /// property.
    pub open spec fn placed(prepared: Self, segments: Seq<Seq<char>>, property: &'a Property, index: int) -> bool {
        match resolve(prepared.nodes@, prepared.root as int, segments) {
            Some(node) => {
                &&& 0 <= node < prepared.nodes@.len()
                &&& node_kind(prepared.nodes@[node]) == node_kind(container_node(&property.value))
                &&& (prepared.nodes@[node] is Object || {
                    &&& prepared.nodes@[node] == container_node(&property.value)
                    &&& prepared.origins()[node] matches Some(location) && location.property_index == index
                        && location.segments@.len() == 0
                })
            },
            None => false,
        }
    }

    /// Every selected entry is registered in order and placed at the
    /// segments of its relative key.
    pub open spec fn places_all(prepared: Self, chosen: Seq<(Seq<char>, &'a Property)>) -> bool {
        &&& prepared.properties() == chosen.map_values(|c: (Seq<char>, &'a Property)| c.1)
        &&& forall|j: int| 0 <= j < chosen.len() ==> Self::placed(prepared, key_segments((#[trigger] chosen[j]).0), chosen[j].1, j)
    }

    /// Location table of a subtree index.
    pub open spec fn origins(&self) -> Seq<Option<SourceLocation>> {
        match self.sources {
            SourceIndex::Tree { origins, .. } => origins@,
            SourceIndex::Exact { .. } => seq![],
        }
    }

    /// Registered properties of a subtree index.
    pub open spec fn properties(&self) -> Seq<&'a Property> {
        match self.sources {
            SourceIndex::Tree { properties, .. } => properties@,
            SourceIndex::Exact { property, .. } => seq![property],
        }
    }

    /// A subtree index under construction: one location per node, a tree of
    /// sorted objects, well-formed payloads, and a known location for every
    /// node that is not an indexed object.
    pub open spec fn index_wf(&self) -> bool {
        &&& self.sources is Tree
        &&& self.origins().len() == self.nodes@.len()
        &&& arena_wf(self.nodes@)
        &&& forall|p: int| 0 <= p < self.nodes@.len() ==> node_payload_wf(#[trigger] self.nodes@[p])
        &&& self.origins_below(self.properties().len() as int + 1)
        &&& self.values_located()
    }

    /// Every node that is not an indexed object has a known location.
    pub open spec fn values_located(&self) -> bool {
        forall|p: int| 0 <= p < self.nodes@.len() ==> (#[trigger] self.nodes@[p] !is Object ==> self.origins()[p] is Some)
    }

    /// Every known location refers to a property numbered below `bound`.
    pub open spec fn origins_below(&self, bound: int) -> bool {
        forall|i: int| 0 <= i < self.origins().len() ==> (#[trigger] self.origins()[i] matches Some(location) ==> location.property_index < bound)
    }

    /// Everything but the arena and its locations is as in `other`.
    pub open spec fn same_frame(&self, other: &Self) -> bool {
        &&& self.overlays == other.overlays
        &&& self.root == other.root
        &&& self.root_path == other.root_path
        &&& self.properties() == other.properties()
    }

    /// Appends a childless node with its location, after charging it.
    pub fn push(
        &mut self,
        node: ReadNode<'a>,
        origin: Option<SourceLocation>,
        depth: usize,
        capacity: &mut IndexCapacity,
        path: &str,
    ) -> (result: Result<NodeId, ConfigError>)
        requires
            old(self).index_wf(),
            object_children(node).len() == 0,
            node_payload_wf(node),
            origin matches Some(location) ==> location.property_index <= old(self).properties().len(),
            node !is Object ==> origin is Some,
        ensures
            checked(
                match result {
                    Ok(_) => Ok(()),
                    Err(e) => Err(e),
                },
                path@,
                node_refusal(*old(capacity), depth as nat),
            ),
            final(capacity).limits == old(capacity).limits,
            final(capacity).remaining_input_bytes == old(capacity).remaining_input_bytes,
            final(capacity).remaining_payload_bytes == old(capacity).remaining_payload_bytes,
            final(capacity).remaining_nodes == if result is Ok {
                (old(capacity).remaining_nodes - 1) as u64
            } else {
                old(capacity).remaining_nodes
            },
            final(self).index_wf(),
            final(self).same_frame(old(self)),
            match result {
                Ok(id) => {
                    &&& id == old(self).nodes@.len()
                    &&& final(self).nodes@ == old(self).nodes@.push(node)
                    &&& final(self).origins() == old(self).origins().push(origin)
                },
                Err(_) => *final(self) == *old(self),
            },
    {
        match capacity.admit_node(depth, path) {
            Ok(()) => {},
            Err(error) => return Err(error),
        }
        let id = self.nodes.len();
        self.nodes.push(node);
        self.sources.push_origin(origin);
        proof {
            let nodes = self.nodes@;
            assert forall|p: int| 0 <= p < nodes.len() implies sorted_keys(object_children(#[trigger] nodes[p])) by {
                if p < id {
                    assert(nodes[p] == old(self).nodes@[p]);
                }
            }
            assert forall|p: int, k: int|
                0 <= p < nodes.len() && 0 <= k < object_children(nodes[p]).len() implies p < (#[trigger] object_children(
                nodes[p],
            )[k]).1 < nodes.len() by {
                assert(nodes[p] == old(self).nodes@[p]);
            }
            assert forall|p: int| 0 <= p < nodes.len() implies node_payload_wf(#[trigger] nodes[p]) by {
                if p < id {
                    assert(nodes[p] == old(self).nodes@[p]);
                }
            }
            assert forall|p: int| 0 <= p < nodes.len() implies (#[trigger] nodes[p] !is Object ==> self.origins()[p] is Some) by {
                if p < id {
                    assert(nodes[p] == old(self).nodes@[p]);
                    assert(self.origins()[p] == old(self).origins()[p]);
                }
            }
        }
        Ok(id)
    }

    /// Turns a borrowed JSON object or string map into an indexed object, so
    /// that dotted paths can be merged below it; indexed objects are left as
    /// they are, and any other value conflicts with an object.
    pub fn expand_object(&mut self, id: NodeId, depth: usize, capacity: &mut IndexCapacity, path: &str) -> (result: Result<(), ConfigError>)
        requires
            old(self).index_wf(),
            id < old(self).nodes@.len(),
        ensures
            final(self).index_wf(),
            final(self).same_frame(old(self)),
            final(capacity).limits == old(capacity).limits,
            arena_extends(old(self).nodes@, final(self).nodes@),
            final(self).origins().take(old(self).nodes@.len() as int) == old(self).origins(),
            result is Ok ==> final(self).nodes@[id as int] is Object,
            old(self).nodes@[id as int] is Object ==> result is Ok && *final(self) == *old(self) && *final(capacity) == *old(capacity),
            node_kind(old(self).nodes@[id as int]) != NodeKind::Object ==> {
                &&& result matches Err(error) && is_conflict(error, path@, kind_name(node_kind(old(self).nodes@[id as int])), "object"@)
                &&& *final(self) == *old(self)
                &&& *final(capacity) == *old(capacity)
            },
            old(self).nodes@[id as int] !is Object && node_kind(old(self).nodes@[id as int]) == NodeKind::Object ==> checked(
                match result {
                    Ok(_) => Ok(()),
                    Err(e) => Err(e),
                },
                path@,
                expansion_refusal(old(self).nodes@[id as int], *old(capacity), depth.saturating_add(1) as nat),
            ),
            result is Ok ==> match old(self).nodes@[id as int] {
                ReadNode::Json(JsonValue::Object(entries)) => Self::expanded_into(*old(self), *final(self), id as int, entries@.map_values(|e: (String, JsonValue)| e.0), |k: int| ReadNode::Json(&entries@[k].1)),
                ReadNode::StringMap(entries) => Self::expanded_into(*old(self), *final(self), id as int, entries@.map_values(|e: (String, String)| e.0), |k: int| ReadNode::Text(&entries@[k].1)),
                _ => *final(self) == *old(self),
            },
    {
        let origin = match self.sources.origin(id) {
            Some(location) => Some(location.clone()),
            None => None,
        };
        assert(self.nodes@[id as int] !is Object ==> origin is Some);
        let plan = match &self.nodes[id] {
            ReadNode::Object(_) => Expansion::Indexed,
            ReadNode::Json(value) => {
                let value: &'a JsonValue = *value;
                match value {
                    JsonValue::Object(entries) => Expansion::Json(entries),
                    _ => Expansion::Conflict(self.nodes[id].kind()),
                }
            },
            ReadNode::StringMap(entries) => Expansion::StringMap(*entries),
            _ => Expansion::Conflict(self.nodes[id].kind()),
        };
        let ghost start = *self;
        match plan {
            Expansion::Indexed => {
                proof { lemma_extends_refl(self.nodes@); }
                assert(self.origins().take(self.nodes@.len() as int) =~= self.origins());
                Ok(())
            },
            Expansion::Conflict(kind) => {
                proof { lemma_extends_refl(self.nodes@); }
                assert(self.origins().take(self.nodes@.len() as int) =~= self.origins());
                proof { reveal_strlit("object"); }
                Err(conflict(path, kind.name(), "object"))
            },
            Expansion::Json(entries) => {
                match capacity.entries(entries.len(), path) {
                    Ok(()) => {},
                    Err(error) => {
                        proof { lemma_extends_refl(self.nodes@); }
                        assert(self.origins().take(self.nodes@.len() as int) =~= self.origins());
                        return Err(error);
                    },
                }
                let children = match self.add_json_children(entries, &origin, depth, capacity, path) {
                    Ok(children) => children,
                    Err(error) => {
                        proof { lemma_extends_prefix(start.nodes@, self.nodes@); }
                        return Err(error);
                    },
                };
                let ghost grown = *self;
                let ghost kids = children;
                self.nodes.set(id, ReadNode::Object(children));
                proof {
                    let keys = entries@.map_values(|e: (String, JsonValue)| e.0);
                    lemma_expansion_wf(start, grown, *self, id as int, kids, keys);
                }
                Ok(())
            },
            Expansion::StringMap(entries) => {
                match capacity.entries(entries.len(), path) {
                    Ok(()) => {},
                    Err(error) => {
                        proof { lemma_extends_refl(self.nodes@); }
                        assert(self.origins().take(self.nodes@.len() as int) =~= self.origins());
                        return Err(error);
                    },
                }
                let children = match self.add_map_children(entries, &origin, depth, capacity, path) {
                    Ok(children) => children,
                    Err(error) => {
                        proof { lemma_extends_prefix(start.nodes@, self.nodes@); }
                        return Err(error);
                    },
                };
                let ghost grown = *self;
                let ghost kids = children;
                self.nodes.set(id, ReadNode::Object(children));
                proof {
                    let keys = entries@.map_values(|e: (String, String)| e.0);
                    lemma_expansion_wf(start, grown, *self, id as int, kids, keys);
                }
                Ok(())
            },
        }
    }

    /// Where `key` lies among the children of object `id`, and how many
    /// children it has.
    fn object_slot(&self, id: NodeId, key: &Vec<char>) -> (found: (ChildSlot, usize))
        requires
            self.index_wf(),
            id < self.nodes@.len(),
            self.nodes@[id as int] is Object,
        ensures
            found.1 == object_children(self.nodes@[id as int]).len(),
            match found.0 {
                ChildSlot::Found(i) => i < found.1 && object_children(self.nodes@[id as int])[i as int].0@ == key@,
                ChildSlot::Vacant(pos) => {
                    &&& pos <= found.1
                    &&& forall|k: int| 0 <= k < pos ==> crate::text::text_lt(#[trigger] object_children(self.nodes@[id as int])[k].0@, key@)
                    &&& forall|k: int| pos <= k < found.1 ==> crate::text::text_lt(key@, #[trigger] object_children(self.nodes@[id as int])[k].0@)
                },
            },
    {
        match &self.nodes[id] {
            ReadNode::Object(children) => (find_child(children, key), children.len()),
            _ => {
                proof { assert(false); }
                (ChildSlot::Vacant(0), 0)
            },
        }
    }

    /// Node id of child `pos` of object `id`.
    fn object_child(&self, id: NodeId, pos: usize) -> (child: NodeId)
        requires
            id < self.nodes@.len(),
            self.nodes@[id as int] is Object,
            pos < object_children(self.nodes@[id as int]).len(),
        ensures
            child == object_children(self.nodes@[id as int])[pos as int].1,
    {
        match &self.nodes[id] {
            ReadNode::Object(children) => children[pos].1,
            _ => {
                proof { assert(false); }
                0
            },
        }
    }

    /// Adds `key -> child` to object `parent` at its vacant sorted position.
    fn attach_child(&mut self, parent: NodeId, pos: usize, key: String, child: NodeId)
        requires
            old(self).index_wf(),
            parent < child < old(self).nodes@.len(),
            old(self).nodes@[parent as int] is Object,
            pos <= object_children(old(self).nodes@[parent as int]).len(),
            forall|k: int| 0 <= k < pos ==> crate::text::text_lt(#[trigger] object_children(old(self).nodes@[parent as int])[k].0@, key@),
            forall|k: int| pos <= k < object_children(old(self).nodes@[parent as int]).len() ==> crate::text::text_lt(key@, #[trigger] object_children(old(self).nodes@[parent as int])[k].0@),
        ensures
            final(self).index_wf(),
            final(self).same_frame(old(self)),
            final(self).origins() == old(self).origins(),
            final(self).nodes@.len() == old(self).nodes@.len(),
            final(self).nodes@[parent as int] is Object,
            object_children(final(self).nodes@[parent as int]) == object_children(old(self).nodes@[parent as int]).insert(pos as int, (key, child)),
            forall|p: int| 0 <= p < old(self).nodes@.len() && p != parent ==> final(self).nodes@[p] == #[trigger] old(self).nodes@[p],
            arena_extends(old(self).nodes@, final(self).nodes@),
            has_child(object_children(final(self).nodes@[parent as int]), key@, child),
    {
        let ghost start = *self;
        let ghost old_children = object_children(self.nodes@[parent as int]);
        let mut node = ReadNode::Missing(MissingReason::UnsetScalar(DeclaredType::String));
        self.nodes.set_and_swap(parent, &mut node);
        match node {
            ReadNode::Object(mut children) => {
                proof { lemma_insert_sorted(old_children, pos as int, (key, child)); }
                children.insert(pos, (key, child));
                self.nodes.set(parent, ReadNode::Object(children));
            },
            _ => {
                proof { assert(false); }
            },
        }
        proof {
            let nodes = self.nodes@;
            let new_children = object_children(nodes[parent as int]);
            assert(new_children[pos as int] == (key, child));
            assert forall|p: int| 0 <= p < nodes.len() implies sorted_keys(object_children(#[trigger] nodes[p])) by {
                if p != parent {
                    assert(nodes[p] == start.nodes@[p]);
                }
            }
            assert forall|p: int, k: int|
                0 <= p < nodes.len() && 0 <= k < object_children(nodes[p]).len() implies p < (#[trigger] object_children(
                nodes[p],
            )[k]).1 < nodes.len() by {
                if p != parent {
                    assert(nodes[p] == start.nodes@[p]);
                } else if k < pos {
                    assert(new_children[k] == old_children[k]);
                } else if k > pos {
                    assert(new_children[k] == old_children[k - 1]);
                }
            }
            assert forall|p: int| 0 <= p < nodes.len() implies node_payload_wf(#[trigger] nodes[p]) by {
                if p != parent {
                    assert(nodes[p] == start.nodes@[p]);
                }
            }
            assert forall|p: int| 0 <= p < nodes.len() implies (#[trigger] nodes[p] !is Object ==> self.origins()[p] is Some) by {
                if p != parent {
                    assert(nodes[p] == start.nodes@[p]);
                }
            }
            assert forall|p: int, k: int|
                0 <= p < nodes.len() && 0 <= k < object_children(start.nodes@[p]).len() implies has_child(
                object_children(nodes[p]),
                (#[trigger] object_children(start.nodes@[p])[k]).0@,
                object_children(start.nodes@[p])[k].1,
            ) by {
                if p != parent {
                    assert(nodes[p] == start.nodes@[p]);
                    assert(object_children(nodes[p])[k].0@ == object_children(start.nodes@[p])[k].0@);
                } else if k < pos {
                    assert(new_children[k] == old_children[k]);
                } else {
                    assert(new_children[k + 1] == old_children[k]);
                }
            }
            assert(new_children[pos as int].0@ == key@);
        }
    }

    /// Places one property below the root at the path of its relative `key`,
    /// creating intermediate objects and merging objects that are already
    /// there. A value that is not an object cannot hold a nested key, and
    /// two values cannot share a leaf path: both are key conflicts.
    #[verifier::rlimit(100)]
    #[verifier::spinoff_prover]
    pub fn insert_property(
        &mut self,
        key: &str,
        property: &'a Property,
        capacity: &mut IndexCapacity,
    ) -> (result: Result<(), ConfigError>)
        requires
            old(self).index_wf(),
            old(self).root < old(self).nodes@.len(),
            old(self).nodes@[old(self).root as int] is Object,
            container_wf(property.value),
        ensures
            final(self).index_wf(),
            final(self).overlays == old(self).overlays,
            final(self).root == old(self).root,
            final(self).root_path == old(self).root_path,
            final(capacity).limits == old(capacity).limits,
            arena_extends(old(self).nodes@, final(self).nodes@),
            final(self).origins().take(old(self).nodes@.len() as int) == old(self).origins(),
            final(self).nodes@[final(self).root as int] is Object,
            result is Ok ==> final(self).properties() == old(self).properties().push(property),
            result is Err ==> final(self).properties() == old(self).properties(),
            result is Ok ==> Self::placed(*final(self), key_segments(key@), property, old(self).properties().len() as int),
            result is Ok ==> final(self).origins_below(final(self).properties().len() as int),
            match resolve(old(self).nodes@, old(self).root as int, key_segments(key@).drop_last()) {
                Some(parent) => old(self).nodes@[parent] is Object && lookup_child(
                    object_children(old(self).nodes@[parent]),
                    key_segments(key@).last(),
                ) is None ==> {
                    &&& checked(
                        result,
                        property.name@,
                        leaf_refusal(
                            *old(capacity),
                            object_children(old(self).nodes@[parent]).len(),
                            utf8_len(key_segments(key@).last()) as nat,
                            capped_depth(key_segments(key@).len() as int + 1) as nat,
                        ),
                    )
                    &&& result is Ok ==> {
                        &&& *final(capacity) == after_node(after_key(*old(capacity), utf8_len(key_segments(key@).last()) as nat))
                        &&& object_children(final(self).nodes@[parent]).len() == object_children(old(self).nodes@[parent]).len() + 1
                        &&& forall|other: Seq<char>|
                            other != key_segments(key@).last() && (#[trigger] lookup_child(
                                object_children(old(self).nodes@[parent]),
                                other,
                            )) is None ==> lookup_child(object_children(final(self).nodes@[parent]), other) is None
                    }
                },
                None => true,
            },
            result is Ok ==> keys_added(final(self).nodes@, old(self).nodes@, old(self).root as int, key_segments(key@)[0]),
            result is Ok ==> match resolve(old(self).nodes@, old(self).root as int, key_segments(key@)) {
                Some(node) => old(self).nodes@[node] is Object ==> forall|j: int|
                    0 <= j < incoming_entry_kinds(container_node(&property.value)).len() && (#[trigger] shared_pair(
                        old(self).nodes@,
                        node,
                        container_node(&property.value),
                        j,
                    )) is Some ==> {
                        let (child, kind) = shared_pair(old(self).nodes@, node, container_node(&property.value), j).unwrap();
                        &&& node_kind(old(self).nodes@[child as int]) == NodeKind::Object
                        &&& kind == NodeKind::Object
                    },
                None => true,
            },
            result is Ok ==> match resolve(final(self).nodes@, final(self).root as int, key_segments(key@)) {
                Some(node) => final(self).nodes@[node] is Object ==> keys_below(
                    final(self).nodes@,
                    node,
                    incoming_keys(container_node(&property.value)),
                ),
                None => false,
            },
            result is Err ==> result matches Err(ConfigError::Limit { .. }) || result matches Err(
                ConfigError::KeyConflict { .. },
            ),
            match resolve(old(self).nodes@, old(self).root as int, key_segments(key@)) {
                Some(node) => node_kind(old(self).nodes@[node]) != NodeKind::Object || node_kind(
                    container_node(&property.value),
                ) != NodeKind::Object ==> {
                    &&& result matches Err(ConfigError::KeyConflict { existing, incoming, .. }) && existing@
                        == kind_name(node_kind(old(self).nodes@[node])) && incoming@ == kind_name(
                        node_kind(container_node(&property.value)),
                    )
                    &&& *final(self) == *old(self)
                    &&& *final(capacity) == *old(capacity)
                },
                None => true,
            },
            forall|k: int|
                0 <= k < key_segments(key@).len() && (#[trigger] resolve(
                    old(self).nodes@,
                    old(self).root as int,
                    key_segments(key@).take(k),
                )) is Some && node_kind(
                    old(self).nodes@[resolve(old(self).nodes@, old(self).root as int, key_segments(key@).take(k)).unwrap()],
                ) != NodeKind::Object ==> {
                    &&& result matches Err(error) && is_conflict(
                        error,
                        descend(old(self).root_path@, key_segments(key@).take(k)),
                        kind_name(
                            node_kind(
                                old(self).nodes@[resolve(
                                    old(self).nodes@,
                                    old(self).root as int,
                                    key_segments(key@).take(k),
                                ).unwrap()],
                            ),
                        ),
                        "object"@,
                    )
                    &&& *final(self) == *old(self)
                    &&& *final(capacity) == *old(capacity)
                },
    {
        let ghost start = *self;
        let ghost start_capacity = *capacity;
        let segments = split_dots(key);
        let ghost segs = views(segments@);
        let root = self.root;
        let mut current: NodeId = self.root;
        let mut depth: usize = 1;
        let mut current_path = self.root_path.clone();
        let mut i: usize = 0;
        proof {
            lemma_extends_refl(self.nodes@);
            assert(segments@.len() >= 1);
            assert(segs.take(0) =~= Seq::<Seq<char>>::empty());
            assert(self.origins().take(self.nodes@.len() as int) =~= self.origins());
        }
        while i < segments.len()
            invariant
                self.index_wf(),
                self.same_frame(&start),
                start == *old(self),
                root == start.root,
                segs == views(segments@),
                segs == key_segments(key@),
                container_wf(property.value),
                capacity.limits == old(capacity).limits,
                arena_extends(start.nodes@, self.nodes@),
                self.origins().take(start.nodes@.len() as int) == start.origins(),
                root < start.nodes@.len(),
                self.nodes@[root as int] is Object,
                i < segments@.len(),
                current < self.nodes@.len(),
                resolve(self.nodes@, root as int, segs.take(i as int)) == Some(current as int),
                current_path@ == descend(start.root_path@, segs.take(i as int)),
                depth == capped_depth(i + 1),
                start_capacity == *old(capacity),
                resolve(start.nodes@, root as int, segs) is Some ==> *self == start && *capacity == start_capacity,
                forall|k: int|
                    i <= k <= segs.len() && (#[trigger] resolve(start.nodes@, root as int, segs.take(k))) is Some
                        ==> *self == start && *capacity == start_capacity,
                forall|k: int|
                    0 <= k < i && (#[trigger] resolve(start.nodes@, root as int, segs.take(k))) is Some
                        ==> node_kind(start.nodes@[resolve(start.nodes@, root as int, segs.take(k)).unwrap()])
                        == NodeKind::Object,
                i >= 1 ==> current > root,
                i >= 1 ==> keys_added(self.nodes@, start.nodes@, root as int, segs[0]),
            decreases segments@.len() - i,
        {
            let ghost root_before = self.nodes@[root as int];
            let ghost occupied = resolve(start.nodes@, root as int, segs.take(i + 1)) is Some;
            proof {
                assert forall|k: int|
                    i + 1 <= k <= segs.len() && (#[trigger] resolve(start.nodes@, root as int, segs.take(k))) is Some
                    implies occupied by {
                    lemma_resolve_prefix(start.nodes@, root as int, segs.take(k), i + 1);
                    assert(segs.take(k).take(i + 1) =~= segs.take(i + 1));
                }
                if resolve(start.nodes@, root as int, segs) is Some {
                    assert(segs.take(segs.len() as int) =~= segs);
                }
                if occupied {
                    assert(segs.take(i + 1) =~= segs.take(i as int).push(segs[i as int]));
                    lemma_resolve_push(start.nodes@, root as int, segs.take(i as int), segs[i as int]);
                    let children = object_children(start.nodes@[current as int]);
                    lemma_lookup_entry(children, segs[i as int]);
                    assert(start.nodes@[current as int] is Object);
                }
            }
            let ghost before = *self;
            match self.expand_object(current, depth, capacity, current_path.as_str()) {
                Ok(()) => {},
                Err(error) => {
                    proof {
                        lemma_extends_trans(start.nodes@, before.nodes@, self.nodes@);
                        assert(self.origins().take(start.nodes@.len() as int) =~= before.origins().take(start.nodes@.len() as int));
                        lemma_resolve_extends(before.nodes@, self.nodes@, root as int, seq![]);
                    }
                    return Err(error);
                },
            }
            proof {
                lemma_extends_trans(start.nodes@, before.nodes@, self.nodes@);
                assert(self.origins().take(start.nodes@.len() as int) =~= before.origins().take(start.nodes@.len() as int));
                lemma_resolve_extends(before.nodes@, self.nodes@, root as int, segs.take(i as int));
                if i >= 1 {
                    assert(before.nodes@[root as int] == root_before);
                    assert(self.nodes@[root as int] == root_before);
                } else {
                    assert(segs.take(0) =~= Seq::<Seq<char>>::empty());
                    assert(resolve(start.nodes@, root as int, segs.take(0)) is Some);
                    assert(*self == start);
                }
            }
            let segment = &segments[i];
            let next_path = child_key(current_path.as_str(), segment.as_str());
            depth = depth.saturating_add(1);
            let segment_chars = chars_of(segment.as_str());
            let (slot, count) = self.object_slot(current, &segment_chars);
            proof {
                if occupied {
                    let children = object_children(self.nodes@[current as int]);
                    lemma_lookup_sorted(children, segs[i as int]);
                    assert(segment_chars@ == segs[i as int]);
                    if let ChildSlot::Vacant(pos) = slot {
                        assert forall|k: int| 0 <= k < children.len() implies #[trigger] children[k].0@ != segs[i as int] by {
                            if k < pos {
                                assert(crate::text::text_lt(children[k].0@, segs[i as int]));
                            } else {
                                assert(crate::text::text_lt(segs[i as int], children[k].0@));
                            }
                            crate::text::lemma_text_lt_irreflexive(segs[i as int]);
                        }
                        assert(false);
                    }
                }
            }
            match slot {
                ChildSlot::Vacant(_) => {
                    match capacity.entries(count.saturating_add(1), property.name.as_str()) {
                        Ok(()) => {},
                        Err(error) => return Err(error),
                    }
                    match capacity.key(segment.as_str().len(), property.name.as_str()) {
                        Ok(()) => {},
                        Err(error) => return Err(error),
                    }
                },
                ChildSlot::Found(_) => {},
            }
            let ghost expanded = *self;
            proof {
                assert(segs.take(i + 1) =~= segs.take(i as int).push(segs[i as int]));
                assert(segs[i as int] == segments@[i as int]@);
                lemma_resolve_push(self.nodes@, root as int, segs.take(i as int), segs[i as int]);
                assert(descend(start.root_path@, segs.take(i + 1)) == crate::path::child_key_spec(current_path@, segs[i as int])) by {
                    assert(segs.take(i + 1).drop_last() =~= segs.take(i as int));
                }
            }
            if i + 1 == segments.len() {
                let location = SourceLocation { property_index: self.sources.len(), segments: Vec::new() };
                let incoming = ReadNode::from_container(&property.value);
                match slot {
                    ChildSlot::Found(pos) => {
                        let existing = self.object_child(current, pos);
                        proof {
                            lemma_lookup_sorted(object_children(self.nodes@[current as int]), segs[i as int]);
                            if resolve(start.nodes@, root as int, segs) is Some {
                                assert(segs.take(i + 1) =~= segs);
                                assert(resolve(start.nodes@, root as int, segs) == Some(existing as int));
                                assert(expanded == start);
                            }
                        }
                        match self.merge_leaf(existing, incoming, location, depth, capacity, next_path) {
                            Ok(()) => {},
                            Err(error) => {
                                proof {
                                    lemma_extends_trans(start.nodes@, expanded.nodes@, self.nodes@);
                                    assert(self.origins().take(start.nodes@.len() as int) =~= expanded.origins().take(start.nodes@.len() as int));
                                    lemma_resolve_extends(expanded.nodes@, self.nodes@, root as int, seq![]);
                                }
                                return Err(error);
                            },
                        }
                        proof {
                            lemma_extends_trans(start.nodes@, expanded.nodes@, self.nodes@);
                            assert(self.origins().take(start.nodes@.len() as int) =~= expanded.origins().take(start.nodes@.len() as int));
                            lemma_resolve_extends(expanded.nodes@, self.nodes@, root as int, segs.take(i + 1));
                            lemma_resolve_extends(expanded.nodes@, self.nodes@, root as int, seq![]);
                            assert(object_children(expanded.nodes@[current as int])[pos as int].1 > current);
                            assert(self.nodes@[root as int] == expanded.nodes@[root as int]);
                        }
                    },
                    ChildSlot::Vacant(pos) => {
                        let child = match self.push(incoming, Some(location), depth, capacity, property.name.as_str()) {
                            Ok(child) => child,
                            Err(error) => return Err(error),
                        };
                        let ghost pushed = *self;
                        proof {
                            assert(self.nodes@.take(expanded.nodes@.len() as int) =~= expanded.nodes@);
                            lemma_extends_prefix(expanded.nodes@, self.nodes@);
                            assert(self.nodes@[current as int] == expanded.nodes@[current as int]);
                        }
                        let segment_copy = segment.clone();
                        let ghost entry = (segment_copy, child);
                        self.attach_child(current, pos, segment_copy, child);
                        proof {
                            lemma_insert_keeps_absent(object_children(pushed.nodes@[current as int]), pos as int, entry);
                            if i == 0 {
                                lemma_keys_added_insert(self.nodes@, pushed.nodes@, root as int, pos as int, entry);
                            } else {
                                assert(self.nodes@[root as int] == pushed.nodes@[root as int]);
                            }
                        }
                        proof {
                            lemma_extends_trans(expanded.nodes@, pushed.nodes@, self.nodes@);
                            lemma_extends_trans(start.nodes@, expanded.nodes@, self.nodes@);
                            assert(self.origins().take(start.nodes@.len() as int) =~= expanded.origins().take(start.nodes@.len() as int));
                            lemma_resolve_extends(expanded.nodes@, self.nodes@, root as int, segs.take(i as int));
                            lemma_resolve_extends(expanded.nodes@, self.nodes@, root as int, seq![]);
                            lemma_resolve_push(self.nodes@, root as int, segs.take(i as int), segs[i as int]);
                            lemma_lookup_sorted(object_children(self.nodes@[current as int]), segs[i as int]);
                            let cs = object_children(self.nodes@[current as int]);
                            let j = choose|j: int| 0 <= j < cs.len() && #[trigger] cs[j].0@ == segs[i as int] && cs[j].1 == child;
                            assert(self.nodes@[child as int] == pushed.nodes@[child as int]);
                        }
                    },
                }
                let ghost placed_state = *self;
                self.sources.push_property(property);
                proof {
                    assert(segs.take(i + 1) =~= segs);
                    assert(self.nodes@ == placed_state.nodes@);
                }
                return Ok(());
            }
            let next = match slot {
                ChildSlot::Found(pos) => {
                    let existing = self.object_child(current, pos);
                    proof {
                        lemma_lookup_sorted(object_children(self.nodes@[current as int]), segs[i as int]);
                        lemma_extends_refl(self.nodes@);
                        assert(object_children(self.nodes@[current as int])[pos as int].1 > current);
                    }
                    existing
                },
                ChildSlot::Vacant(pos) => {
                    let child = match self.push(ReadNode::Object(Vec::new()), None, depth, capacity, property.name.as_str()) {
                        Ok(child) => child,
                        Err(error) => return Err(error),
                    };
                    let ghost pushed = *self;
                    proof {
                        assert(self.nodes@.take(expanded.nodes@.len() as int) =~= expanded.nodes@);
                        lemma_extends_prefix(expanded.nodes@, self.nodes@);
                        assert(self.nodes@[current as int] == expanded.nodes@[current as int]);
                    }
                    let segment_copy = segment.clone();
                    let ghost entry = (segment_copy, child);
                    self.attach_child(current, pos, segment_copy, child);
                    proof {
                        if i == 0 {
                            lemma_keys_added_insert(self.nodes@, pushed.nodes@, root as int, pos as int, entry);
                        } else {
                            assert(self.nodes@[root as int] == pushed.nodes@[root as int]);
                        }
                    }
                    proof {
                        lemma_extends_trans(expanded.nodes@, pushed.nodes@, self.nodes@);
                        lemma_lookup_sorted(object_children(self.nodes@[current as int]), segs[i as int]);
                        let cs = object_children(self.nodes@[current as int]);
                        let j = choose|j: int| 0 <= j < cs.len() && #[trigger] cs[j].0@ == segs[i as int] && cs[j].1 == child;
                    }
                    child
                },
            };
            proof {
                lemma_extends_trans(start.nodes@, expanded.nodes@, self.nodes@);
                assert(self.origins().take(start.nodes@.len() as int) =~= expanded.origins().take(start.nodes@.len() as int));
                lemma_resolve_extends(expanded.nodes@, self.nodes@, root as int, segs.take(i as int));
                lemma_resolve_extends(expanded.nodes@, self.nodes@, root as int, seq![]);
                lemma_resolve_push(self.nodes@, root as int, segs.take(i as int), segs[i as int]);
            }
            current = next;
            current_path = next_path;
            i = i + 1;
        }
        proof {
            assert(false);
        }
        Ok(())
    }

    /// Merges the value of a property into the node already at its path, as
    /// `merge_object` does, stating what placing the property relies on.
    fn merge_leaf(
        &mut self,
        id: NodeId,
        incoming: ReadNode<'a>,
        origin: SourceLocation,
        depth: usize,
        capacity: &mut IndexCapacity,
        path: String,
    ) -> (result: Result<(), ConfigError>)
        requires
            old(self).index_wf(),
            id < old(self).nodes@.len(),
            node_payload_wf(incoming),
            incoming !is Object,
            origin.property_index <= old(self).properties().len(),
        ensures
            final(self).index_wf(),
            final(self).same_frame(old(self)),
            final(capacity).limits == old(capacity).limits,
            arena_extends(old(self).nodes@, final(self).nodes@),
            final(self).origins().take(old(self).nodes@.len() as int) == old(self).origins(),
            result is Ok ==> final(self).nodes@[id as int] is Object,
            node_kind(old(self).nodes@[id as int]) != NodeKind::Object || node_kind(incoming) != NodeKind::Object ==> {
                &&& result matches Err(error) && is_conflict(
                    error,
                    path@,
                    kind_name(node_kind(old(self).nodes@[id as int])),
                    kind_name(node_kind(incoming)),
                )
                &&& *final(self) == *old(self)
                &&& *final(capacity) == *old(capacity)
            },
            result is Err ==> result matches Err(ConfigError::Limit { .. }) || result matches Err(
                ConfigError::KeyConflict { .. },
            ),
            result is Ok ==> keys_below(final(self).nodes@, id as int, incoming_keys(incoming)),
            result is Ok ==> forall|p: int| 0 <= p < id ==> #[trigger] final(self).nodes@[p] == old(self).nodes@[p],
            result is Ok && old(self).nodes@[id as int] is Object ==> forall|j: int|
                0 <= j < incoming_entry_kinds(incoming).len() && (#[trigger] shared_pair(
                    old(self).nodes@,
                    id as int,
                    incoming,
                    j,
                )) is Some ==> {
                    let (child, kind) = shared_pair(old(self).nodes@, id as int, incoming, j).unwrap();
                    &&& node_kind(old(self).nodes@[child as int]) == NodeKind::Object
                    &&& kind == NodeKind::Object
                },
    {
        self.merge_object(id, incoming, origin, depth, capacity, path)
    }

    /// Merges an incoming object into object node `id`, key by key and
    /// level by level, without recursion: a key new to the index gets the
    /// incoming value as a fresh node, a key already present is merged in
    /// turn, and merging anything that is not an object on either side is a
    /// conflict. Duplicate leaves are therefore rejected, never replaced.
    ///
    /// On success the contract gives the whole merge as a closed set of
    /// done merges: every target was an object before and is an indexed
    /// object after, every incoming key is present, a new key holds the
    /// incoming value located one key below its source, and a shared key is
    /// itself a done merge. A conflict at `id` itself is stated exactly, and
    /// so is when a merge that shares no key succeeds; any conflict names a
    /// side that is not an object, so two objects never conflict. Which path
    /// a conflict below a shared key names is not stated.
    #[verifier::rlimit(100)]
    pub fn merge_object(
        &mut self,
        id: NodeId,
        incoming: ReadNode<'a>,
        origin: SourceLocation,
        depth: usize,
        capacity: &mut IndexCapacity,
        path: String,
    ) -> (result: Result<(), ConfigError>)
        requires
            old(self).index_wf(),
            id < old(self).nodes@.len(),
            node_payload_wf(incoming),
            incoming !is Object,
            origin.property_index <= old(self).properties().len(),
        ensures
            final(self).index_wf(),
            final(self).same_frame(old(self)),
            final(capacity).limits == old(capacity).limits,
            arena_extends(old(self).nodes@, final(self).nodes@),
            final(self).origins().take(old(self).nodes@.len() as int) == old(self).origins(),
            result is Ok ==> final(self).nodes@[id as int] is Object,
            node_kind(old(self).nodes@[id as int]) != NodeKind::Object || node_kind(incoming) != NodeKind::Object ==> {
                &&& result matches Err(error) && is_conflict(
                    error,
                    path@,
                    kind_name(node_kind(old(self).nodes@[id as int])),
                    kind_name(node_kind(incoming)),
                )
                &&& *final(self) == *old(self)
                &&& *final(capacity) == *old(capacity)
            },
            result is Err ==> result matches Err(ConfigError::Limit { .. }) || result matches Err(
                ConfigError::KeyConflict { .. },
            ),
            result matches Err(ConfigError::KeyConflict { existing, incoming, .. }) ==> existing@ != kind_name(NodeKind::Object)
                || incoming@ != kind_name(NodeKind::Object),
            result is Ok ==> keys_below(final(self).nodes@, id as int, incoming_keys(incoming)),
            result is Ok ==> forall|p: int| 0 <= p < id ==> #[trigger] final(self).nodes@[p] == old(self).nodes@[p],
            result is Ok ==> exists|merges: Set<MergeItem<'a>>|
                #[trigger] merges.contains((id, incoming, place_of(origin))) && all_merged(
                    final(self).nodes@,
                    final(self).origins(), old(self).nodes@,
                    merges,
                    merges,
                ),
            result is Ok && old(self).nodes@[id as int] is Object ==> forall|j: int|
                0 <= j < incoming_entry_kinds(incoming).len() && (#[trigger] shared_pair(
                    old(self).nodes@,
                    id as int,
                    incoming,
                    j,
                )) is Some ==> {
                    let (child, kind) = shared_pair(old(self).nodes@, id as int, incoming, j).unwrap();
                    &&& node_kind(old(self).nodes@[child as int]) == NodeKind::Object
                    &&& kind == NodeKind::Object
                },
            old(self).nodes@[id as int] is Object && node_kind(incoming) == NodeKind::Object && (forall|j: int|
                0 <= j < incoming_entry_kinds(incoming).len() ==> (#[trigger] shared_pair(
                    old(self).nodes@,
                    id as int,
                    incoming,
                    j,
                )) is None) ==> checked(
                result,
                path@,
                fresh_entries_refusal(
                    *old(capacity),
                    object_children(old(self).nodes@[id as int]).len(),
                    incoming_key_sizes(incoming),
                    grown_count(depth as nat),
                ),
            ),
    {
        let ghost start = *self;
        let ghost fresh_case = start.nodes@[id as int] is Object && node_kind(incoming) == NodeKind::Object && (forall|j: int|
            0 <= j < incoming_entry_kinds(incoming).len() ==> (#[trigger] shared_pair(start.nodes@, id as int, incoming, j))
                is None);
        let ghost key_sizes = incoming_key_sizes(incoming);
        let ghost child_depth = grown_count(depth as nat);
        let ghost start_count = object_children(start.nodes@[id as int]).len();
        let ghost top_depth = depth;
        let ghost top_place = place_of(origin);
        let ghost mut done: Set<MergeItem<'a>> = Set::empty();
        let ghost mut checked: Set<(NodeId, NodeKind)> = Set::empty();
        let ghost top_keys = incoming_keys(incoming);
        let ghost start_capacity = *capacity;
        let ghost top = id;
        let ghost top_path = path@;
        let ghost mut top_done = false;
        let mut pending: Vec<PendingMerge<'a>> = Vec::new();
        pending.push((id, incoming, origin, depth, path));
        loop
            invariant
                self.index_wf(),
                self.same_frame(&start),
                start == *old(self),
                start_capacity == *old(capacity),
                top == id,
                top_path == path@,
                capacity.limits == start_capacity.limits,
                arena_extends(start.nodes@, self.nodes@),
                self.origins().take(start.nodes@.len() as int) == start.origins(),
                top < start.nodes@.len(),
                forall|q: int| 0 <= q < pending@.len() ==> {
                    &&& (#[trigger] pending@[q]).0 < self.nodes@.len()
                    &&& node_payload_wf(pending@[q].1)
                    &&& pending@[q].1 !is Object
                    &&& pending@[q].2.property_index <= self.properties().len()
                },
                !top_done ==> {
                    &&& pending@.len() == 1
                    &&& pending@[0].0 == top
                    &&& pending@[0].1 == incoming
                    &&& pending@[0].4@ == top_path
                    &&& pending@[0].3 == top_depth
                    &&& *self == start
                    &&& *capacity == start_capacity
                },
                top_depth == depth,
                key_sizes == incoming_key_sizes(incoming),
                child_depth == grown_count(depth as nat),
                start_count == object_children(start.nodes@[id as int]).len(),
                fresh_case == (start.nodes@[id as int] is Object && node_kind(incoming) == NodeKind::Object && (forall|j: int|
                    0 <= j < incoming_entry_kinds(incoming).len() ==> (#[trigger] shared_pair(start.nodes@, id as int, incoming, j))
                        is None)),
                top_done && fresh_case ==> pending@.len() == 0 && fresh_entries_refusal(
                    start_capacity,
                    start_count,
                    key_sizes,
                    child_depth,
                ) is None,
                top_done ==> self.nodes@[top as int] is Object,
                top_done ==> node_kind(start.nodes@[top as int]) == NodeKind::Object && node_kind(incoming) == NodeKind::Object,
                top_keys == incoming_keys(incoming),
                top_done ==> keys_below(self.nodes@, top as int, top_keys),
                arena_wf(start.nodes@),
                forall|p: int| 0 <= p < top ==> #[trigger] self.nodes@[p] == start.nodes@[p],
                forall|q: int| 0 <= q < pending@.len() ==> (#[trigger] pending@[q]).0 >= top,
                all_merged(self.nodes@, self.origins(), start.nodes@, done, done.union(pending_set(pending@))),
                !top_done ==> done == Set::<MergeItem<'a>>::empty() && place_of(pending@[0].2) == top_place,
                top_done ==> done.contains((top, incoming, top_place)),
                forall|p: (NodeId, NodeKind)| #[trigger] checked.contains(p) ==> p.1 == NodeKind::Object && (p.0
                    < start.nodes@.len() ==> node_kind(start.nodes@[p.0 as int]) == NodeKind::Object),
                top_done && start.nodes@[top as int] is Object ==> shared_tracked(
                    start.nodes@,
                    top as int,
                    incoming,
                    pending_pairs(pending@),
                    checked,
                    incoming_entry_kinds(incoming).len() as int,
                ),
            ensures
                self.nodes@[top as int] is Object,
                node_kind(start.nodes@[top as int]) == NodeKind::Object && node_kind(incoming) == NodeKind::Object,
                keys_below(self.nodes@, top as int, top_keys),
                fresh_case ==> fresh_entries_refusal(start_capacity, start_count, key_sizes, child_depth) is None,
                forall|p: int| 0 <= p < top ==> #[trigger] self.nodes@[p] == start.nodes@[p],
                all_merged(self.nodes@, self.origins(), start.nodes@, done, done),
                done.contains((top, incoming, top_place)),
                start.nodes@[top as int] is Object ==> forall|j: int|
                    0 <= j < incoming_entry_kinds(incoming).len() && (#[trigger] shared_pair(
                        start.nodes@,
                        top as int,
                        incoming,
                        j,
                    )) is Some ==> {
                        let (child, kind) = shared_pair(start.nodes@, top as int, incoming, j).unwrap();
                        &&& node_kind(start.nodes@[child as int]) == NodeKind::Object
                        &&& kind == NodeKind::Object
                    },
            decreases pending_weight(pending@),
        {
            let ghost before_pop = pending@;
            let item = match pending.pop() {
                Some(item) => item,
                None => {
                    proof {
                        if start.nodes@[top as int] is Object {
                            assert forall|j: int|
                                0 <= j < incoming_entry_kinds(incoming).len() && (#[trigger] shared_pair(
                                    start.nodes@,
                                    top as int,
                                    incoming,
                                    j,
                                )) is Some implies {
                                    let (child, kind) = shared_pair(start.nodes@, top as int, incoming, j).unwrap();
                                    &&& node_kind(start.nodes@[child as int]) == NodeKind::Object
                                    &&& kind == NodeKind::Object
                                } by {
                                let children = object_children(start.nodes@[top as int]);
                                let key = incoming_entry_kinds(incoming)[j].0;
                                lemma_lookup_entry(children, key);
                                let pair = shared_pair(start.nodes@, top as int, incoming, j).unwrap();
                                let e = choose|e: int| 0 <= e < children.len() && #[trigger] children[e].0@ == key && children[e].1 == pair.0;
                                assert(children[e].1 < start.nodes@.len());
                                assert(!pending_pairs(before_pop).contains(pair));
                                assert(checked.contains(pair));
                            }
                        }
                    }
                    proof {
                        assert(pending_set(before_pop) =~= Set::<MergeItem<'a>>::empty());
                        assert(done.union(pending_set(before_pop)) =~= done);
                    }
                    break;
                },
            };
            proof {
                assert(pending@ =~= before_pop.drop_last());
                assert(item == before_pop.last());
                assert(item == before_pop[before_pop.len() - 1]);
            }
            let (target, incoming_node, location, level, target_path) = item;
            let ghost first = !top_done;
            let existing_kind = self.nodes[target].kind();
            let incoming_kind = incoming_node.kind();
            proof {
                lemma_object_name_unique(existing_kind);
                lemma_object_name_unique(incoming_kind);
            }
            if existing_kind != NodeKind::Object || incoming_kind != NodeKind::Object {
                return Err(conflict(target_path.as_str(), existing_kind.name(), incoming_kind.name()));
            }
            proof {
                let ghost popped = (target, incoming_kind);
                checked = checked.insert(popped);
                if (target as int) < start.nodes@.len() {
                    assert(node_kind(start.nodes@[target as int]) == node_kind(self.nodes@[target as int]));
                }
                if top_done && start.nodes@[top as int] is Object {
                    assert forall|j: int|
                        0 <= j < incoming_entry_kinds(incoming).len() && (#[trigger] shared_pair(
                            start.nodes@,
                            top as int,
                            incoming,
                            j,
                        )) is Some implies pending_pairs(pending@).contains(
                        shared_pair(start.nodes@, top as int, incoming, j).unwrap(),
                    ) || checked.contains(shared_pair(start.nodes@, top as int, incoming, j).unwrap()) by {
                        let pair = shared_pair(start.nodes@, top as int, incoming, j).unwrap();
                        if pending_pairs(before_pop).contains(pair) {
                            let q = choose|q: int| 0 <= q < pending_pairs(before_pop).len() && pending_pairs(before_pop)[q] == pair;
                            if q < before_pop.len() - 1 {
                                assert(pending_pairs(pending@)[q] == pair);
                            } else {
                                assert(pair == popped);
                            }
                        }
                    }
                }
            }
            let ghost before_expand = *self;
            match self.expand_object(target, level, capacity, target_path.as_str()) {
                Ok(()) => {},
                Err(error) => {
                    proof { lemma_extends_trans(start.nodes@, before_expand.nodes@, self.nodes@); }
                    assert(self.origins().take(start.nodes@.len() as int) =~= before_expand.origins().take(start.nodes@.len() as int));
                    return Err(error);
                },
            }
            proof {
                lemma_extends_trans(start.nodes@, before_expand.nodes@, self.nodes@);
                assert(self.origins().take(start.nodes@.len() as int) =~= before_expand.origins().take(start.nodes@.len() as int));
                if !top_done {
                    assert(target == top);
                    assert(incoming_node == incoming);
                } else {
                    lemma_keys_below_extends(before_expand.nodes@, self.nodes@, top as int, top_keys);
                }
                top_done = true;
                assert forall|q: int| 0 <= q < pending@.len() implies (#[trigger] pending@[q]).0 < self.nodes@.len() by {
                    assert(pending@[q] == before_pop[q]);
                }
                assert(before_pop =~= pending@.push((target, incoming_node, location, level, target_path)));
                lemma_pending_push(pending@, (target, incoming_node, location, level, target_path));
                if first {
                    assert(before_pop[0] == before_pop[before_pop.len() - 1]);
                    assert(place_of(location) == top_place);
                }
                let known = done.insert((target, incoming_node, place_of(location))).union(pending_set(pending@));
                assert(done.union(pending_set(before_pop)) =~= known);
                lemma_all_merged_grows(
                    before_expand.nodes@, start.nodes@,
                    before_expand.origins(),
                    self.nodes@,
                    self.origins(),
                    done,
                    known,
                    known,
                );
            }
            let ghost rest_weight = pending_weight(pending@);
            match incoming_node {
                ReadNode::Json(value) => {
                    let value: &'a JsonValue = value;
                    match value {
                        JsonValue::Object(entries) => {
                            proof {
                                assert(fresh_case ==> first);
                                if first && fresh_case {
                                    assert(*capacity == start_capacity);
                                    assert(self.nodes@ == start.nodes@);
                                    assert(key_sizes.skip(0) =~= key_sizes);
                                    assert forall|j: int| 0 <= j < entries@.len() implies (#[trigger] lookup_child(
                                        object_children(self.nodes@[top as int]),
                                        incoming_entry_kinds(incoming)[j].0,
                                    )) is None by {
                                        assert(shared_pair(start.nodes@, id as int, incoming, j) is None);
                                    }
                                }
                            }
                            let mut k: usize = 0;
                            while k < entries.len()
                                invariant
                                    self.index_wf(),
                                    self.same_frame(&start),
                                    capacity.limits == start_capacity.limits,
                                    arena_extends(start.nodes@, self.nodes@),
                                    self.origins().take(start.nodes@.len() as int) == start.origins(),
                                    top < start.nodes@.len(),
                                    top_done,
                                    location.property_index <= self.properties().len(),
                                    start == *old(self),
                                    start_capacity == *old(capacity),
                                    top == id,
                                    top_path == path@,
                                    node_kind(start.nodes@[top as int]) == NodeKind::Object && node_kind(incoming) == NodeKind::Object,
                                    self.nodes@[top as int] is Object,
                                    target < self.nodes@.len(),
                                    self.nodes@[target as int] is Object,
                                    json_wf(*value),
                                    *value == JsonValue::Object(*entries),
                                    incoming_node == ReadNode::Json(value),
                                    first ==> target == top && incoming_node == incoming,
                                    first ==> keys_below(self.nodes@, top as int, incoming_keys(incoming_node).take(k as int)),
                                    !first ==> keys_below(self.nodes@, top as int, top_keys),
                                    top_keys == incoming_keys(incoming),
                                    incoming_keys(incoming_node) == json_keys(entries@),
                                    forall|p: (NodeId, NodeKind)| #[trigger] checked.contains(p) ==> p.1 == NodeKind::Object && (p.0
                                        < start.nodes@.len() ==> node_kind(start.nodes@[p.0 as int]) == NodeKind::Object),
                                    !first && start.nodes@[top as int] is Object ==> shared_tracked(
                                        start.nodes@,
                                        top as int,
                                        incoming,
                                        pending_pairs(pending@),
                                        checked,
                                        incoming_entry_kinds(incoming).len() as int,
                                    ),
                                    first && start.nodes@[top as int] is Object ==> shared_tracked(
                                        start.nodes@,
                                        top as int,
                                        incoming,
                                        pending_pairs(pending@),
                                        checked,
                                        k as int,
                                    ),
                                    first ==> incoming_entry_kinds(incoming).len() == entries@.len(),
                                    first ==> level == top_depth && target_path@ == top_path,
                                    top_depth == depth,
                                    key_sizes == incoming_key_sizes(incoming),
                                    child_depth == grown_count(depth as nat),
                                    start_count == object_children(start.nodes@[id as int]).len(),
                                    forall|p: int| 0 <= p < top ==> #[trigger] self.nodes@[p] == start.nodes@[p],
                                    forall|q: int| 0 <= q < pending@.len() ==> (#[trigger] pending@[q]).0 >= top,
                                    target >= top,
                                    all_merged(self.nodes@, self.origins(), start.nodes@, done, done.insert((target, incoming_node, place_of(location))).union(pending_set(pending@))),
                                    merged_upto(self.nodes@, self.origins(), start.nodes@, target, incoming_node, place_of(location), k as int, done.insert((target, incoming_node, place_of(location))).union(pending_set(pending@))),
                                    first ==> done == Set::<MergeItem<'a>>::empty() && place_of(location) == top_place,
                                    !first ==> done.contains((top, incoming, top_place)),
                                    fresh_case ==> first,
                                    first && fresh_case ==> {
                                        &&& pending@.len() == 0
                                        &&& fresh_entries_refusal(start_capacity, start_count, key_sizes, child_depth) == fresh_entries_refusal(
                                            *capacity,
                                            object_children(self.nodes@[top as int]).len(),
                                            key_sizes.skip(k as int),
                                            child_depth,
                                        )
                                        &&& forall|j: int|
                                            k <= j < entries@.len() ==> (#[trigger] lookup_child(
                                                object_children(self.nodes@[top as int]),
                                                incoming_entry_kinds(incoming)[j].0,
                                            )) is None
                                    },
                                    fresh_case == (start.nodes@[id as int] is Object && node_kind(incoming) == NodeKind::Object && (forall|j: int|
                                        0 <= j < incoming_entry_kinds(incoming).len() ==> (#[trigger] shared_pair(start.nodes@, id as int, incoming, j))
                                            is None)),
                                    k <= entries@.len(),
                                    forall|q: int| 0 <= q < pending@.len() ==> {
                                        &&& (#[trigger] pending@[q]).0 < self.nodes@.len()
                                        &&& node_payload_wf(pending@[q].1)
                                        &&& pending@[q].1 !is Object
                                        &&& pending@[q].2.property_index <= self.properties().len()
                                    },
                                    pending_weight(pending@) <= rest_weight + entries_weight(entries@.take(k as int)),
                                decreases entries@.len() - k,
                            {
                                let entry = &entries[k];
                                let key: &'a String = &entry.0;
                                let child_value: &'a JsonValue = &entry.1;
                                proof {
                                    lemma_entries_weight_take(entries@, k as int);
                                    assert(json_wf(entries@[k as int].1));
                                }
                                let key_chars = chars_of(key.as_str());
                                let (slot, count) = self.object_slot(target, &key_chars);
                                let ghost before = *self;
                                let ghost cap_before = *capacity;
                                match slot {
                                    ChildSlot::Vacant(_) => {
                                        proof {
                                            if first && fresh_case {
                                                lemma_fresh_step(cap_before, count as nat, key_sizes, k as int, child_depth);
                                                assert(count.saturating_add(1) as nat == grown_count(count as nat));
                                                assert(object_children(self.nodes@[top as int]).len() == count);
                                                assert(key_sizes[k as int] == utf8_len(key@) as nat);
                                                assert(incoming_entry_kinds(incoming)[k as int].0 == key@);
                                            }
                                        }
                                        match capacity.entries(count.saturating_add(1), target_path.as_str()) {
                                            Ok(()) => {},
                                            Err(error) => {
                                                proof {
                                                    if first && fresh_case {
                                                        assert(fresh_entries_refusal(cap_before, count as nat, key_sizes.skip(k as int), child_depth) == leaf_refusal(cap_before, count as nat, key_sizes[k as int], child_depth));
                                                        assert(fresh_entries_refusal(start_capacity, start_count, key_sizes, child_depth) == leaf_refusal(cap_before, count as nat, key_sizes[k as int], child_depth));
                                                        assert(target_path@ == path@);
                                                    }
                                                }
                                                return Err(error);
                                            },
                                        }
                                        match capacity.key(key.as_str().len(), target_path.as_str()) {
                                            Ok(()) => {},
                                            Err(error) => return Err(error),
                                        }
                                    },
                                    ChildSlot::Found(_) => {},
                                }
                                let child_origin = location.child(SourceSegment::Key(key.clone()));
                                match slot {
                                    ChildSlot::Found(pos) => {
                                        proof {
                                            if first && fresh_case {
                                                assert(incoming_entry_kinds(incoming)[k as int].0 == key@);
                                                lemma_lookup_sorted(object_children(self.nodes@[target as int]), key@);
                                                assert(false);
                                            }
                                        }
                                        let child = self.object_child(target, pos);
                                        let child_path = child_key(target_path.as_str(), key.as_str());
                                        let ghost old_pending = pending@;
                                        pending.push((child, ReadNode::Json(child_value), child_origin, level.saturating_add(1), child_path));
                                        proof {
                                            assert(has_child(object_children(self.nodes@[target as int]), key@, child));
                                            lemma_key_present(self.nodes@, target as int, key@, child);
                                            lemma_extends_refl(self.nodes@);
                                        }
                                        proof {
                                            assert(pending@.drop_last() =~= old_pending);
                                            assert forall|q: int| 0 <= q < pending@.len() implies {
                                                &&& (#[trigger] pending@[q]).0 < self.nodes@.len()
                                                &&& node_payload_wf(pending@[q].1)
                                                &&& pending@[q].1 !is Object
                                                &&& pending@[q].2.property_index <= self.properties().len()
                                            } by {
                                                if q < old_pending.len() {
                                                    assert(pending@[q] == old_pending[q]);
                                                }
                                            }
                                        }
                                        proof {
                                            let queued = (child, node_kind(ReadNode::Json(child_value)));
                                            assert(pending_pairs(pending@) =~= pending_pairs(old_pending).push(queued));
                                            if start.nodes@[top as int] is Object {
                                                if first {
                                                    lemma_child_kept(start.nodes@, before.nodes@, top as int, key@);
                                                    lemma_lookup_sorted(object_children(before.nodes@[target as int]), key@);
                                                    assert(incoming_entry_kinds(incoming)[k as int] == (key@, json_kind(*child_value)));
                                                    lemma_track_push(start.nodes@, top as int, incoming, pending_pairs(old_pending), checked, k as int, queued);
                                                } else {
                                                    lemma_track_push(
                                                        start.nodes@,
                                                        top as int,
                                                        incoming,
                                                        pending_pairs(old_pending),
                                                        checked,
                                                        incoming_entry_kinds(incoming).len() as int,
                                                        queued,
                                                    );
                                                }
                                            }
                                        }
                                    proof {
                                            let x = (target, incoming_node, place_of(location));
                                            let known_before = done.insert(x).union(pending_set(old_pending));
                                            let last = pending@[pending@.len() - 1];
                                            assert(pending@ =~= old_pending.push(last));
                                            lemma_pending_push(old_pending, last);
                                            let known_after = done.insert(x).union(pending_set(pending@));
                                            assert(known_before.subset_of(known_after));
                                            lemma_extends_refl(self.nodes@);
                                            assert(self.origins().take(self.nodes@.len() as int) =~= self.origins());
                                            lemma_all_merged_grows(self.nodes@, start.nodes@, self.origins(), self.nodes@, self.origins(), done, known_before, known_after);
                                            lemma_merged_upto_grows(
                                                self.nodes@, start.nodes@,
                                                self.origins(),
                                                self.nodes@,
                                                self.origins(),
                                                target,
                                                incoming_node,
                                                place_of(location),
                                                k as int,
                                                known_before,
                                                known_after,
                                            );
                                            assert(segments_view(last.2.segments@) =~= segments_view(location.segments@).push(SegmentView::Key(key@)));
                                            assert(incoming_entry_kinds(incoming_node)[k as int].0 == key@);
                                            assert(incoming_child(incoming_node, k as int) == ReadNode::Json(child_value));
                                            assert(known_after.contains((child, incoming_child(incoming_node, k as int), child_place(place_of(location), key@))));
                                            lemma_lookup_sorted(object_children(self.nodes@[target as int]), key@);
                                            if (target as int) < start.nodes@.len() {
                                                lemma_child_kept(start.nodes@, self.nodes@, target as int, key@);
                                            }
                                            assert(child_merged(self.nodes@, self.origins(), start.nodes@, target, incoming_node, place_of(location), k as int, known_after));
                                            assert forall|j: int| 0 <= j < k + 1 implies #[trigger] child_merged(
                                                self.nodes@,
                                                self.origins(), start.nodes@,
                                                target,
                                                incoming_node,
                                                place_of(location),
                                                j,
                                                known_after,
                                            ) by {}
                                        }
                                    },
                                    ChildSlot::Vacant(pos) => {
                                        let ghost origin_place = place_of(child_origin);
                                        let child = match self.push(ReadNode::Json(child_value), Some(child_origin), level.saturating_add(1), capacity, target_path.as_str()) {
                                            Ok(child) => child,
                                            Err(error) => return Err(error),
                                        };
                                        proof {
                                            assert(self.nodes@[target as int] == before.nodes@[target as int]);
                                            assert(self.nodes@.take(before.nodes@.len() as int) =~= before.nodes@);
                                    lemma_extends_prefix(before.nodes@, self.nodes@);
                                        }
                                        let ghost pushed = *self;
                                        let key_copy = key.clone();
                                        let ghost entry = (key_copy, child);
                                        self.attach_child(target, pos, key_copy, child);
                                        proof {
                                            lemma_extends_trans(before.nodes@, pushed.nodes@, self.nodes@);
                                            lemma_key_present(self.nodes@, target as int, key@, child);
                                            lemma_extends_trans(start.nodes@, before.nodes@, self.nodes@);
                                            assert(self.origins().take(start.nodes@.len() as int) =~= before.origins().take(start.nodes@.len() as int));
                                        }
                                        proof {
                                            if first && start.nodes@[top as int] is Object {
                                                lemma_child_kept(start.nodes@, before.nodes@, top as int, key@);
                                                lemma_vacant_absent(object_children(before.nodes@[target as int]), key@, pos as int);
                                                assert(incoming_entry_kinds(incoming)[k as int].0 == key@);
                                                lemma_track_skip(start.nodes@, top as int, incoming, pending_pairs(pending@), checked, k as int);
                                            }
                                        }
                                        proof {
                                            if first && fresh_case {
                                                assert(*capacity == after_node(after_key(cap_before, key_sizes[k as int])));
                                                assert(object_children(pushed.nodes@[target as int]) == object_children(before.nodes@[target as int]));
                                                assert forall|j: int| k + 1 <= j < entries@.len() implies (#[trigger] lookup_child(
                                                    object_children(self.nodes@[top as int]),
                                                    incoming_entry_kinds(incoming)[j].0,
                                                )) is None by {
                                                    assert(entries@[j].0@ != entries@[k as int].0@);
                                                    assert(incoming_entry_kinds(incoming)[j].0 == entries@[j].0@);
                                                    assert(lookup_child(object_children(before.nodes@[top as int]), incoming_entry_kinds(incoming)[j].0) is None);
                                                    lemma_lookup_insert_absent(object_children(pushed.nodes@[target as int]), pos as int, entry, incoming_entry_kinds(incoming)[j].0);
                                                }
                                            }
                                        }
                                        proof {
                                            let x = (target, incoming_node, place_of(location));
                                            let known = done.insert(x).union(pending_set(pending@));
                                            assert(self.origins().take(before.nodes@.len() as int) =~= before.origins());
                                            lemma_all_merged_grows(before.nodes@, start.nodes@, before.origins(), self.nodes@, self.origins(), done, known, known);
                                            lemma_merged_upto_grows(
                                                before.nodes@, start.nodes@,
                                                before.origins(),
                                                self.nodes@,
                                                self.origins(),
                                                target,
                                                incoming_node,
                                                place_of(location),
                                                k as int,
                                                known,
                                                known,
                                            );
                                            let cs = object_children(self.nodes@[target as int]);
                                            lemma_lookup_sorted(cs, key@);
                                            let jj = choose|jj: int| 0 <= jj < cs.len() && #[trigger] cs[jj].0@ == key@ && cs[jj].1 == child;
                                            assert(lookup_child(cs, key@) == Some(child));
                                            assert(self.origins()[child as int] == pushed.origins()[child as int]);
                                            assert(place_of_origin(self.origins()[child as int]) == Some(origin_place));
                                            assert(origin_place.1 =~= segments_view(location.segments@).push(SegmentView::Key(key@)));
                                            assert(self.nodes@[child as int] == pushed.nodes@[child as int]);
                                            assert(incoming_entry_kinds(incoming_node)[k as int].0 == key@);
                                            assert(incoming_child(incoming_node, k as int) == ReadNode::Json(child_value));
                                            if (target as int) < start.nodes@.len() {
                                                lemma_child_kept(start.nodes@, before.nodes@, target as int, key@);
                                                lemma_vacant_absent(object_children(before.nodes@[target as int]), key@, pos as int);
                                            }
                                            assert(child_merged(self.nodes@, self.origins(), start.nodes@, target, incoming_node, place_of(location), k as int, known));
                                            assert forall|j: int| 0 <= j < k + 1 implies #[trigger] child_merged(
                                                self.nodes@,
                                                self.origins(), start.nodes@,
                                                target,
                                                incoming_node,
                                                place_of(location),
                                                j,
                                                known,
                                            ) by {}
                                        }
                                    },
                                }
                                proof {
                                    assert(resolve(self.nodes@, target as int, seq![key@]) is Some);
                                    assert(arena_extends(before.nodes@, self.nodes@));
                                    if first {
                                        let keys = incoming_keys(incoming_node);
                                        assert(keys[k as int] == key@);
                                        assert(keys.take(k + 1) =~= keys.take(k as int).push(key@));
                                        lemma_keys_below_extends(before.nodes@, self.nodes@, top as int, keys.take(k as int));
                                        assert(keys_below(self.nodes@, top as int, keys.take(k + 1)));
                                    } else {
                                        lemma_keys_below_extends(before.nodes@, self.nodes@, top as int, top_keys);
                                    }
                                }
                                k = k + 1;
                            }
                            proof {
                                assert(entries@.take(entries@.len() as int) =~= entries@);
                                assert(incoming_keys(incoming_node).take(entries@.len() as int) =~= incoming_keys(incoming_node));
                            }
                            proof {
                                let x = (target, incoming_node, place_of(location));
                                let known = done.insert(x).union(pending_set(pending@));
                                assert(checked.contains((target, incoming_kind)));
                                assert(merge_done(self.nodes@, self.origins(), start.nodes@, x, known));
                                let grown = done.insert(x);
                                assert(grown.union(pending_set(pending@)) =~= known);
                                assert forall|item: MergeItem<'a>| #[trigger] grown.contains(item) implies merge_done(
                                    self.nodes@,
                                    self.origins(), start.nodes@,
                                    item,
                                    known,
                                ) by {}
                                done = grown;
                            }
                        },
                        _ => {
                            proof { reveal_strlit("object"); }
                            return Err(conflict(target_path.as_str(), "object", incoming_kind.name()));
                        },
                    }
                },
                ReadNode::StringMap(entries) => {
                    let entries: &'a Vec<(String, String)> = entries;
                    proof {
                        assert(fresh_case ==> first);
                        if first && fresh_case {
                            assert(*capacity == start_capacity);
                            assert(self.nodes@ == start.nodes@);
                            assert(key_sizes.skip(0) =~= key_sizes);
                            assert forall|j: int| 0 <= j < entries@.len() implies (#[trigger] lookup_child(
                                object_children(self.nodes@[top as int]),
                                incoming_entry_kinds(incoming)[j].0,
                            )) is None by {
                                assert(shared_pair(start.nodes@, id as int, incoming, j) is None);
                            }
                        }
                    }
                    let mut k: usize = 0;
                    while k < entries.len()
                        invariant
                            self.index_wf(),
                            self.same_frame(&start),
                            capacity.limits == start_capacity.limits,
                            arena_extends(start.nodes@, self.nodes@),
                            self.origins().take(start.nodes@.len() as int) == start.origins(),
                            top < start.nodes@.len(),
                            top_done,
                            location.property_index <= self.properties().len(),
                            start == *old(self),
                            start_capacity == *old(capacity),
                            top == id,
                            top_path == path@,
                            node_kind(start.nodes@[top as int]) == NodeKind::Object && node_kind(incoming) == NodeKind::Object,
                            self.nodes@[top as int] is Object,
                            target < self.nodes@.len(),
                            self.nodes@[target as int] is Object,
                            k <= entries@.len(),
                            first ==> target == top && incoming_node == incoming,
                            first ==> keys_below(self.nodes@, top as int, incoming_keys(incoming_node).take(k as int)),
                            !first ==> keys_below(self.nodes@, top as int, top_keys),
                            top_keys == incoming_keys(incoming),
                            incoming_keys(incoming_node) == text_keys(entries@),
                            incoming_node == ReadNode::StringMap(entries),
                            distinct_keys(entries@),
                            forall|p: (NodeId, NodeKind)| #[trigger] checked.contains(p) ==> p.1 == NodeKind::Object && (p.0
                                < start.nodes@.len() ==> node_kind(start.nodes@[p.0 as int]) == NodeKind::Object),
                            !first && start.nodes@[top as int] is Object ==> shared_tracked(
                                start.nodes@,
                                top as int,
                                incoming,
                                pending_pairs(pending@),
                                checked,
                                incoming_entry_kinds(incoming).len() as int,
                            ),
                            first && start.nodes@[top as int] is Object ==> shared_tracked(
                                start.nodes@,
                                top as int,
                                incoming,
                                pending_pairs(pending@),
                                checked,
                                k as int,
                            ),
                            first ==> incoming_entry_kinds(incoming).len() == entries@.len(),
                            first ==> level == top_depth && target_path@ == top_path,
                            top_depth == depth,
                            key_sizes == incoming_key_sizes(incoming),
                            child_depth == grown_count(depth as nat),
                            start_count == object_children(start.nodes@[id as int]).len(),
                            forall|p: int| 0 <= p < top ==> #[trigger] self.nodes@[p] == start.nodes@[p],
                            forall|q: int| 0 <= q < pending@.len() ==> (#[trigger] pending@[q]).0 >= top,
                            target >= top,
                            all_merged(self.nodes@, self.origins(), start.nodes@, done, done.insert((target, incoming_node, place_of(location))).union(pending_set(pending@))),
                            merged_upto(self.nodes@, self.origins(), start.nodes@, target, incoming_node, place_of(location), k as int, done.insert((target, incoming_node, place_of(location))).union(pending_set(pending@))),
                            first ==> done == Set::<MergeItem<'a>>::empty() && place_of(location) == top_place,
                            !first ==> done.contains((top, incoming, top_place)),
                            fresh_case ==> first,
                            first && fresh_case ==> {
                                &&& pending@.len() == 0
                                &&& fresh_entries_refusal(start_capacity, start_count, key_sizes, child_depth) == fresh_entries_refusal(
                                    *capacity,
                                    object_children(self.nodes@[top as int]).len(),
                                    key_sizes.skip(k as int),
                                    child_depth,
                                )
                                &&& forall|j: int|
                                    k <= j < entries@.len() ==> (#[trigger] lookup_child(
                                        object_children(self.nodes@[top as int]),
                                        incoming_entry_kinds(incoming)[j].0,
                                    )) is None
                            },
                            fresh_case == (start.nodes@[id as int] is Object && node_kind(incoming) == NodeKind::Object && (forall|j: int|
                                0 <= j < incoming_entry_kinds(incoming).len() ==> (#[trigger] shared_pair(start.nodes@, id as int, incoming, j))
                                    is None)),
                            forall|q: int| 0 <= q < pending@.len() ==> {
                                &&& (#[trigger] pending@[q]).0 < self.nodes@.len()
                                &&& node_payload_wf(pending@[q].1)
                                &&& pending@[q].1 !is Object
                                &&& pending@[q].2.property_index <= self.properties().len()
                            },
                            pending_weight(pending@) <= rest_weight + k,
                        decreases entries@.len() - k,
                    {
                        let entry = &entries[k];
                        let key: &'a String = &entry.0;
                        let text: &'a String = &entry.1;
                        let key_chars = chars_of(key.as_str());
                        let (slot, count) = self.object_slot(target, &key_chars);
                        let ghost before = *self;
                        let ghost cap_before = *capacity;
                        match slot {
                            ChildSlot::Vacant(_) => {
                                proof {
                                    if first && fresh_case {
                                        lemma_fresh_step(cap_before, count as nat, key_sizes, k as int, child_depth);
                                        assert(count.saturating_add(1) as nat == grown_count(count as nat));
                                        assert(object_children(self.nodes@[top as int]).len() == count);
                                        assert(key_sizes[k as int] == utf8_len(key@) as nat);
                                        assert(incoming_entry_kinds(incoming)[k as int].0 == key@);
                                    }
                                }
                                match capacity.entries(count.saturating_add(1), target_path.as_str()) {
                                    Ok(()) => {},
                                    Err(error) => {
                                        proof {
                                            if first && fresh_case {
                                                assert(fresh_entries_refusal(cap_before, count as nat, key_sizes.skip(k as int), child_depth) == leaf_refusal(cap_before, count as nat, key_sizes[k as int], child_depth));
                                                assert(fresh_entries_refusal(start_capacity, start_count, key_sizes, child_depth) == leaf_refusal(cap_before, count as nat, key_sizes[k as int], child_depth));
                                                assert(target_path@ == path@);
                                            }
                                        }
                                        return Err(error);
                                    },
                                }
                                match capacity.key(key.as_str().len(), target_path.as_str()) {
                                    Ok(()) => {},
                                    Err(error) => return Err(error),
                                }
                            },
                            ChildSlot::Found(_) => {},
                        }
                        let child_origin = location.child(SourceSegment::Key(key.clone()));
                        match slot {
                            ChildSlot::Found(pos) => {
                                proof {
                                    if first && fresh_case {
                                        assert(incoming_entry_kinds(incoming)[k as int].0 == key@);
                                        lemma_lookup_sorted(object_children(self.nodes@[target as int]), key@);
                                        assert(false);
                                    }
                                }
                                let child = self.object_child(target, pos);
                                let child_path = child_key(target_path.as_str(), key.as_str());
                                let ghost old_pending = pending@;
                                pending.push((child, ReadNode::Text(text), child_origin, level.saturating_add(1), child_path));
                                proof {
                                    assert(has_child(object_children(self.nodes@[target as int]), key@, child));
                                    lemma_key_present(self.nodes@, target as int, key@, child);
                                    lemma_extends_refl(self.nodes@);
                                }
                                proof {
                                    assert(pending@.drop_last() =~= old_pending);
                                    assert forall|q: int| 0 <= q < pending@.len() implies {
                                        &&& (#[trigger] pending@[q]).0 < self.nodes@.len()
                                        &&& node_payload_wf(pending@[q].1)
                                        &&& pending@[q].1 !is Object
                                        &&& pending@[q].2.property_index <= self.properties().len()
                                    } by {
                                        if q < old_pending.len() {
                                            assert(pending@[q] == old_pending[q]);
                                        }
                                    }
                                }
                                proof {
                                    let queued = (child, node_kind(ReadNode::Text(text)));
                                    assert(pending_pairs(pending@) =~= pending_pairs(old_pending).push(queued));
                                    if start.nodes@[top as int] is Object {
                                        if first {
                                            lemma_child_kept(start.nodes@, before.nodes@, top as int, key@);
                                            lemma_lookup_sorted(object_children(before.nodes@[target as int]), key@);
                                            assert(incoming_entry_kinds(incoming)[k as int] == (key@, NodeKind::String));
                                            lemma_track_push(start.nodes@, top as int, incoming, pending_pairs(old_pending), checked, k as int, queued);
                                        } else {
                                            lemma_track_push(
                                                start.nodes@,
                                                top as int,
                                                incoming,
                                                pending_pairs(old_pending),
                                                checked,
                                                incoming_entry_kinds(incoming).len() as int,
                                                queued,
                                            );
                                        }
                                    }
                                }
                            proof {
                                    let x = (target, incoming_node, place_of(location));
                                    let known_before = done.insert(x).union(pending_set(old_pending));
                                    let last = pending@[pending@.len() - 1];
                                    assert(pending@ =~= old_pending.push(last));
                                    lemma_pending_push(old_pending, last);
                                    let known_after = done.insert(x).union(pending_set(pending@));
                                    assert(known_before.subset_of(known_after));
                                    lemma_extends_refl(self.nodes@);
                                    assert(self.origins().take(self.nodes@.len() as int) =~= self.origins());
                                    lemma_all_merged_grows(self.nodes@, start.nodes@, self.origins(), self.nodes@, self.origins(), done, known_before, known_after);
                                    lemma_merged_upto_grows(
                                        self.nodes@, start.nodes@,
                                        self.origins(),
                                        self.nodes@,
                                        self.origins(),
                                        target,
                                        incoming_node,
                                        place_of(location),
                                        k as int,
                                        known_before,
                                        known_after,
                                    );
                                    assert(segments_view(last.2.segments@) =~= segments_view(location.segments@).push(SegmentView::Key(key@)));
                                    assert(incoming_entry_kinds(incoming_node)[k as int].0 == key@);
                                    assert(incoming_child(incoming_node, k as int) == ReadNode::Text(text));
                                    assert(known_after.contains((child, incoming_child(incoming_node, k as int), child_place(place_of(location), key@))));
                                    lemma_lookup_sorted(object_children(self.nodes@[target as int]), key@);
                                    if (target as int) < start.nodes@.len() {
                                        lemma_child_kept(start.nodes@, self.nodes@, target as int, key@);
                                    }
                                    assert(child_merged(self.nodes@, self.origins(), start.nodes@, target, incoming_node, place_of(location), k as int, known_after));
                                    assert forall|j: int| 0 <= j < k + 1 implies #[trigger] child_merged(
                                        self.nodes@,
                                        self.origins(), start.nodes@,
                                        target,
                                        incoming_node,
                                        place_of(location),
                                        j,
                                        known_after,
                                    ) by {}
                                }
                            },
                            ChildSlot::Vacant(pos) => {
                                let ghost origin_place = place_of(child_origin);
                                let child = match self.push(ReadNode::Text(text), Some(child_origin), level.saturating_add(1), capacity, target_path.as_str()) {
                                    Ok(child) => child,
                                    Err(error) => return Err(error),
                                };
                                proof {
                                    assert(self.nodes@[target as int] == before.nodes@[target as int]);
                                    assert(self.nodes@.take(before.nodes@.len() as int) =~= before.nodes@);
                                    lemma_extends_prefix(before.nodes@, self.nodes@);
                                }
                                let ghost pushed = *self;
                                let key_copy = key.clone();
                                let ghost entry = (key_copy, child);
                                self.attach_child(target, pos, key_copy, child);
                                proof {
                                    lemma_extends_trans(before.nodes@, pushed.nodes@, self.nodes@);
                                    lemma_key_present(self.nodes@, target as int, key@, child);
                                    lemma_extends_trans(start.nodes@, before.nodes@, self.nodes@);
                                    assert(self.origins().take(start.nodes@.len() as int) =~= before.origins().take(start.nodes@.len() as int));
                                }
                                proof {
                                    if first && start.nodes@[top as int] is Object {
                                        lemma_child_kept(start.nodes@, before.nodes@, top as int, key@);
                                        lemma_vacant_absent(object_children(before.nodes@[target as int]), key@, pos as int);
                                        assert(incoming_entry_kinds(incoming)[k as int].0 == key@);
                                        lemma_track_skip(start.nodes@, top as int, incoming, pending_pairs(pending@), checked, k as int);
                                    }
                                }
                                proof {
                                    if first && fresh_case {
                                        assert(*capacity == after_node(after_key(cap_before, key_sizes[k as int])));
                                        assert(object_children(pushed.nodes@[target as int]) == object_children(before.nodes@[target as int]));
                                        assert forall|j: int| k + 1 <= j < entries@.len() implies (#[trigger] lookup_child(
                                            object_children(self.nodes@[top as int]),
                                            incoming_entry_kinds(incoming)[j].0,
                                        )) is None by {
                                            assert(entries@[j].0@ != entries@[k as int].0@);
                                            assert(incoming_entry_kinds(incoming)[j].0 == entries@[j].0@);
                                            assert(lookup_child(object_children(before.nodes@[top as int]), incoming_entry_kinds(incoming)[j].0) is None);
                                            lemma_lookup_insert_absent(object_children(pushed.nodes@[target as int]), pos as int, entry, incoming_entry_kinds(incoming)[j].0);
                                        }
                                    }
                                }
                                proof {
                                    let x = (target, incoming_node, place_of(location));
                                    let known = done.insert(x).union(pending_set(pending@));
                                    assert(self.origins().take(before.nodes@.len() as int) =~= before.origins());
                                    lemma_all_merged_grows(before.nodes@, start.nodes@, before.origins(), self.nodes@, self.origins(), done, known, known);
                                    lemma_merged_upto_grows(
                                        before.nodes@, start.nodes@,
                                        before.origins(),
                                        self.nodes@,
                                        self.origins(),
                                        target,
                                        incoming_node,
                                        place_of(location),
                                        k as int,
                                        known,
                                        known,
                                    );
                                    let cs = object_children(self.nodes@[target as int]);
                                    lemma_lookup_sorted(cs, key@);
                                    let jj = choose|jj: int| 0 <= jj < cs.len() && #[trigger] cs[jj].0@ == key@ && cs[jj].1 == child;
                                    assert(lookup_child(cs, key@) == Some(child));
                                    assert(self.origins()[child as int] == pushed.origins()[child as int]);
                                    assert(place_of_origin(self.origins()[child as int]) == Some(origin_place));
                                    assert(origin_place.1 =~= segments_view(location.segments@).push(SegmentView::Key(key@)));
                                    assert(self.nodes@[child as int] == pushed.nodes@[child as int]);
                                    assert(incoming_entry_kinds(incoming_node)[k as int].0 == key@);
                                    assert(incoming_child(incoming_node, k as int) == ReadNode::Text(text));
                                    if (target as int) < start.nodes@.len() {
                                        lemma_child_kept(start.nodes@, before.nodes@, target as int, key@);
                                        lemma_vacant_absent(object_children(before.nodes@[target as int]), key@, pos as int);
                                    }
                                    assert(child_merged(self.nodes@, self.origins(), start.nodes@, target, incoming_node, place_of(location), k as int, known));
                                    assert forall|j: int| 0 <= j < k + 1 implies #[trigger] child_merged(
                                        self.nodes@,
                                        self.origins(), start.nodes@,
                                        target,
                                        incoming_node,
                                        place_of(location),
                                        j,
                                        known,
                                    ) by {}
                                }
                            },
                        }
                        proof {
                            assert(resolve(self.nodes@, target as int, seq![key@]) is Some);
                            assert(arena_extends(before.nodes@, self.nodes@));
                            if first {
                                let keys = incoming_keys(incoming_node);
                                assert(keys[k as int] == key@);
                                assert(keys.take(k + 1) =~= keys.take(k as int).push(key@));
                                lemma_keys_below_extends(before.nodes@, self.nodes@, top as int, keys.take(k as int));
                                assert(keys_below(self.nodes@, top as int, keys.take(k + 1)));
                            } else {
                                lemma_keys_below_extends(before.nodes@, self.nodes@, top as int, top_keys);
                            }
                        }
                        k = k + 1;
                    }
                    proof {
                        assert(incoming_keys(incoming_node).take(entries@.len() as int) =~= incoming_keys(incoming_node));
                    }
                    proof {
                        let x = (target, incoming_node, place_of(location));
                        let known = done.insert(x).union(pending_set(pending@));
                        assert(checked.contains((target, incoming_kind)));
                        assert(merge_done(self.nodes@, self.origins(), start.nodes@, x, known));
                        let grown = done.insert(x);
                        assert(grown.union(pending_set(pending@)) =~= known);
                        assert forall|item: MergeItem<'a>| #[trigger] grown.contains(item) implies merge_done(
                            self.nodes@,
                            self.origins(), start.nodes@,
                            item,
                            known,
                        ) by {}
                        done = grown;
                    }
                },
                other => {
                    proof { reveal_strlit("object"); }
                    return Err(conflict(target_path.as_str(), "object", other.kind().name()));
                },
            }
        }
        Ok(())
    }

    /// Indexes the entries of a borrowed JSON object as new children of
    /// one object, each charged for its key and node.
    fn add_json_children(
        &mut self,
        entries: &'a Vec<(String, JsonValue)>,
        origin: &Option<SourceLocation>,
        depth: usize,
        capacity: &mut IndexCapacity,
        path: &str,
    ) -> (result: Result<Vec<(String, NodeId)>, ConfigError>)
        requires
            old(self).index_wf(),
            *origin matches Some(location) ==> location.property_index <= old(self).properties().len(),
            *origin is Some,
            distinct_keys(entries@),
            forall|k: int| 0 <= k < entries@.len() ==> json_wf(#[trigger] entries@[k].1),
        ensures
            final(self).index_wf(),
            final(self).same_frame(old(self)),
            final(capacity).limits == old(capacity).limits,
            final(self).nodes@.len() >= old(self).nodes@.len(),
            final(self).nodes@.take(old(self).nodes@.len() as int) == old(self).nodes@,
            final(self).origins().take(old(self).nodes@.len() as int) == old(self).origins(),
            result is Err ==> result matches Err(ConfigError::Limit { .. }),
            match entry_charges_refusal(*old(capacity), json_key_sizes(entries@), depth.saturating_add(1) as nat) {
                Some(refusal) => result matches Err(error) && is_limit(error, path@, refusal),
                None => result is Ok,
            },
            result matches Ok(children) ==> {
                let base = old(self).nodes@.len();
                &&& final(self).nodes@.len() == base + entries@.len()
                &&& children@.len() == entries@.len()
                &&& sorted_keys(children@)
                &&& forall|k: int| 0 <= k < entries@.len() ==> has_child(children@, (#[trigger] entries@[k]).0@, (base + k) as NodeId)
                &&& forall|c: int| 0 <= c < children@.len() ==> base <= (#[trigger] children@[c]).1 < base + entries@.len()
                &&& forall|k: int| 0 <= k < entries@.len() ==> final(self).nodes@[base + k] == ReadNode::Json(&(#[trigger] entries@[k]).1)
                &&& forall|k: int| 0 <= k < entries@.len() ==> located_below(*origin, final(self).origins()[base + k], SourceSegment::Key((#[trigger] entries@[k]).0))
            },
    {
        let ghost base = self.nodes@.len();
        let ghost start = *self;
        let ghost start_capacity = *capacity;
        let ghost sizes = json_key_sizes(entries@);
        let ghost level = depth.saturating_add(1) as nat;
        assert(sizes.skip(0) =~= sizes);
        let mut children: Vec<(String, NodeId)> = Vec::new();
        let mut i: usize = 0;
        while i < entries.len()
            invariant
                self.index_wf(),
                self.same_frame(&start),
                start == *old(self),
                base == old(self).nodes@.len(),
                capacity.limits == old(capacity).limits,
                distinct_keys(entries@),
                forall|k: int| 0 <= k < entries@.len() ==> json_wf(#[trigger] entries@[k].1),
                i <= entries@.len(),
                *origin matches Some(location) ==> location.property_index <= self.properties().len(),
                *origin is Some,
                self.nodes@.len() == base + i,
                self.nodes@.take(base as int) == old(self).nodes@,
                self.origins().take(base as int) == old(self).origins(),
                children@.len() == i,
                start_capacity == *old(capacity),
                sizes == json_key_sizes(entries@),
                level == depth.saturating_add(1) as nat,
                entry_charges_refusal(start_capacity, sizes, level) == entry_charges_refusal(*capacity, sizes.skip(i as int), level),
                sorted_keys(children@),
                forall|k: int| 0 <= k < i ==> has_child(children@, (#[trigger] entries@[k]).0@, (base + k) as NodeId),
                forall|c: int| 0 <= c < children@.len() ==> exists|k: int| 0 <= k < i && (#[trigger] children@[c]).0@ == entries@[k].0@ && children@[c].1 == base + k,
                forall|c: int| 0 <= c < children@.len() ==> base <= (#[trigger] children@[c]).1 < base + i,
                forall|k: int| 0 <= k < i ==> self.nodes@[base + k] == ReadNode::Json(&(#[trigger] entries@[k]).1),
                forall|k: int| 0 <= k < i ==> located_below(*origin, self.origins()[base + k], SourceSegment::Key((#[trigger] entries@[k]).0)),
            decreases entries@.len() - i,
        {
            let entry = &entries[i];
            let key: &'a String = &entry.0;
            let value: &'a JsonValue = &entry.1;
            let ghost before_key = *capacity;
            proof {
                assert(sizes.skip(i as int)[0] == sizes[i as int]);
                assert(sizes.skip(i as int).drop_first() =~= sizes.skip(i + 1));
            }
            match capacity.key(key.as_str().len(), path) {
                Ok(()) => {},
                Err(error) => {
                    return Err(error);
                },
            }
            assert(*capacity == after_key(before_key, sizes[i as int]));
            let location = match origin {
                Some(parent) => Some(parent.child(SourceSegment::Key(key.clone()))),
                None => None,
            };
            let ghost before = *self;
            let child = match self.push(ReadNode::Json(value), location, depth.saturating_add(1), capacity, path) {
                Ok(child) => child,
                Err(error) => {
                    return Err(error);
                },
            };
            let key_chars = chars_of(key.as_str());
            match find_child(&children, &key_chars) {
                ChildSlot::Found(pos) => {
                    proof {
                        let k = choose|k: int| 0 <= k < i && (#[trigger] children@[pos as int]).0@ == entries@[k].0@ && children@[pos as int].1 == base + k;
                        assert(entries@[k].0@ == entries@[i as int].0@);
                        assert(false);
                    }
                },
                ChildSlot::Vacant(pos) => {
                    let ghost old_children = children@;
                    let owned_key = key.clone();
                    proof { lemma_insert_sorted(old_children, pos as int, (owned_key, child)); }
                    children.insert(pos, (owned_key, child));
                    proof {
                        assert forall|k: int| 0 <= k < i + 1 implies has_child(children@, (#[trigger] entries@[k]).0@, (base + k) as NodeId) by {
                            if k < i {
                                let j = choose|j: int| 0 <= j < old_children.len() && #[trigger] old_children[j].0@ == entries@[k].0@ && old_children[j].1 == base + k;
                                if j < pos {
                                    assert(children@[j] == old_children[j]);
                                } else {
                                    assert(children@[j + 1] == old_children[j]);
                                }
                            } else {
                                assert(children@[pos as int].0@ == entries@[k].0@);
                            }
                        }
                        assert forall|c: int| 0 <= c < children@.len() implies exists|k: int| 0 <= k < i + 1 && (#[trigger] children@[c]).0@ == entries@[k].0@ && children@[c].1 == base + k by {
                            if c < pos {
                                assert(children@[c] == old_children[c]);
                            } else if c > pos {
                                assert(children@[c] == old_children[c - 1]);
                            } else {
                                assert(children@[c].0@ == entries@[i as int].0@);
                            }
                        }
                        assert forall|c: int| 0 <= c < children@.len() implies base <= (#[trigger] children@[c]).1 < base + i + 1 by {
                            if c < pos {
                                assert(children@[c] == old_children[c]);
                            } else if c > pos {
                                assert(children@[c] == old_children[c - 1]);
                            }
                        }
                    }
                },
            }
            proof {
                assert(self.nodes@ == before.nodes@.push(ReadNode::Json(value)));
                assert(self.nodes@.take(base as int) =~= before.nodes@.take(base as int));
                assert(self.origins().take(base as int) =~= before.origins().take(base as int));
                assert forall|k: int| 0 <= k < i + 1 implies self.nodes@[base + k] == ReadNode::Json(&(#[trigger] entries@[k]).1) by {
                    if k < i {
                        assert(self.nodes@[base + k] == before.nodes@[base + k]);
                    }
                }
                assert forall|k: int| 0 <= k < i + 1 implies located_below(*origin, self.origins()[base + k], SourceSegment::Key((#[trigger] entries@[k]).0)) by {
                    if k < i {
                        assert(self.origins()[base + k] == before.origins()[base + k]);
                    }
                }
            }
            i = i + 1;
        }
        Ok(children)
    }

    /// Indexes the entries of a borrowed string map as new text children of
    /// one object, each charged for its key and node.
    #[verifier::rlimit(40)]
    fn add_map_children(
        &mut self,
        entries: &'a Vec<(String, String)>,
        origin: &Option<SourceLocation>,
        depth: usize,
        capacity: &mut IndexCapacity,
        path: &str,
    ) -> (result: Result<Vec<(String, NodeId)>, ConfigError>)
        requires
            old(self).index_wf(),
            *origin matches Some(location) ==> location.property_index <= old(self).properties().len(),
            *origin is Some,
            distinct_keys(entries@),
        ensures
            final(self).index_wf(),
            final(self).same_frame(old(self)),
            final(capacity).limits == old(capacity).limits,
            final(self).nodes@.len() >= old(self).nodes@.len(),
            final(self).nodes@.take(old(self).nodes@.len() as int) == old(self).nodes@,
            final(self).origins().take(old(self).nodes@.len() as int) == old(self).origins(),
            result is Err ==> result matches Err(ConfigError::Limit { .. }),
            match entry_charges_refusal(*old(capacity), text_key_sizes(entries@), depth.saturating_add(1) as nat) {
                Some(refusal) => result matches Err(error) && is_limit(error, path@, refusal),
                None => result is Ok,
            },
            result matches Ok(children) ==> {
                let base = old(self).nodes@.len();
                &&& final(self).nodes@.len() == base + entries@.len()
                &&& children@.len() == entries@.len()
                &&& sorted_keys(children@)
                &&& forall|k: int| 0 <= k < entries@.len() ==> has_child(children@, (#[trigger] entries@[k]).0@, (base + k) as NodeId)
                &&& forall|c: int| 0 <= c < children@.len() ==> base <= (#[trigger] children@[c]).1 < base + entries@.len()
                &&& forall|k: int| 0 <= k < entries@.len() ==> final(self).nodes@[base + k] == ReadNode::Text(&(#[trigger] entries@[k]).1)
                &&& forall|k: int| 0 <= k < entries@.len() ==> located_below(*origin, final(self).origins()[base + k], SourceSegment::Key((#[trigger] entries@[k]).0))
            },
    {
        let ghost base = self.nodes@.len();
        let ghost start = *self;
        let ghost start_capacity = *capacity;
        let ghost sizes = text_key_sizes(entries@);
        let ghost level = depth.saturating_add(1) as nat;
        assert(sizes.skip(0) =~= sizes);
        let mut children: Vec<(String, NodeId)> = Vec::new();
        let mut i: usize = 0;
        while i < entries.len()
            invariant
                self.index_wf(),
                self.same_frame(&start),
                start == *old(self),
                base == old(self).nodes@.len(),
                capacity.limits == old(capacity).limits,
                distinct_keys(entries@),
                    i <= entries@.len(),
                *origin matches Some(location) ==> location.property_index <= self.properties().len(),
                *origin is Some,
                self.nodes@.len() == base + i,
                self.nodes@.take(base as int) == old(self).nodes@,
                self.origins().take(base as int) == old(self).origins(),
                children@.len() == i,
                start_capacity == *old(capacity),
                sizes == text_key_sizes(entries@),
                level == depth.saturating_add(1) as nat,
                entry_charges_refusal(start_capacity, sizes, level) == entry_charges_refusal(*capacity, sizes.skip(i as int), level),
                sorted_keys(children@),
                forall|k: int| 0 <= k < i ==> has_child(children@, (#[trigger] entries@[k]).0@, (base + k) as NodeId),
                forall|c: int| 0 <= c < children@.len() ==> exists|k: int| 0 <= k < i && (#[trigger] children@[c]).0@ == entries@[k].0@ && children@[c].1 == base + k,
                forall|c: int| 0 <= c < children@.len() ==> base <= (#[trigger] children@[c]).1 < base + i,
                forall|k: int| 0 <= k < i ==> self.nodes@[base + k] == ReadNode::Text(&(#[trigger] entries@[k]).1),
                forall|k: int| 0 <= k < i ==> located_below(*origin, self.origins()[base + k], SourceSegment::Key((#[trigger] entries@[k]).0)),
            decreases entries@.len() - i,
        {
            let entry = &entries[i];
            let key: &'a String = &entry.0;
            let value: &'a String = &entry.1;
            let ghost before_key = *capacity;
            proof {
                assert(sizes.skip(i as int)[0] == sizes[i as int]);
                assert(sizes.skip(i as int).drop_first() =~= sizes.skip(i + 1));
            }
            match capacity.key(key.as_str().len(), path) {
                Ok(()) => {},
                Err(error) => {
                    return Err(error);
                },
            }
            assert(*capacity == after_key(before_key, sizes[i as int]));
            let location = match origin {
                Some(parent) => Some(parent.child(SourceSegment::Key(key.clone()))),
                None => None,
            };
            let ghost before = *self;
            let child = match self.push(ReadNode::Text(value), location, depth.saturating_add(1), capacity, path) {
                Ok(child) => child,
                Err(error) => {
                    return Err(error);
                },
            };
            let key_chars = chars_of(key.as_str());
            match find_child(&children, &key_chars) {
                ChildSlot::Found(pos) => {
                    proof {
                        let k = choose|k: int| 0 <= k < i && (#[trigger] children@[pos as int]).0@ == entries@[k].0@ && children@[pos as int].1 == base + k;
                        assert(entries@[k].0@ == entries@[i as int].0@);
                        assert(false);
                    }
                },
                ChildSlot::Vacant(pos) => {
                    let ghost old_children = children@;
                    let owned_key = key.clone();
                    proof { lemma_insert_sorted(old_children, pos as int, (owned_key, child)); }
                    children.insert(pos, (owned_key, child));
                    proof {
                        assert forall|k: int| 0 <= k < i + 1 implies has_child(children@, (#[trigger] entries@[k]).0@, (base + k) as NodeId) by {
                            if k < i {
                                let j = choose|j: int| 0 <= j < old_children.len() && #[trigger] old_children[j].0@ == entries@[k].0@ && old_children[j].1 == base + k;
                                if j < pos {
                                    assert(children@[j] == old_children[j]);
                                } else {
                                    assert(children@[j + 1] == old_children[j]);
                                }
                            } else {
                                assert(children@[pos as int].0@ == entries@[k].0@);
                            }
                        }
                        assert forall|c: int| 0 <= c < children@.len() implies exists|k: int| 0 <= k < i + 1 && (#[trigger] children@[c]).0@ == entries@[k].0@ && children@[c].1 == base + k by {
                            if c < pos {
                                assert(children@[c] == old_children[c]);
                            } else if c > pos {
                                assert(children@[c] == old_children[c - 1]);
                            } else {
                                assert(children@[c].0@ == entries@[i as int].0@);
                            }
                        }
                        assert forall|c: int| 0 <= c < children@.len() implies base <= (#[trigger] children@[c]).1 < base + i + 1 by {
                            if c < pos {
                                assert(children@[c] == old_children[c]);
                            } else if c > pos {
                                assert(children@[c] == old_children[c - 1]);
                            }
                        }
                    }
                },
            }
            proof {
                assert(self.nodes@ == before.nodes@.push(ReadNode::Text(value)));
                assert(self.nodes@.take(base as int) =~= before.nodes@.take(base as int));
                assert(self.origins().take(base as int) =~= before.origins().take(base as int));
                assert forall|k: int| 0 <= k < i + 1 implies self.nodes@[base + k] == ReadNode::Text(&(#[trigger] entries@[k]).1) by {
                    if k < i {
                        assert(self.nodes@[base + k] == before.nodes@[base + k]);
                    }
                }
                assert forall|k: int| 0 <= k < i + 1 implies located_below(*origin, self.origins()[base + k], SourceSegment::Key((#[trigger] entries@[k]).0)) by {
                    if k < i {
                        assert(self.origins()[base + k] == before.origins()[base + k]);
                    }
                }
            }
            i = i + 1;
        }
        Ok(children)
    }
}

/// Placements survive growth of the arena.
proof fn lemma_placed_extends<'a>(
    old: PreparedConfigRead<'a>,
    new: PreparedConfigRead<'a>,
    segments: Seq<Seq<char>>,
    property: &'a Property,
    index: int,
)
    requires
        PreparedConfigRead::placed(old, segments, property, index),
        arena_extends(old.nodes@, new.nodes@),
        arena_wf(new.nodes@),
        new.root == old.root,
        new.origins().take(old.nodes@.len() as int) == old.origins(),
        old.origins().len() == old.nodes@.len(),
        new.origins().len() == new.nodes@.len(),
    ensures
        PreparedConfigRead::placed(new, segments, property, index),
{
    lemma_resolve_extends(old.nodes@, new.nodes@, old.root as int, segments);
    let node = resolve(old.nodes@, old.root as int, segments).unwrap();

    assert(old.nodes@[node] == old.nodes@[node]);
    assert(new.origins().take(old.nodes@.len() as int)[node] == new.origins()[node]);
}

/// Building a read from the reader's view of the selected input: the
/// absolute root path, the property stored exactly at a non-empty prefix,
/// whether keys exist below that property, and the visible properties with
/// their reader-relative keys, in iteration order.
///
/// An exact property becomes the whole input; otherwise every property below
/// the prefix is indexed at its relative path, merging objects and
/// rejecting incompatible values.
///
/// When every selected key is a single, distinct segment, the contract
/// says exactly when the read succeeds and that the root then holds one
/// child per selected key; for dotted keys it says where each
/// property is placed, that the root's children are the first segments of
/// the selected keys, that the read fails when one entry holds a value that
/// is not an object at the path of another entry or above it, and of what
/// kind its errors are. On which other inputs a dotted read fails, and
/// which path a conflict then names, it does not say.
#[verifier::rlimit(100)]
pub fn prepare_read<'a>(
    prefix: &str,
    root_path: String,
    exact: Option<&'a Property>,
    exact_has_children: bool,
    entries: &Vec<(String, &'a Property)>,
    limits: IndexLimits,
) -> (result: Result<PreparedConfigRead<'a>, ConfigError>)
    requires
        exact matches Some(property) ==> container_wf(property.value),
        forall|k: int| 0 <= k < entries@.len() ==> container_wf((#[trigger] entries@[k]).1.value),
    ensures
        prefix@.len() > 0 && exact is Some ==> {
            let property = exact.unwrap();
            if exact_has_children {
                result matches Err(error) && is_conflict(error, root_path@, "exact value"@, "nested child keys"@)
            } else {
                match node_refusal(IndexCapacity { limits, remaining_nodes: limits.max_nodes, remaining_input_bytes: limits.max_input_bytes, remaining_payload_bytes: limits.max_structured_payload_bytes }, 1) {
                    Some(refusal) => result matches Err(error) && crate::error::is_limit(error, property.name@, refusal),
                    None => result matches Ok(prepared) && {
                        &&& prepared.nodes@ == seq![container_node(&property.value)]
                        &&& prepared.sources matches SourceIndex::Exact { property: p, origin } && p == property
                            && origin.property_index == 0 && origin.segments@.len() == 0
                        &&& prepared.root == 0
                        &&& prepared.root_path == root_path
                        &&& prepared.overlays@.len() == 0
                    },
                }
            }
        },
        !(prefix@.len() > 0 && exact is Some) ==> match result {
            Ok(prepared) => {
                &&& prepared.index_wf()
                &&& prepared.root == 0
                &&& prepared.nodes@[0] is Object
                &&& prepared.root_path == root_path
                &&& prepared.overlays@.len() == 0
                &&& prepared.origins_below(prepared.properties().len() as int)
                &&& PreparedConfigRead::places_all(prepared, selected(entries@, prefix@))
            },
            Err(error) => error is Limit || error is KeyConflict,
        },
        !(prefix@.len() > 0 && exact is Some) && flat_keys(selected(entries@, prefix@)) ==> match node_refusal(
            full_capacity(limits),
            1,
        ) {
            Some(refusal) => result matches Err(error) && is_limit(error, root_path@, refusal),
            None => (result is Ok <==> fresh_entries_refusal(
                after_node(full_capacity(limits)),
                0,
                flat_key_sizes(selected(entries@, prefix@)),
                2,
            ) is None),
        },
        !(prefix@.len() > 0 && exact is Some) && flat_keys(selected(entries@, prefix@)) ==> (result matches Ok(prepared)
            ==> object_children(prepared.nodes@[0]).len() == selected(entries@, prefix@).len()),
        !(prefix@.len() > 0 && exact is Some) && leaf_clash(selected(entries@, prefix@)) ==> result is Err,
        !(prefix@.len() > 0 && exact is Some) ==> (result matches Ok(prepared) ==> children_chosen(
            prepared.nodes@,
            0,
            selected(entries@, prefix@),
        )),
        result matches Ok(prepared) ==> {
            &&& arena_wf(prepared.nodes@)
            &&& prepared.root < prepared.nodes@.len()
            &&& prepared.sources_registered()
            &&& nodes_located(&prepared)
            &&& strings_located(all_visits(&prepared, true))
        },
{
    let mut capacity = IndexCapacity::new(limits);
    if !prefix.is_empty() {
        match exact {
            Some(property) => {
                if exact_has_children {
                    proof { reveal_strlit("exact value"); reveal_strlit("nested child keys"); }
                    return Err(conflict(root_path.as_str(), "exact value", "nested child keys"));
                }
                match capacity.admit_node(1, property.name.as_str()) {
                    Ok(()) => {},
                    Err(error) => return Err(error),
                }
                let mut nodes: Vec<ReadNode<'a>> = Vec::new();
                nodes.push(ReadNode::from_container(&property.value));
                let prepared = PreparedConfigRead {
                    overlays: Vec::new(),
                    nodes,
                    sources: SourceIndex::exact(property),
                    root: 0,
                    root_path,
                };
                proof {
                    assert(prepared.nodes@[0] !is Object);
                    assert(arena_wf(prepared.nodes@));
                    assert(prepared.sources_registered());
                    assert(nodes_located(&prepared));
                    lemma_read_strings_located(&prepared);
                }
                return Ok(prepared);
            },
            None => {},
        }
    }
    let path = root_path.clone();
    let mut prepared = PreparedConfigRead {
        overlays: Vec::new(),
        nodes: Vec::new(),
        sources: SourceIndex::tree(),
        root: 0,
        root_path,
    };
    match prepared.push(ReadNode::Object(Vec::new()), None, 1, &mut capacity, path.as_str()) {
        Ok(_) => {},
        Err(error) => return Err(error),
    }
    let mut i: usize = 0;
    let ghost all = selected(entries@, prefix@);
    let ghost sizes = flat_key_sizes(all);
    let ghost flat = flat_keys(all);
    proof {
        assert(capacity == after_node(full_capacity(limits)));
        assert(sizes.skip(0) =~= sizes);
        assert(object_children(prepared.nodes@[0]).len() == 0);
        assert forall|k: Seq<char>| (#[trigger] lookup_child(object_children(prepared.nodes@[0]), k)) is None by {
            assert(object_children(prepared.nodes@[0]) =~= Seq::<(String, NodeId)>::empty());
        }
    }
    assert(entries@.take(0) =~= Seq::<(String, &'a Property)>::empty());
    assert(selected(entries@.take(0), prefix@).map_values(|c: (Seq<char>, &'a Property)| c.1) =~= prepared.properties());
    while i < entries.len()
        invariant
            prepared.index_wf(),
            prepared.root == 0,
            0 < prepared.nodes@.len(),
            prepared.nodes@[0] is Object,
            prepared.root_path == root_path,
            prepared.overlays@.len() == 0,
            !(prefix@.len() > 0 && exact is Some),
            prepared.origins_below(prepared.properties().len() as int),
            i <= entries@.len(),
            forall|k: int| 0 <= k < entries@.len() ==> container_wf((#[trigger] entries@[k]).1.value),
            PreparedConfigRead::places_all(prepared, selected(entries@.take(i as int), prefix@)),
            all == selected(entries@, prefix@),
            children_chosen(prepared.nodes@, 0, selected(entries@.take(i as int), prefix@)),
            node_refusal(full_capacity(limits), 1) is None,
            sizes == flat_key_sizes(all),
            flat == flat_keys(all),
            flat ==> {
                let done = selected(entries@.take(i as int), prefix@).len() as int;
                &&& fresh_entries_refusal(after_node(full_capacity(limits)), 0, sizes, 2) == fresh_entries_refusal(
                    capacity,
                    object_children(prepared.nodes@[0]).len(),
                    sizes.skip(done),
                    2,
                )
                &&& forall|j: int| done <= j < all.len() ==> (#[trigger] lookup_child(
                    object_children(prepared.nodes@[0]),
                    all[j].0,
                )) is None
                &&& object_children(prepared.nodes@[0]).len() == done
            },
        decreases entries@.len() - i,
    {
        let key = &entries[i].0;
        let property: &'a Property = entries[i].1;
        let ghost chosen = selected(entries@.take(i as int), prefix@);
        proof {
            assert(entries@.take(i + 1).drop_last() =~= entries@.take(i as int));
            assert(entries@.take(i + 1).last() == entries@[i as int]);
            assert(container_wf(entries@[i as int].1.value));
        }
        let ghost cap_before = capacity;
        proof {
            lemma_selected_prefix(entries@, prefix@, i as int);
            lemma_selected_prefix(entries@, prefix@, i + 1);
        }
        match strip_dotted_prefix(key.as_str(), prefix) {
            Some(relative) => {
                let ghost before = prepared;
                let ghost done = chosen.len() as int;
                proof {
                    if flat {
                        let now = selected(entries@.take(i + 1), prefix@);
                        assert(now == chosen.push((relative@, property)));
                        assert(all.take(now.len() as int)[done] == now[done]);
                        assert(all[done] == (relative@, property));
                        lemma_plain_key_segments(relative@);
                        assert(key_segments(relative@).drop_last() =~= Seq::<Seq<char>>::empty());
                        assert(key_segments(relative@).last() == relative@);
                        assert(sizes[done] == utf8_len(relative@) as nat);
                        lemma_fresh_step(capacity, object_children(prepared.nodes@[0]).len(), sizes, done, 2);
                        assert(capped_depth(key_segments(relative@).len() as int + 1) == 2);
                    }
                }
                match prepared.insert_property(relative.as_str(), property, &mut capacity) {
                    Ok(()) => {},
                    Err(error) => return Err(error),
                }
                proof {
                    assert(selected(entries@.take(i + 1), prefix@) == chosen.push((relative@, property)));
                    lemma_children_chosen_grow(prepared.nodes@, before.nodes@, chosen, (relative@, property));
                    if flat {
                        assert forall|j: int| done + 1 <= j < all.len() implies (#[trigger] lookup_child(
                            object_children(prepared.nodes@[0]),
                            all[j].0,
                        )) is None by {
                            assert(all[j].0 != all[done].0);
                            assert(lookup_child(object_children(before.nodes@[0]), all[j].0) is None);
                        }
                    }
                }
                proof {
                    let now = selected(entries@.take(i + 1), prefix@);
                    assert(now == chosen.push((relative@, property)));
                    assert(now.map_values(|c: (Seq<char>, &'a Property)| c.1) =~= chosen.map_values(|c: (Seq<char>, &'a Property)| c.1).push(property));
                    assert forall|j: int| 0 <= j < now.len() implies PreparedConfigRead::placed(prepared, key_segments((#[trigger] now[j]).0), now[j].1, j) by {
                        if j < chosen.len() {
                            assert(now[j] == chosen[j]);
                            lemma_placed_extends(before, prepared, key_segments(chosen[j].0), chosen[j].1, j);
                        }
                    }
                }
            },
            None => {},
        }
        i = i + 1;
    }
    assert(entries@.take(entries@.len() as int) =~= entries@);
    proof {
        if leaf_clash(all) {
            let (ci, cj) = choose|ci: int, cj: int|
                #![trigger all[ci], all[cj]]
                0 <= ci < all.len() && 0 <= cj < all.len() && ci != cj && node_kind(container_node(&all[ci].1.value))
                    != NodeKind::Object && key_segments(all[ci].0).len() <= key_segments(all[cj].0).len() && key_segments(
                    all[cj].0,
                ).take(key_segments(all[ci].0).len() as int) == key_segments(all[ci].0);
            if key_segments(all[ci].0).len() == key_segments(all[cj].0).len() {
                assert(key_segments(all[cj].0).take(key_segments(all[ci].0).len() as int) =~= key_segments(all[cj].0));
                if ci < cj {
                    lemma_shared_paths_hold_objects(prepared, all, ci, cj);
                } else {
                    lemma_shared_paths_hold_objects(prepared, all, cj, ci);
                }
            } else {
                lemma_prefix_paths_hold_objects(prepared, all, ci, cj);
            }
        }
        assert(prepared.sources_registered());
        assert(prepared.values_located());
        assert(nodes_located(&prepared));
        lemma_read_strings_located(&prepared);
    }
    Ok(prepared)
}

/// Appending nodes grows the arena.
pub proof fn lemma_extends_prefix(old: Seq<ReadNode>, new: Seq<ReadNode>)
    requires
        old.len() <= new.len(),
        new.take(old.len() as int) == old,
    ensures
        arena_extends(old, new),
{
    assert forall|p: int| 0 <= p < old.len() implies #[trigger] old[p] == new[p] by {
        assert(new.take(old.len() as int)[p] == new[p]);
    }
    assert forall|p: int, k: int|
        0 <= p < old.len() && 0 <= k < object_children(old[p]).len() implies has_child(
        object_children(new[p]),
        (#[trigger] object_children(old[p])[k]).0@,
        object_children(old[p])[k].1,
    ) by {
        assert(old[p] == new[p]);
        assert(object_children(new[p])[k].0@ == object_children(old[p])[k].0@);
    }
}

/// Replacing an expanded node by its indexed children keeps the index
/// well formed and grows the arena.
proof fn lemma_expansion_wf<'a>(
    start: PreparedConfigRead<'a>,
    grown: PreparedConfigRead<'a>,
    done: PreparedConfigRead<'a>,
    id: int,
    children: Vec<(String, NodeId)>,
    keys: Seq<String>,
)
    requires
        start.index_wf(),
        grown.index_wf(),
        0 <= id < start.nodes@.len(),
        start.nodes@[id] !is Object,
        node_kind(start.nodes@[id]) == NodeKind::Object,
        grown.nodes@.len() == start.nodes@.len() + keys.len(),
        grown.nodes@.take(start.nodes@.len() as int) == start.nodes@,
        grown.origins().take(start.nodes@.len() as int) == start.origins(),
        done.nodes@ == grown.nodes@.update(id, ReadNode::Object(children)),
        done.sources == grown.sources,
        done.overlays == grown.overlays,
        done.root == grown.root,
        done.root_path == grown.root_path,
        children@.len() == keys.len(),
        sorted_keys(children@),
        forall|c: int| 0 <= c < children@.len() ==> start.nodes@.len() <= (#[trigger] children@[c]).1 < start.nodes@.len() + keys.len(),
    ensures
        done.index_wf(),
        arena_extends(start.nodes@, done.nodes@),
        done.nodes@[id] is Object,
        forall|p: int| 0 <= p < start.nodes@.len() && p != id ==> done.nodes@[p] == #[trigger] start.nodes@[p],
        forall|k: int| start.nodes@.len() <= k < done.nodes@.len() ==> done.nodes@[k] == #[trigger] grown.nodes@[k],
{
    let base = start.nodes@.len();
    let nodes = done.nodes@;
    assert forall|p: int| 0 <= p < base && p != id implies nodes[p] == #[trigger] start.nodes@[p] by {
        assert(grown.nodes@.take(base as int)[p] == grown.nodes@[p]);
    }
    assert forall|p: int| 0 <= p < nodes.len() implies sorted_keys(object_children(#[trigger] nodes[p])) by {
        if p != id {
            assert(nodes[p] == grown.nodes@[p]);
        }
    }
    assert forall|p: int, k: int|
        0 <= p < nodes.len() && 0 <= k < object_children(nodes[p]).len() implies p < (#[trigger] object_children(
        nodes[p],
    )[k]).1 < nodes.len() by {
        if p != id {
            assert(nodes[p] == grown.nodes@[p]);
        }
    }
    assert forall|p: int| 0 <= p < nodes.len() implies crate::prepared_read::node_payload_wf(#[trigger] nodes[p]) by {
        if p != id {
            assert(nodes[p] == grown.nodes@[p]);
        }
    }
    assert forall|p: int| 0 <= p < nodes.len() implies (#[trigger] nodes[p] !is Object ==> done.origins()[p] is Some) by {
        if p != id {
            assert(nodes[p] == grown.nodes@[p]);
        }
    }
    assert forall|p: int, k: int|
        0 <= p < base && 0 <= k < object_children(start.nodes@[p]).len() implies has_child(
        object_children(nodes[p]),
        (#[trigger] object_children(start.nodes@[p])[k]).0@,
        object_children(start.nodes@[p])[k].1,
    ) by {
        assert(p != id);
        assert(nodes[p] == start.nodes@[p]);
        assert(object_children(nodes[p])[k].0@ == object_children(start.nodes@[p])[k].0@);
    }
}

/// Duplicate leaves are rejected, never replaced: in a read where every
/// selected entry is placed, two entries at the same path both hold
/// objects, which were merged there.
pub proof fn lemma_shared_paths_hold_objects<'a>(
    prepared: PreparedConfigRead<'a>,
    chosen: Seq<(Seq<char>, &'a Property)>,
    i: int,
    j: int,
)
    requires
        PreparedConfigRead::places_all(prepared, chosen),
        0 <= i < j < chosen.len(),
        key_segments(chosen[i].0) == key_segments(chosen[j].0),
    ensures
        node_kind(container_node(&chosen[i].1.value)) == NodeKind::Object,
        node_kind(container_node(&chosen[j].1.value)) == NodeKind::Object,
{
    assert(PreparedConfigRead::placed(prepared, key_segments(chosen[i].0), chosen[i].1, i));
    assert(PreparedConfigRead::placed(prepared, key_segments(chosen[j].0), chosen[j].1, j));
}

/// Two selected entries clash: one holds a value that is not an object at
/// the path of the other, or at a proper prefix of the other's path.
pub open spec fn leaf_clash<'a>(chosen: Seq<(Seq<char>, &'a Property)>) -> bool {
    exists|i: int, j: int|
        #![trigger chosen[i], chosen[j]]
        0 <= i < chosen.len() && 0 <= j < chosen.len() && i != j && node_kind(container_node(&chosen[i].1.value))
            != NodeKind::Object && key_segments(chosen[i].0).len() <= key_segments(chosen[j].0).len() && key_segments(
            chosen[j].0,
        ).take(key_segments(chosen[i].0).len() as int) == key_segments(chosen[i].0)
}

/// No value is stored where another entry's key continues: in a read where
/// every selected entry is placed, an entry whose key path is a proper
/// prefix of another entry's key path holds an object, into which the other
/// was merged.
pub proof fn lemma_prefix_paths_hold_objects<'a>(
    prepared: PreparedConfigRead<'a>,
    chosen: Seq<(Seq<char>, &'a Property)>,
    i: int,
    j: int,
)
    requires
        PreparedConfigRead::places_all(prepared, chosen),
        0 <= i < chosen.len(),
        0 <= j < chosen.len(),
        key_segments(chosen[i].0).len() < key_segments(chosen[j].0).len(),
        key_segments(chosen[j].0).take(key_segments(chosen[i].0).len() as int) == key_segments(chosen[i].0),
    ensures
        node_kind(container_node(&chosen[i].1.value)) == NodeKind::Object,
{
    let outer = key_segments(chosen[i].0);
    let inner = key_segments(chosen[j].0);
    let n = outer.len() as int;
    assert(PreparedConfigRead::placed(prepared, outer, chosen[i].1, i));
    assert(PreparedConfigRead::placed(prepared, inner, chosen[j].1, j));
    let nodes = prepared.nodes@;
    let root = prepared.root as int;
    lemma_resolve_prefix(nodes, root, inner, n + 1);
    assert(inner.take(n + 1) =~= inner.take(n).push(inner[n]));
    lemma_resolve_push(nodes, root, inner.take(n), inner[n]);
    let x = resolve(nodes, root, outer).unwrap();
    assert(lookup_child(object_children(nodes[x]), inner[n]) is Some);
    assert(nodes[x] is Object);
}

/// Keys of the JSON object entries, in order.
pub open spec fn json_keys(entries: Seq<(String, JsonValue)>) -> Seq<Seq<char>> {
    entries.map_values(|entry: (String, JsonValue)| entry.0@)
}

/// Keys of the string map entries, in order.
pub open spec fn text_keys(entries: Seq<(String, String)>) -> Seq<Seq<char>> {
    entries.map_values(|entry: (String, String)| entry.0@)
}

/// Keys of an incoming object: a JSON object or a string map.
pub open spec fn incoming_keys(node: ReadNode) -> Seq<Seq<char>> {
    match node {
        ReadNode::Json(JsonValue::Object(entries)) => json_keys(entries@),
        ReadNode::StringMap(entries) => text_keys(entries@),
        _ => seq![],
    }
}

/// Each key an incoming object brings, with the kind of its value.
pub open spec fn incoming_entry_kinds(node: ReadNode) -> Seq<(Seq<char>, NodeKind)> {
    match node {
        ReadNode::Json(JsonValue::Object(entries)) => entries@.map_values(
            |entry: (String, JsonValue)| (entry.0@, json_kind(entry.1)),
        ),
        ReadNode::StringMap(entries) => entries@.map_values(|entry: (String, String)| (entry.0@, NodeKind::String)),
        _ => seq![],
    }
}

/// For incoming entry `j` whose key object node `id` already holds: that
/// child, with the kind of the incoming value merged into it.
pub open spec fn shared_pair(nodes: Seq<ReadNode>, id: int, incoming: ReadNode, j: int) -> Option<(NodeId, NodeKind)> {
    match lookup_child(object_children(nodes[id]), incoming_entry_kinds(incoming)[j].0) {
        Some(child) => Some((child, incoming_entry_kinds(incoming)[j].1)),
        None => None,
    }
}

/// Each pending merge as its target and the kind of what is merged into it.
spec fn pending_pairs<'a>(pending: Seq<PendingMerge<'a>>) -> Seq<(NodeId, NodeKind)> {
    pending.map_values(|item: PendingMerge<'a>| (item.0, node_kind(item.1)))
}

/// Every shared entry below `upto` still waits in `pairs` or has been merged
/// with objects on both sides.
spec fn shared_tracked(
    nodes: Seq<ReadNode>,
    id: int,
    incoming: ReadNode,
    pairs: Seq<(NodeId, NodeKind)>,
    checked: Set<(NodeId, NodeKind)>,
    upto: int,
) -> bool {
    forall|j: int|
        0 <= j < upto && (#[trigger] shared_pair(nodes, id, incoming, j)) is Some ==> pairs.contains(
            shared_pair(nodes, id, incoming, j).unwrap(),
        ) || checked.contains(shared_pair(nodes, id, incoming, j).unwrap())
}

/// Every child key of object node `id` in `new` was one in `old`, or is
/// `key`.
pub open spec fn keys_added(new: Seq<ReadNode>, old: Seq<ReadNode>, id: int, key: Seq<char>) -> bool {
    forall|k: Seq<char>|
        (#[trigger] lookup_child(object_children(new[id]), k)) is Some ==> lookup_child(object_children(old[id]), k) is Some
            || k == key
}

/// Inserting one child adds only its key.
proof fn lemma_keys_added_insert(new: Seq<ReadNode>, old: Seq<ReadNode>, id: int, pos: int, entry: (String, NodeId))
    requires
        0 <= id < old.len(),
        0 <= id < new.len(),
        sorted_keys(object_children(old[id])),
        object_children(new[id]) == object_children(old[id]).insert(pos, entry),
        sorted_keys(object_children(new[id])),
        0 <= pos <= object_children(old[id]).len(),
    ensures
        keys_added(new, old, id, entry.0@),
{
    lemma_insert_keeps_absent(object_children(old[id]), pos, entry);
}

/// Queuing one more merge keeps every tracked entry tracked, and tracks
/// the next entry when it is the one queued.
proof fn lemma_track_push(
    nodes: Seq<ReadNode>,
    id: int,
    incoming: ReadNode,
    pairs: Seq<(NodeId, NodeKind)>,
    checked: Set<(NodeId, NodeKind)>,
    upto: int,
    queued: (NodeId, NodeKind),
)
    requires
        shared_tracked(nodes, id, incoming, pairs, checked, upto),
    ensures
        shared_tracked(nodes, id, incoming, pairs.push(queued), checked, upto),
        shared_pair(nodes, id, incoming, upto) == Some(queued) ==> shared_tracked(
            nodes,
            id,
            incoming,
            pairs.push(queued),
            checked,
            upto + 1,
        ),
{
    let grown = pairs.push(queued);
    assert forall|j: int|
        0 <= j < upto + 1 && (#[trigger] shared_pair(nodes, id, incoming, j)) is Some && (j < upto || shared_pair(
            nodes,
            id,
            incoming,
            upto,
        ) == Some(queued)) implies grown.contains(shared_pair(nodes, id, incoming, j).unwrap()) || checked.contains(
        shared_pair(nodes, id, incoming, j).unwrap(),
    ) by {
        let pair = shared_pair(nodes, id, incoming, j).unwrap();
        if j < upto {
            if pairs.contains(pair) {
                let q = choose|q: int| 0 <= q < pairs.len() && pairs[q] == pair;
                assert(grown[q] == pair);
            }
        } else {
            assert(grown[pairs.len() as int] == queued);
        }
    }
}

/// An entry whose key the object does not hold needs no merge.
proof fn lemma_track_skip(
    nodes: Seq<ReadNode>,
    id: int,
    incoming: ReadNode,
    pairs: Seq<(NodeId, NodeKind)>,
    checked: Set<(NodeId, NodeKind)>,
    upto: int,
)
    requires
        shared_tracked(nodes, id, incoming, pairs, checked, upto),
        shared_pair(nodes, id, incoming, upto) is None,
    ensures
        shared_tracked(nodes, id, incoming, pairs, checked, upto + 1),
{
}

/// A child found through a key stays the child found through it as the
/// arena grows.
proof fn lemma_child_kept(old: Seq<ReadNode>, new: Seq<ReadNode>, id: int, key: Seq<char>)
    requires
        arena_extends(old, new),
        arena_wf(new),
        0 <= id < old.len(),
    ensures
        lookup_child(object_children(old[id]), key) matches Some(child) ==> lookup_child(
            object_children(new[id]),
            key,
        ) == Some(child),
{
    let children = object_children(old[id]);
    lemma_lookup_entry(children, key);
    if let Some(child) = lookup_child(children, key) {
        let j = choose|j: int| 0 <= j < children.len() && #[trigger] children[j].0@ == key && children[j].1 == child;
        assert(has_child(object_children(new[id]), children[j].0@, children[j].1));
        let fresh = object_children(new[id]);
        let j2 = choose|j2: int| 0 <= j2 < fresh.len() && #[trigger] fresh[j2].0@ == key && fresh[j2].1 == child;
        lemma_lookup_sorted(fresh, key);
        assert(fresh[j2].0@ == key);
    }
}

/// A key that sorts between the children before `pos` and those from it on
/// is held by none of them.
proof fn lemma_vacant_absent(children: Seq<(String, NodeId)>, key: Seq<char>, pos: int)
    requires
        sorted_keys(children),
        0 <= pos <= children.len(),
        forall|k: int| 0 <= k < pos ==> crate::text::text_lt(#[trigger] children[k].0@, key),
        forall|k: int| pos <= k < children.len() ==> crate::text::text_lt(key, #[trigger] children[k].0@),
    ensures
        lookup_child(children, key) is None,
{
    lemma_lookup_sorted(children, key);
    assert forall|k: int| 0 <= k < children.len() implies #[trigger] children[k].0@ != key by {
        crate::text::lemma_text_lt_irreflexive(key);
        if k < pos {
            assert(crate::text::text_lt(children[k].0@, key));
        } else {
            assert(crate::text::text_lt(key, children[k].0@));
        }
    }
}

/// A location by value: its property and the views of its segments.
pub type Place = (usize, Seq<SegmentView>);

/// The place of a location.
pub open spec fn place_of(location: SourceLocation) -> Place {
    (location.property_index, segments_view(location.segments@))
}

/// The place of an optional location.
pub open spec fn place_of_origin(origin: Option<SourceLocation>) -> Option<Place> {
    match origin {
        Some(location) => Some(place_of(location)),
        None => None,
    }
}

/// `place` one key further down.
pub open spec fn child_place(place: Place, key: Seq<char>) -> Place {
    (place.0, place.1.push(SegmentView::Key(key)))
}

/// The value that incoming entry `j` brings, as a node.
pub open spec fn incoming_child<'a>(node: ReadNode<'a>, j: int) -> ReadNode<'a> {
    match node {
        ReadNode::Json(JsonValue::Object(entries)) => ReadNode::Json(&entries@[j].1),
        ReadNode::StringMap(entries) => ReadNode::Text(&entries@[j].1),
        _ => ReadNode::Missing(MissingReason::UnsetScalar(DeclaredType::String)),
    }
}

/// One merge: a target node, the incoming value merged into it, and the
/// place that value comes from.
pub type MergeItem<'a> = (NodeId, ReadNode<'a>, Place);

/// Merge `item` is done in `nodes` with locations `origins`: its target is
/// an indexed object that was an object before the merge (a value that is
/// not an object is never replaced) and now holds every key of the incoming
/// value; a key that
/// was new holds that value (or the object it became) located one key below
/// the item's place, and a key that was already there holds a node that is
/// itself merged with that value, as one of `merges`.
pub open spec fn merge_done<'a>(
    nodes: Seq<ReadNode<'a>>,
    origins: Seq<Option<SourceLocation>>,
    earlier: Seq<ReadNode<'a>>,
    item: MergeItem<'a>,
    merges: Set<MergeItem<'a>>,
) -> bool {
    let (target, incoming, place) = item;
    &&& 0 <= target < nodes.len()
    &&& nodes[target as int] is Object
    &&& (target < earlier.len() ==> node_kind(earlier[target as int]) == NodeKind::Object)
    &&& node_kind(incoming) == NodeKind::Object
    &&& forall|j: int|
        0 <= j < incoming_entry_kinds(incoming).len() ==> #[trigger] child_merged(
            nodes,
            origins, earlier,
            target,
            incoming,
            place,
            j,
            merges,
        )
}

/// Entry `j` of a merge into `target` is in place, as `merge_done` says.
pub open spec fn child_merged<'a>(
    nodes: Seq<ReadNode<'a>>,
    origins: Seq<Option<SourceLocation>>,
    earlier: Seq<ReadNode<'a>>,
    target: NodeId,
    incoming: ReadNode<'a>,
    place: Place,
    j: int,
    merges: Set<MergeItem<'a>>,
) -> bool {
    let key = incoming_entry_kinds(incoming)[j].0;
    let value = incoming_child(incoming, j);
    &&& (0 <= target < earlier.len() && lookup_child(object_children(earlier[target as int]), key) is Some) ==> merges.contains(
        (lookup_child(object_children(earlier[target as int]), key).unwrap(), value, child_place(place, key)),
    )
    &&& match lookup_child(object_children(nodes[target as int]), key) {
        Some(child) => {
            ||| merges.contains((child, value, child_place(place, key)))
            ||| {
                &&& 0 <= child < origins.len()
                &&& place_of_origin(origins[child as int]) == Some(child_place(place, key))
                &&& (nodes[child as int] == value || nodes[child as int] is Object)
            }
        },
        None => false,
    }
}

/// Done merges stay done as the arena grows, their locations stay, and more
/// merges are known.
proof fn lemma_merge_done_grows<'a>(
    old: Seq<ReadNode<'a>>,
    earlier: Seq<ReadNode<'a>>,
    old_origins: Seq<Option<SourceLocation>>,
    new: Seq<ReadNode<'a>>,
    new_origins: Seq<Option<SourceLocation>>,
    item: MergeItem<'a>,
    merges: Set<MergeItem<'a>>,
    more: Set<MergeItem<'a>>,
)
    requires
        merge_done(old, old_origins, earlier, item, merges),
        merges.subset_of(more),
        arena_extends(old, new),
        arena_wf(new),
        old_origins.len() == old.len(),
        new_origins.len() == new.len(),
        new_origins.take(old.len() as int) == old_origins,
    ensures
        merge_done(new, new_origins, earlier, item, more),
{
    let (target, incoming, place) = item;
    assert forall|j: int| 0 <= j < incoming_entry_kinds(incoming).len() implies #[trigger] child_merged(
        new,
        new_origins, earlier,
        target,
        incoming,
        place,
        j,
        more,
    ) by {
        lemma_child_merged_grows(old, earlier, old_origins, new, new_origins, target, incoming, place, j, merges, more);
    }
}

/// Every merge of `done` is done, knowing the merges of `known`.
pub open spec fn all_merged<'a>(
    nodes: Seq<ReadNode<'a>>,
    origins: Seq<Option<SourceLocation>>,
    earlier: Seq<ReadNode<'a>>,
    done: Set<MergeItem<'a>>,
    known: Set<MergeItem<'a>>,
) -> bool {
    forall|item: MergeItem<'a>| #[trigger] done.contains(item) ==> merge_done(nodes, origins, earlier, item, known)
}

/// The first `k` entries of a merge into `target` are in place.
spec fn merged_upto<'a>(
    nodes: Seq<ReadNode<'a>>,
    origins: Seq<Option<SourceLocation>>,
    earlier: Seq<ReadNode<'a>>,
    target: NodeId,
    incoming: ReadNode<'a>,
    place: Place,
    k: int,
    known: Set<MergeItem<'a>>,
) -> bool {
    forall|j: int| 0 <= j < k ==> #[trigger] child_merged(nodes, origins, earlier, target, incoming, place, j, known)
}

/// The merges that wait in a queue.
spec fn pending_set<'a>(pending: Seq<PendingMerge<'a>>) -> Set<MergeItem<'a>> {
    pending.map_values(|item: PendingMerge<'a>| (item.0, item.1, place_of(item.2))).to_set()
}

/// A merge item of a queued merge.
spec fn item_of<'a>(item: PendingMerge<'a>) -> MergeItem<'a> {
    (item.0, item.1, place_of(item.2))
}

proof fn lemma_pending_push<'a>(pending: Seq<PendingMerge<'a>>, item: PendingMerge<'a>)
    ensures
        pending_set(pending.push(item)) == pending_set(pending).insert(item_of(item)),
{
    let f = |q: PendingMerge<'a>| (q.0, q.1, place_of(q.2));
    assert(pending.push(item).map_values(f) =~= pending.map_values(f).push(item_of(item)));
    let a = pending.push(item).map_values(f);
    let b = pending.map_values(f);
    assert forall|x: MergeItem<'a>| a.to_set().contains(x) <==> b.to_set().insert(item_of(item)).contains(x) by {
        if a.contains(x) {
            let i = choose|i: int| 0 <= i < a.len() && a[i] == x;
            if i < b.len() {
                assert(b[i] == x);
            }
        }
        if b.contains(x) {
            let i = choose|i: int| 0 <= i < b.len() && b[i] == x;
            assert(a[i] == x);
        }
        if x == item_of(item) {
            assert(a[b.len() as int] == x);
        }
    }
    assert(a.to_set() =~= b.to_set().insert(item_of(item)));
}

/// Child entries stay in place as the arena grows and more merges are known.
proof fn lemma_child_merged_grows<'a>(
    old: Seq<ReadNode<'a>>,
    earlier: Seq<ReadNode<'a>>,
    old_origins: Seq<Option<SourceLocation>>,
    new: Seq<ReadNode<'a>>,
    new_origins: Seq<Option<SourceLocation>>,
    target: NodeId,
    incoming: ReadNode<'a>,
    place: Place,
    j: int,
    known: Set<MergeItem<'a>>,
    more: Set<MergeItem<'a>>,
)
    requires
        child_merged(old, old_origins, earlier, target, incoming, place, j, known),
        0 <= target < old.len(),
        known.subset_of(more),
        arena_extends(old, new),
        arena_wf(new),
        old_origins.len() == old.len(),
        new_origins.len() == new.len(),
        new_origins.take(old.len() as int) == old_origins,
    ensures
        child_merged(new, new_origins, earlier, target, incoming, place, j, more),
{
    let key = incoming_entry_kinds(incoming)[j].0;
    lemma_child_kept(old, new, target as int, key);
    let child = lookup_child(object_children(old[target as int]), key).unwrap();
    if !known.contains((child, incoming_child(incoming, j), child_place(place, key))) {
        assert(new_origins.take(old.len() as int)[child as int] == new_origins[child as int]);
        assert(old[child as int] == old[child as int]);
    }
}

/// Done merges stay done as the arena grows and more merges are known.
proof fn lemma_all_merged_grows<'a>(
    old: Seq<ReadNode<'a>>,
    earlier: Seq<ReadNode<'a>>,
    old_origins: Seq<Option<SourceLocation>>,
    new: Seq<ReadNode<'a>>,
    new_origins: Seq<Option<SourceLocation>>,
    done: Set<MergeItem<'a>>,
    known: Set<MergeItem<'a>>,
    more: Set<MergeItem<'a>>,
)
    requires
        all_merged(old, old_origins, earlier, done, known),
        known.subset_of(more),
        arena_extends(old, new),
        arena_wf(new),
        old_origins.len() == old.len(),
        new_origins.len() == new.len(),
        new_origins.take(old.len() as int) == old_origins,
    ensures
        all_merged(new, new_origins, earlier, done, more),
{
    assert forall|item: MergeItem<'a>| #[trigger] done.contains(item) implies merge_done(new, new_origins, earlier, item, more) by {
        lemma_merge_done_grows(old, earlier, old_origins, new, new_origins, item, known, more);
    }
}

/// Entries in place stay in place as the arena grows and more merges are
/// known.
proof fn lemma_merged_upto_grows<'a>(
    old: Seq<ReadNode<'a>>,
    earlier: Seq<ReadNode<'a>>,
    old_origins: Seq<Option<SourceLocation>>,
    new: Seq<ReadNode<'a>>,
    new_origins: Seq<Option<SourceLocation>>,
    target: NodeId,
    incoming: ReadNode<'a>,
    place: Place,
    k: int,
    known: Set<MergeItem<'a>>,
    more: Set<MergeItem<'a>>,
)
    requires
        merged_upto(old, old_origins, earlier, target, incoming, place, k, known),
        0 <= target < old.len(),
        known.subset_of(more),
        arena_extends(old, new),
        arena_wf(new),
        old_origins.len() == old.len(),
        new_origins.len() == new.len(),
        new_origins.take(old.len() as int) == old_origins,
    ensures
        merged_upto(new, new_origins, earlier, target, incoming, place, k, more),
{
    assert forall|j: int| 0 <= j < k implies #[trigger] child_merged(new, new_origins, earlier, target, incoming, place, j, more) by {
        lemma_child_merged_grows(old, earlier, old_origins, new, new_origins, target, incoming, place, j, known, more);
    }
}

/// Every key is a child key of node `id`.
pub open spec fn keys_below(nodes: Seq<ReadNode>, id: int, keys: Seq<Seq<char>>) -> bool {
    forall|k: int| 0 <= k < keys.len() ==> (#[trigger] resolve(nodes, id, seq![keys[k]])) is Some
}

/// Growing the arena keeps child keys.
proof fn lemma_keys_below_extends(old: Seq<ReadNode>, new: Seq<ReadNode>, id: int, keys: Seq<Seq<char>>)
    requires
        arena_extends(old, new),
        arena_wf(new),
        keys_below(old, id, keys),
    ensures
        keys_below(new, id, keys),
{
    assert forall|k: int| 0 <= k < keys.len() implies (#[trigger] resolve(new, id, seq![keys[k]])) is Some by {
        lemma_resolve_extends(old, new, id, seq![keys[k]]);
    }
}

/// A key held by a child of node `p` is a child key of it.
proof fn lemma_key_present(nodes: Seq<ReadNode>, p: int, key: Seq<char>, child: NodeId)
    requires
        arena_wf(nodes),
        0 <= p < nodes.len(),
        has_child(object_children(nodes[p]), key, child),
    ensures
        resolve(nodes, p, seq![key]) is Some,
{
    let children = object_children(nodes[p]);
    lemma_lookup_sorted(children, key);
    let j = choose|j: int| 0 <= j < children.len() && #[trigger] children[j].0@ == key && children[j].1 == child;
    assert(lookup_child(children, key) == Some(children[j].1));
    assert(seq![key][0] == key);
    assert(seq![key].drop_first() =~= Seq::<Seq<char>>::empty());
    assert(resolve(nodes, children[j].1 as int, seq![key].drop_first()) == Some(children[j].1 as int));
}

/// The prefixes of a resolved path resolve.
pub proof fn lemma_resolve_prefix(nodes: Seq<ReadNode>, id: int, path: Seq<Seq<char>>, k: int)
    requires
        resolve(nodes, id, path) is Some,
        0 <= k <= path.len(),
    ensures
        resolve(nodes, id, path.take(k)) is Some,
    decreases path.len() - k,
{
    if k == path.len() {
        assert(path.take(k) =~= path);
    } else {
        lemma_resolve_prefix(nodes, id, path, k + 1);
        assert(path.take(k + 1) =~= path.take(k).push(path[k]));
        lemma_resolve_push(nodes, id, path.take(k), path[k]);
    }
}

/// UTF-8 sizes of the keys of JSON object entries, as `str::len` reports
/// them.
pub open spec fn json_key_sizes(entries: Seq<(String, JsonValue)>) -> Seq<nat> {
    entries.map_values(|entry: (String, JsonValue)| utf8_len(entry.0@) as nat)
}

/// UTF-8 sizes of the keys of string map entries, as `str::len` reports
/// them.
pub open spec fn text_key_sizes(entries: Seq<(String, String)>) -> Seq<nat> {
    entries.map_values(|entry: (String, String)| utf8_len(entry.0@) as nat)
}

/// A count grown by one, as `saturating_add` grows it.
pub open spec fn grown_count(count: nat) -> nat {
    if count < usize::MAX {
        count + 1
    } else {
        count
    }
}

/// Why adding one leaf to an object that holds `count` children, under a
/// key of `bytes` bytes and at `depth`, is refused, if it is: the object's
/// entries, then the key, then the node.
pub open spec fn leaf_refusal(capacity: IndexCapacity, count: nat, bytes: nat, depth: nat) -> Option<LimitError> {
    match entries_refusal(capacity.limits, grown_count(count)) {
        Some(refusal) => Some(refusal),
        None => match key_refusal(capacity, bytes) {
            Some(refusal) => Some(refusal),
            None => node_refusal(after_key(capacity, bytes), depth),
        },
    }
}

/// UTF-8 sizes of the keys an incoming object brings.
pub open spec fn incoming_key_sizes(node: ReadNode) -> Seq<nat> {
    match node {
        ReadNode::Json(JsonValue::Object(entries)) => json_key_sizes(entries@),
        ReadNode::StringMap(entries) => text_key_sizes(entries@),
        _ => seq![],
    }
}

/// Why adding leaves under these key sizes, one after the other, to an
/// object that holds `count` children is refused, if it is: the first
/// leaf whose entries, key or node charge does not fit.
pub open spec fn fresh_entries_refusal(capacity: IndexCapacity, count: nat, keys: Seq<nat>, depth: nat) -> Option<LimitError>
    decreases keys.len(),
{
    if keys.len() == 0 {
        None
    } else {
        match leaf_refusal(capacity, count, keys[0], depth) {
            Some(refusal) => Some(refusal),
            None => fresh_entries_refusal(after_node(after_key(capacity, keys[0])), count + 1, keys.drop_first(), depth),
        }
    }
}

/// One step of adding fresh leaves: the leaf at `k`, then the rest.
proof fn lemma_fresh_step(capacity: IndexCapacity, count: nat, keys: Seq<nat>, k: int, depth: nat)
    requires
        0 <= k < keys.len(),
    ensures
        fresh_entries_refusal(capacity, count, keys.skip(k), depth) == match leaf_refusal(capacity, count, keys[k], depth) {
            Some(refusal) => Some(refusal),
            None => fresh_entries_refusal(after_node(after_key(capacity, keys[k])), count + 1, keys.skip(k + 1), depth),
        },
{
    assert(keys.skip(k).drop_first() =~= keys.skip(k + 1));
    assert(keys.skip(k)[0] == keys[k]);
}

/// Inserting a child keeps every other absent key absent.
proof fn lemma_insert_keeps_absent(children: Seq<(String, NodeId)>, pos: int, entry: (String, NodeId))
    requires
        sorted_keys(children),
        sorted_keys(children.insert(pos, entry)),
        0 <= pos <= children.len(),
    ensures
        forall|other: Seq<char>|
            other != entry.0@ && (#[trigger] lookup_child(children, other)) is None ==> lookup_child(
                children.insert(pos, entry),
                other,
            ) is None,
{
    assert forall|other: Seq<char>|
        other != entry.0@ && (#[trigger] lookup_child(children, other)) is None implies lookup_child(
        children.insert(pos, entry),
        other,
    ) is None by {
        lemma_lookup_insert_absent(children, pos, entry, other);
    }
}

/// Inserting a child under another key leaves a key absent.
proof fn lemma_lookup_insert_absent(children: Seq<(String, NodeId)>, pos: int, entry: (String, NodeId), key: Seq<char>)
    requires
        sorted_keys(children),
        sorted_keys(children.insert(pos, entry)),
        0 <= pos <= children.len(),
        lookup_child(children, key) is None,
        entry.0@ != key,
    ensures
        lookup_child(children.insert(pos, entry), key) is None,
{
    lemma_lookup_sorted(children, key);
    let grown = children.insert(pos, entry);
    lemma_lookup_sorted(grown, key);
    assert forall|k: int| 0 <= k < grown.len() implies #[trigger] grown[k].0@ != key by {
        if k < pos {
            assert(grown[k] == children[k]);
        } else if k > pos {
            assert(grown[k] == children[k - 1]);
        }
    }
}

/// Every selected key is a single segment, and no two are equal.
pub open spec fn flat_keys<'a>(chosen: Seq<(Seq<char>, &'a Property)>) -> bool {
    &&& forall|j: int| 0 <= j < chosen.len() ==> !(#[trigger] chosen[j]).0.contains('.')
    &&& forall|i: int, j: int| 0 <= i < j < chosen.len() ==> (#[trigger] chosen[i]).0 != (#[trigger] chosen[j]).0
}

/// UTF-8 sizes of the selected keys, in order.
pub open spec fn flat_key_sizes<'a>(chosen: Seq<(Seq<char>, &'a Property)>) -> Seq<nat> {
    chosen.map_values(|c: (Seq<char>, &'a Property)| utf8_len(c.0) as nat)
}

/// A capacity with every budget at its limit.
pub open spec fn full_capacity(limits: IndexLimits) -> IndexCapacity {
    IndexCapacity {
        limits,
        remaining_nodes: limits.max_nodes,
        remaining_input_bytes: limits.max_input_bytes,
        remaining_payload_bytes: limits.max_structured_payload_bytes,
    }
}

/// Every child key of object node `id` is the first segment of some
/// chosen key.
pub open spec fn children_chosen<'a>(nodes: Seq<ReadNode>, id: int, chosen: Seq<(Seq<char>, &'a Property)>) -> bool {
    forall|k: Seq<char>|
        (#[trigger] lookup_child(object_children(nodes[id]), k)) is Some ==> exists|j: int|
            0 <= j < chosen.len() && #[trigger] key_segments(chosen[j].0)[0] == k
}

/// Adding a child under the first segment of one more chosen key keeps
/// every child key chosen.
proof fn lemma_children_chosen_grow<'a>(
    new: Seq<ReadNode>,
    old: Seq<ReadNode>,
    chosen: Seq<(Seq<char>, &'a Property)>,
    entry: (Seq<char>, &'a Property),
)
    requires
        children_chosen(old, 0, chosen),
        keys_added(new, old, 0, key_segments(entry.0)[0]),
    ensures
        children_chosen(new, 0, chosen.push(entry)),
{
    let now = chosen.push(entry);
    assert forall|k: Seq<char>|
        (#[trigger] lookup_child(object_children(new[0]), k)) is Some implies exists|j: int|
            0 <= j < now.len() && #[trigger] key_segments(now[j].0)[0] == k by {
        if lookup_child(object_children(old[0]), k) is Some {
            let j = choose|j: int| 0 <= j < chosen.len() && #[trigger] key_segments(chosen[j].0)[0] == k;
            assert(now[j] == chosen[j]);
        } else {
            assert(now[chosen.len() as int] == entry);
        }
    }
}

/// The child keys of the root of a subtree read are exactly the first
/// segments of the selected keys: each selected key is placed below the
/// root under its first segment, and nothing else is.
pub proof fn lemma_root_keys_are_first_segments<'a>(
    prepared: PreparedConfigRead<'a>,
    chosen: Seq<(Seq<char>, &'a Property)>,
    key: Seq<char>,
)
    requires
        prepared.root == 0,
        0 < prepared.nodes@.len(),
        PreparedConfigRead::places_all(prepared, chosen),
        children_chosen(prepared.nodes@, 0, chosen),
    ensures
        lookup_child(object_children(prepared.nodes@[0]), key) is Some <==> exists|j: int|
            0 <= j < chosen.len() && #[trigger] key_segments(chosen[j].0)[0] == key,
{
    if exists|j: int| 0 <= j < chosen.len() && #[trigger] key_segments(chosen[j].0)[0] == key {
        let j = choose|j: int| 0 <= j < chosen.len() && #[trigger] key_segments(chosen[j].0)[0] == key;
        let segments = key_segments(chosen[j].0);
        assert(PreparedConfigRead::placed(prepared, segments, chosen[j].1, j));
        lemma_key_segments_nonempty(chosen[j].0);
        lemma_resolve_prefix(prepared.nodes@, 0, segments, 1);
        assert(segments.take(1) =~= seq![key]);
        assert(seq![key].drop_first() =~= Seq::<Seq<char>>::empty());
    }
}

/// What is selected from the first entries is what begins the selection
/// of all of them.
proof fn lemma_selected_prefix<'a>(entries: Seq<(String, &'a Property)>, prefix: Seq<char>, i: int)
    requires
        0 <= i <= entries.len(),
    ensures
        selected(entries.take(i), prefix).len() <= selected(entries, prefix).len(),
        selected(entries, prefix).take(selected(entries.take(i), prefix).len() as int) == selected(entries.take(i), prefix),
    decreases entries.len() - i,
{
    if i == entries.len() {
        assert(entries.take(i) =~= entries);
        assert(selected(entries, prefix).take(selected(entries, prefix).len() as int) =~= selected(entries, prefix));
    } else {
        lemma_selected_prefix(entries, prefix, i + 1);
        let next = entries.take(i + 1);
        assert(next.drop_last() =~= entries.take(i));
        let shorter = selected(entries.take(i), prefix);
        let longer = selected(next, prefix);
        let all = selected(entries, prefix);
        assert(longer == shorter || longer == shorter.push(longer.last()));
        assert(all.take(shorter.len() as int) =~= longer.take(shorter.len() as int));
        assert(longer.take(shorter.len() as int) =~= shorter);
    }
}

/// Why expanding a JSON object or string map node whose children sit at
/// `depth` is refused, if it is: its entry count, or the first key or node
/// charge of its entries that does not fit.
pub open spec fn expansion_refusal(node: ReadNode, capacity: IndexCapacity, depth: nat) -> Option<LimitError> {
    match node {
        ReadNode::Json(JsonValue::Object(entries)) => match entries_refusal(capacity.limits, entries@.len()) {
            Some(refusal) => Some(refusal),
            None => entry_charges_refusal(capacity, json_key_sizes(entries@), depth),
        },
        ReadNode::StringMap(entries) => match entries_refusal(capacity.limits, entries@.len()) {
            Some(refusal) => Some(refusal),
            None => entry_charges_refusal(capacity, text_key_sizes(entries@), depth),
        },
        _ => None,
    }
}

} // verus!
