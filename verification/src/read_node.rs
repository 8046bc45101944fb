//! Arena nodes borrow source payloads and own only the necessary path index.

use vstd::prelude::*;

use crate::value::CollectionValue;
use crate::value::JsonValue;
use crate::value::MissingReason;
use crate::value::ScalarValue;
use crate::value::ValueContainer;

verus! {

/// Position of a node in the prepared arena.
pub type NodeId = usize;

/// One node of the prepared path index.
#[derive(Debug)]
pub enum ReadNode<'a> {
    /// A stored scalar that is neither JSON, a string map, nor unset.
    Scalar(&'a ScalarValue),
    /// The items of a stored collection.
    Collection(&'a Vec<ScalarValue>),
    /// A borrowed JSON document.
    Json(&'a JsonValue),
    /// A borrowed string map, as its entries.
    StringMap(&'a Vec<(String, String)>),
    /// Indexed object children, sorted by key, with their node ids.
    Object(Vec<(String, NodeId)>),
    /// A borrowed text leaf.
    Text(&'a String),
    /// A missing value.
    Missing(MissingReason),
}

/// Natural structural kind of a value, for value-free diagnostics.
#[derive(Debug, Clone, Copy, PartialEq, Eq, Structural)]
pub enum NodeKind {
    /// `null` or missing.
    Null,
    /// A sequence.
    Array,
    /// A map.
    Object,
    /// A boolean.
    Boolean,
    /// A number.
    Number,
    /// Any other scalar.
    String,
}

/// Diagnostic name of a kind.
pub open spec fn kind_name(kind: NodeKind) -> Seq<char> {
    match kind {
        NodeKind::Null => "null"@,
        NodeKind::Array => "array"@,
        NodeKind::Object => "object"@,
        NodeKind::Boolean => "boolean"@,
        NodeKind::Number => "number"@,
        NodeKind::String => "string"@,
    }
}

impl NodeKind {
    /// The diagnostic name of this kind.
    pub fn name(&self) -> (name: &'static str)
        ensures
            name@ == kind_name(*self),
    {
        match self {
            NodeKind::Null => {
                proof { reveal_strlit("null"); }
                "null"
            },
            NodeKind::Array => {
                proof { reveal_strlit("array"); }
                "array"
            },
            NodeKind::Object => {
                proof { reveal_strlit("object"); }
                "object"
            },
            NodeKind::Boolean => {
                proof { reveal_strlit("boolean"); }
                "boolean"
            },
            NodeKind::Number => {
                proof { reveal_strlit("number"); }
                "number"
            },
            NodeKind::String => {
                proof { reveal_strlit("string"); }
                "string"
            },
        }
    }
}

/// Only the object kind is named as an object.
pub proof fn lemma_object_name_unique(kind: NodeKind)
    ensures
        kind_name(kind) == kind_name(NodeKind::Object) <==> kind == NodeKind::Object,
{
    reveal_strlit("null");
    reveal_strlit("array");
    reveal_strlit("object");
    reveal_strlit("boolean");
    reveal_strlit("number");
    reveal_strlit("string");
    if kind != NodeKind::Object {
        assert(kind_name(kind)[0] != kind_name(NodeKind::Object)[0] || kind_name(kind).len() != kind_name(
            NodeKind::Object,
        ).len());
    }
}

/// Kind of a JSON document.
pub open spec fn json_kind(value: JsonValue) -> NodeKind {
    match value {
        JsonValue::Null => NodeKind::Null,
        JsonValue::Array(_) => NodeKind::Array,
        JsonValue::Object(_) => NodeKind::Object,
        JsonValue::Bool(_) => NodeKind::Boolean,
        JsonValue::Number(_) => NodeKind::Number,
        JsonValue::String(_) => NodeKind::String,
    }
}

/// Kind of a node.
pub open spec fn node_kind(node: ReadNode) -> NodeKind {
    match node {
        ReadNode::Missing(_) => NodeKind::Null,
        ReadNode::Json(value) => json_kind(*value),
        ReadNode::Collection(_) => NodeKind::Array,
        ReadNode::Object(_) | ReadNode::StringMap(_) => NodeKind::Object,
        ReadNode::Scalar(ScalarValue::Bool(_)) => NodeKind::Boolean,
        ReadNode::Scalar(ScalarValue::Signed(..)) | ReadNode::Scalar(ScalarValue::Unsigned(..)) => NodeKind::Number,
        ReadNode::Scalar(ScalarValue::Float32(_)) | ReadNode::Scalar(ScalarValue::Float64(_)) => NodeKind::Number,
        _ => NodeKind::String,
    }
}

/// The node that a stored scalar becomes.
pub open spec fn scalar_node<'a>(value: &'a ScalarValue) -> ReadNode<'a> {
    match value {
        ScalarValue::Json(json) => ReadNode::Json(json),
        ScalarValue::StringMap(entries) => ReadNode::StringMap(entries),
        ScalarValue::Unset(declared) => ReadNode::Missing(MissingReason::UnsetScalar(*declared)),
        _ => ReadNode::Scalar(value),
    }
}

/// The node that a stored property value becomes.
pub open spec fn container_node<'a>(value: &'a ValueContainer) -> ReadNode<'a> {
    match value {
        ValueContainer::Scalar(scalar) => scalar_node(scalar),
        ValueContainer::Collection(CollectionValue::Unset(declared)) => ReadNode::Missing(MissingReason::UnsetCollection(*declared)),
        ValueContainer::Collection(CollectionValue::Items(items)) => ReadNode::Collection(items),
    }
}

impl<'a> ReadNode<'a> {
    /// Natural structural kind, for value-free conflict diagnostics.
    pub fn kind(&self) -> (kind: NodeKind)
        ensures
            kind == node_kind(*self),
    {
        match self {
            ReadNode::Missing(_) => NodeKind::Null,
            ReadNode::Json(JsonValue::Null) => NodeKind::Null,
            ReadNode::Collection(_) => NodeKind::Array,
            ReadNode::Json(JsonValue::Array(_)) => NodeKind::Array,
            ReadNode::Object(_) | ReadNode::StringMap(_) => NodeKind::Object,
            ReadNode::Json(JsonValue::Object(_)) => NodeKind::Object,
            ReadNode::Scalar(ScalarValue::Bool(_)) => NodeKind::Boolean,
            ReadNode::Json(JsonValue::Bool(_)) => NodeKind::Boolean,
            ReadNode::Scalar(ScalarValue::Signed(..)) | ReadNode::Scalar(ScalarValue::Unsigned(..)) => NodeKind::Number,
        ReadNode::Scalar(ScalarValue::Float32(_)) | ReadNode::Scalar(ScalarValue::Float64(_)) => NodeKind::Number,
            ReadNode::Json(JsonValue::Number(_)) => NodeKind::Number,
            _ => NodeKind::String,
        }
    }

    /// Separates the source shape of a stored value without copying payload.
    pub fn from_container(value: &'a ValueContainer) -> (node: Self)
        ensures
            node == container_node(value),
    {
        match value {
            ValueContainer::Scalar(scalar) => Self::from_scalar(scalar),
            ValueContainer::Collection(CollectionValue::Unset(declared)) => ReadNode::Missing(MissingReason::UnsetCollection(*declared)),
            ValueContainer::Collection(CollectionValue::Items(items)) => ReadNode::Collection(items),
        }
    }

    /// The node of one stored scalar.
    pub fn from_scalar(value: &'a ScalarValue) -> (node: Self)
        ensures
            node == scalar_node(value),
    {
        match value {
            ScalarValue::Json(json) => ReadNode::Json(json),
            ScalarValue::StringMap(entries) => ReadNode::StringMap(entries),
            ScalarValue::Unset(declared) => ReadNode::Missing(MissingReason::UnsetScalar(*declared)),
            _ => ReadNode::Scalar(value),
        }
    }
}

} // verus!
