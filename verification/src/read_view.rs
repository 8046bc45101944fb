//! Borrowed view over prepared nodes and native source values.

use vstd::prelude::*;

use crate::read_node::NodeId;
use crate::read_node::ReadNode;
use crate::value::JsonValue;
use crate::value::MissingReason;
use crate::value::ScalarValue;

verus! {

/// A borrowed view of one value of a prepared read.
#[derive(Debug, Clone, Copy)]
pub enum ReadView<'a> {
    /// Native scalar value.
    Scalar(&'a ScalarValue),
    /// Native homogeneous collection.
    Collection(&'a Vec<ScalarValue>),
    /// Borrowed JSON value.
    Json(&'a JsonValue),
    /// Borrowed string-keyed map.
    StringMap(&'a Vec<(String, String)>),
    /// Indexed object children.
    Object(&'a Vec<(String, NodeId)>),
    /// Text leaf.
    Text(&'a String),
    /// Missing value.
    Missing(MissingReason),
}

/// The view of a native scalar.
pub open spec fn scalar_view<'a>(value: &'a ScalarValue) -> ReadView<'a> {
    match value {
        ScalarValue::Json(json) => ReadView::Json(json),
        ScalarValue::StringMap(entries) => ReadView::StringMap(entries),
        _ => ReadView::Scalar(value),
    }
}

/// The view of a prepared node.
pub open spec fn node_view<'a>(node: &'a ReadNode) -> ReadView<'a> {
    match node {
        ReadNode::Scalar(value) => scalar_view(*value),
        ReadNode::Collection(values) => ReadView::Collection(*values),
        ReadNode::Json(value) => ReadView::Json(*value),
        ReadNode::StringMap(entries) => ReadView::StringMap(*entries),
        ReadNode::Object(children) => ReadView::Object(children),
        ReadNode::Text(text) => ReadView::Text(*text),
        ReadNode::Missing(reason) => ReadView::Missing(*reason),
    }
}

/// The text of a view that is an actual string leaf.
pub open spec fn view_string(view: ReadView) -> Option<Seq<char>> {
    match view {
        ReadView::Scalar(ScalarValue::String(text)) => Some(text@),
        ReadView::Text(text) => Some(text@),
        ReadView::Json(JsonValue::String(text)) => Some(text@),
        _ => None,
    }
}

impl<'a> ReadView<'a> {
    /// Creates a borrowed view over one prepared node.
    pub fn from_node(node: &'a ReadNode<'_>) -> (view: Self)
        ensures
            view == node_view(node),
    {
        match node {
            ReadNode::Scalar(value) => Self::from_scalar(*value),
            ReadNode::Collection(values) => ReadView::Collection(*values),
            ReadNode::Json(value) => ReadView::Json(*value),
            ReadNode::StringMap(entries) => ReadView::StringMap(*entries),
            ReadNode::Object(children) => ReadView::Object(children),
            ReadNode::Text(text) => ReadView::Text(*text),
            ReadNode::Missing(reason) => ReadView::Missing(*reason),
        }
    }

    /// Creates a view over one native scalar.
    pub fn from_scalar(value: &'a ScalarValue) -> (view: Self)
        ensures
            view == scalar_view(value),
    {
        match value {
            ScalarValue::Json(json) => ReadView::Json(json),
            ScalarValue::StringMap(entries) => ReadView::StringMap(entries),
            _ => ReadView::Scalar(value),
        }
    }

    /// Only actual string leaves participate in placeholder substitution.
    pub fn string(self) -> (text: Option<&'a str>)
        ensures
            match text {
                Some(t) => view_string(self) == Some(t@),
                None => view_string(self) is None,
            },
    {
        match self {
            ReadView::Scalar(ScalarValue::String(text)) => Some(text.as_str()),
            ReadView::Text(text) => Some(text.as_str()),
            ReadView::Json(JsonValue::String(text)) => Some(text.as_str()),
            _ => None,
        }
    }
}

} // verus!
