//! Native homogeneous or JSON sequence input.

use vstd::prelude::*;

use crate::read_view::ReadView;
use crate::read_view::scalar_view;
use crate::value::JsonValue;
use crate::value::ScalarValue;

verus! {

/// The items of a value read as a sequence.
#[derive(Debug, Clone, Copy)]
pub enum SequenceValues<'a> {
    /// Items of a native collection.
    Collection(&'a Vec<ScalarValue>),
    /// Items of a JSON array.
    Json(&'a Vec<JsonValue>),
}

/// The items of a collection or JSON array; other values have none.
pub open spec fn sequence_of<'a>(value: ReadView<'a>) -> Option<SequenceValues<'a>> {
    match value {
        ReadView::Collection(items) => Some(SequenceValues::Collection(items)),
        ReadView::Json(JsonValue::Array(items)) => Some(SequenceValues::Json(items)),
        _ => None,
    }
}

impl<'a> SequenceValues<'a> {
    /// Number of items.
    pub open spec fn count(&self) -> nat {
        match self {
            SequenceValues::Collection(values) => values@.len(),
            SequenceValues::Json(values) => values@.len(),
        }
    }

    /// View of item `index`, if there is one.
    pub open spec fn item(&self, index: int) -> Option<ReadView<'a>> {
        if 0 <= index < self.count() {
            match self {
                SequenceValues::Collection(values) => Some(scalar_view(&values@[index])),
                SequenceValues::Json(values) => Some(ReadView::Json(&values@[index])),
            }
        } else {
            None
        }
    }

    /// The items of a collection or JSON array; other values have none.
    pub fn from_view(value: ReadView<'a>) -> (values: Option<Self>)
        ensures
            values == sequence_of(value),
            match value {
                ReadView::Collection(items) => values == Some(SequenceValues::Collection(items)),
                ReadView::Json(JsonValue::Array(items)) => values == Some(SequenceValues::Json(items)),
                _ => values is None,
            },
    {
        match value {
            ReadView::Collection(items) => Some(SequenceValues::Collection(items)),
            ReadView::Json(JsonValue::Array(items)) => Some(SequenceValues::Json(items)),
            _ => None,
        }
    }

    /// Number of items.
    pub fn len(&self) -> (count: usize)
        ensures
            count == self.count(),
            match self {
                SequenceValues::Collection(values) => count == values@.len(),
                SequenceValues::Json(values) => count == values@.len(),
            },
    {
        match self {
            SequenceValues::Collection(values) => values.len(),
            SequenceValues::Json(values) => values.len(),
        }
    }

    /// View of item `index`, if there is one.
    pub fn get(&self, index: usize) -> (item: Option<ReadView<'a>>)
        ensures
            item == self.item(index as int),
            match self {
                SequenceValues::Collection(values) => if index < values@.len() {
                    item == Some(scalar_view(&values@[index as int]))
                } else {
                    item is None
                },
                SequenceValues::Json(values) => if index < values@.len() {
                    item == Some(ReadView::Json(&values@[index as int]))
                } else {
                    item is None
                },
            },
    {
        match self {
            SequenceValues::Collection(values) => if index < values.len() {
                Some(ReadView::from_scalar(&values[index]))
            } else {
                None
            },
            SequenceValues::Json(values) => if index < values.len() {
                Some(ReadView::Json(&values[index]))
            } else {
                None
            },
        }
    }
}

/// Items come in the order of the source: item `k` of a JSON array is its
/// element `k`, and there is none past the last element.
pub proof fn lemma_json_items_in_order<'a>(values: &'a Vec<JsonValue>, k: int)
    ensures
        0 <= k < values@.len() ==> SequenceValues::Json(values).item(k) == Some(ReadView::Json(&values@[k])),
        !(0 <= k < values@.len()) ==> SequenceValues::Json(values).item(k) is None,
        SequenceValues::Json(values).count() == values@.len(),
{
}

/// Item `k` of a native collection is the view of its element `k`, and there
/// is none past the last element.
pub proof fn lemma_collection_items_in_order<'a>(values: &'a Vec<ScalarValue>, k: int)
    ensures
        0 <= k < values@.len() ==> SequenceValues::Collection(values).item(k) == Some(scalar_view(&values@[k])),
        !(0 <= k < values@.len()) ==> SequenceValues::Collection(values).item(k) is None,
        SequenceValues::Collection(values).count() == values@.len(),
{
}

/// Exactly collections and JSON arrays are read as items, and the items are
/// theirs.
pub proof fn lemma_sequences_are_arrays<'a>(value: ReadView<'a>)
    ensures
        value matches ReadView::Collection(items) ==> sequence_of(value) == Some(SequenceValues::Collection(items)),
        value matches ReadView::Json(JsonValue::Array(items)) ==> sequence_of(value) == Some(SequenceValues::Json(items)),
        !(value is Collection || value matches ReadView::Json(JsonValue::Array(_))) ==> sequence_of(value) is None,
{
}

} // verus!
