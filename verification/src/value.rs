//! Source values as the structured read sees them: configuration property
//! values (scalars, homogeneous collections) and the JSON documents and
//! string maps that scalars may carry.

use vstd::prelude::*;

verus! {

/// A JSON document. Object entries keep the order of the source map and
/// their keys are distinct.
#[derive(Debug)]
pub enum JsonValue {
    /// `null`.
    Null,
    /// `true` or `false`.
    Bool(bool),
    /// A number.
    Number(JsonNumber),
    /// A string.
    String(String),
    /// An array.
    Array(Vec<JsonValue>),
    /// An object, as its entries in source order.
    Object(Vec<(String, JsonValue)>),
}

/// A JSON number as a JSON document stores it: a non-negative integer, a
/// negative integer, or a finite floating-point number by its text.
#[derive(Debug)]
pub enum JsonNumber {
    /// An integer from zero to `u64::MAX`.
    PosInt(u64),
    /// An integer below zero.
    NegInt(i64),
    /// A finite floating-point number, by its text.
    Float(String),
}

/// The number as an `i64`, when it is an integer in range.
pub open spec fn number_as_i64(number: JsonNumber) -> Option<i64> {
    match number {
        JsonNumber::PosInt(value) => if value <= i64::MAX {
            Some(value as i64)
        } else {
            None
        },
        JsonNumber::NegInt(value) => Some(value),
        JsonNumber::Float(_) => None,
    }
}

/// The number as a `u64`, when it is a non-negative integer.
pub open spec fn number_as_u64(number: JsonNumber) -> Option<u64> {
    match number {
        JsonNumber::PosInt(value) => Some(value),
        _ => None,
    }
}

impl JsonNumber {
    /// The number as an `i64`, when it is an integer in range.
    pub fn as_i64(&self) -> (value: Option<i64>)
        ensures
            value == number_as_i64(*self),
    {
        match self {
            JsonNumber::PosInt(value) => if *value <= 9223372036854775807u64 {
                Some(*value as i64)
            } else {
                None
            },
            JsonNumber::NegInt(value) => Some(*value),
            JsonNumber::Float(_) => None,
        }
    }

    /// The number as a `u64`, when it is a non-negative integer.
    pub fn as_u64(&self) -> (value: Option<u64>)
        ensures
            value == number_as_u64(*self),
    {
        match self {
            JsonNumber::PosInt(value) => Some(*value),
            _ => None,
        }
    }
}

/// No key occurs twice among the entries.
pub open spec fn distinct_keys<V>(entries: Seq<(String, V)>) -> bool {
    forall|i: int, j: int|
        0 <= i < entries.len() && 0 <= j < entries.len() && i != j ==> #[trigger] entries[i].0@
            != #[trigger] entries[j].0@
}

/// A JSON document as a map holds it: every object, at any depth, has
/// distinct keys, and negative integers are below zero.
pub open spec fn json_wf(value: JsonValue) -> bool
    decreases value,
{
    match value {
        JsonValue::Number(JsonNumber::NegInt(number)) => number < 0,
        JsonValue::Array(items) => forall|i: int|
            0 <= i < items@.len() ==> json_wf(#[trigger] items@[i]),
        JsonValue::Object(entries) => {
            &&& distinct_keys(entries@)
            &&& forall|i: int| 0 <= i < entries@.len() ==> json_wf(#[trigger] entries@[i].1)
        },
        _ => true,
    }
}

/// Size of a JSON document for merging: one per value, objects adding their
/// entries.
pub open spec fn json_weight(value: JsonValue) -> nat
    decreases value, 0nat,
{
    match value {
        JsonValue::Object(entries) => 1 + entries_weight(entries@),
        _ => 1,
    }
}

/// Total merge size of the values of some object entries.
pub open spec fn entries_weight(entries: Seq<(String, JsonValue)>) -> nat
    decreases entries, 1nat,
{
    if entries.len() == 0 {
        0
    } else {
        entries_weight(entries.drop_last()) + json_weight(entries.last().1)
    }
}

/// The weight of the first entries grows by one entry at a time.
pub proof fn lemma_entries_weight_take(entries: Seq<(String, JsonValue)>, k: int)
    requires
        0 <= k < entries.len(),
    ensures
        entries_weight(entries.take(k + 1)) == entries_weight(entries.take(k)) + json_weight(entries[k].1),
{
    assert(entries.take(k + 1).drop_last() =~= entries.take(k));
}

/// Width of a fixed-width integer.
#[derive(Debug, Clone, Copy, PartialEq, Eq, Structural)]
pub enum IntWidth {
    /// 8 bits.
    W8,
    /// 16 bits.
    W16,
    /// 32 bits.
    W32,
    /// 64 bits.
    W64,
}

/// The declared type of a value stored without content.
#[derive(Debug, Clone, Copy, PartialEq, Eq, Structural)]
pub enum DeclaredType {
    /// Declared as `Bool`.
    Bool,
    /// Declared as `Char`.
    Char,
    /// Declared as `Int8`.
    Int8,
    /// Declared as `Int16`.
    Int16,
    /// Declared as `Int32`.
    Int32,
    /// Declared as `Int64`.
    Int64,
    /// Declared as `Int128`.
    Int128,
    /// Declared as `UInt8`.
    UInt8,
    /// Declared as `UInt16`.
    UInt16,
    /// Declared as `UInt32`.
    UInt32,
    /// Declared as `UInt64`.
    UInt64,
    /// Declared as `UInt128`.
    UInt128,
    /// Declared as `Float32`.
    Float32,
    /// Declared as `Float64`.
    Float64,
    /// Declared as `String`.
    String,
    /// Declared as `Date`.
    Date,
    /// Declared as `Time`.
    Time,
    /// Declared as `DateTime`.
    DateTime,
    /// Declared as `Instant`.
    Instant,
    /// Declared as `BigInteger`.
    BigInteger,
    /// Declared as `BigDecimal`.
    BigDecimal,
    /// Declared as `Duration`.
    Duration,
    /// Declared as `Url`.
    Url,
    /// Declared as `StringMap`.
    StringMap,
    /// Declared as `Json`.
    Json,
}

/// One stored scalar value.
#[derive(Debug)]
pub enum ScalarValue {
    /// A value declared with a type but without content.
    Unset(DeclaredType),
    /// A boolean.
    Bool(bool),
    /// A signed integer of 8 to 64 bits.
    Signed(IntWidth, i64),
    /// An unsigned integer of 8 to 64 bits.
    Unsigned(IntWidth, u64),
    /// A 32-bit floating-point number, by its natural text.
    Float32(String),
    /// A 64-bit floating-point number, by its natural text.
    Float64(String),
    /// A string.
    String(String),
    /// Any other scalar (character, 128-bit or big number, temporal value,
    /// duration, URL, ...), by its natural text.
    Other(String),
    /// A JSON document.
    Json(JsonValue),
    /// A map from strings to strings, as its entries.
    StringMap(Vec<(String, String)>),
}

/// A homogeneous collection of scalars.
#[derive(Debug)]
pub enum CollectionValue {
    /// A collection declared with an item type but without content.
    Unset(DeclaredType),
    /// The items, in order.
    Items(Vec<ScalarValue>),
}

/// The value stored for one configuration property.
#[derive(Debug)]
pub enum ValueContainer {
    /// A single value.
    Scalar(ScalarValue),
    /// A list of values.
    Collection(CollectionValue),
}

/// A configuration property: its absolute name and its stored value.
#[derive(Debug)]
pub struct Property {
    /// Absolute dotted name.
    pub name: String,
    /// Stored value.
    pub value: ValueContainer,
}

/// A scalar is well formed when its JSON document and string map are.
pub open spec fn scalar_wf(value: ScalarValue) -> bool {
    match value {
        ScalarValue::Json(json) => json_wf(json),
        ScalarValue::StringMap(entries) => distinct_keys(entries@),
        _ => true,
    }
}

/// A stored value is well formed when each of its scalars is.
pub open spec fn container_wf(value: ValueContainer) -> bool {
    match value {
        ValueContainer::Scalar(scalar) => scalar_wf(scalar),
        ValueContainer::Collection(CollectionValue::Items(items)) => forall|i: int|
            0 <= i < items@.len() ==> scalar_wf(#[trigger] items@[i]),
        ValueContainer::Collection(CollectionValue::Unset(_)) => true,
    }
}

/// Why a value is missing.
#[derive(Debug, Clone, Copy, PartialEq, Eq, Structural)]
pub enum MissingReason {
    /// The scalar was declared with this type but without content.
    UnsetScalar(DeclaredType),
    /// The collection was declared with this item type but without content.
    UnsetCollection(DeclaredType),
    /// A string leaf is blank and the string policy treats blanks as missing.
    BlankString,
}

} // verus!
