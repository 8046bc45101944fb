//! The state of one value under deserialization and the decisions taken on
//! it: what a self-describing request visits, what a conversion reads, how
//! a value is read as a sequence, a map or an enum, and what its entries and
//! items inherit. Conversions themselves belong to the conversion session.

use vstd::prelude::*;

use crate::map_entries::MapEntries;
use crate::map_entries::is_map;
use crate::path::child_index;
use crate::path::child_index_spec;
use crate::path::child_key;
use crate::path::child_key_spec;
use crate::read_context::ReadContext;
use crate::read_view::ReadView;
use crate::read_view::view_string;
use crate::sequence_values::SequenceValues;
use crate::sequence_values::sequence_of;
use crate::source_location::first_index;
use crate::source_location::overlay_at;
use crate::source_location::overlay_text;
use crate::source_location::segments_view;
use crate::source_location::source_index;
use crate::source_location::SegmentView;
use crate::source_location::SourceLocation;
use crate::source_segment::SourceSegment;
use crate::traversal::children_in_arena;
use crate::traversal::child_count;
use crate::traversal::child_origin;
use crate::traversal::child_step;
use crate::traversal::child_view;
use crate::visit::location_view;
use crate::value::IntWidth;
use crate::value::JsonNumber;
use crate::value::JsonValue;
use crate::value::DeclaredType;
use crate::value::MissingReason;
use crate::value::ScalarValue;
use crate::value::ValueContainer;
use crate::value::number_as_i64;
use crate::value::number_as_u64;

verus! {

/// A location by value, keys compared by their text.
pub type PlaceValue = (usize, Seq<SegmentView>);

/// The value of an optional location.
pub open spec fn place_value(location: Option<SourceLocation>) -> Option<PlaceValue> {
    match location {
        Some(location) => Some((location.property_index, segments_view(location.segments@))),
        None => None,
    }
}

/// What a deserialization request expected when it refused a value.
#[derive(Debug, Clone, Copy, PartialEq, Eq, Structural)]
pub enum Expected {
    /// A scalar.
    Scalar,
    /// A sequence.
    Sequence,
    /// A sequence of the requested tuple length.
    TupleLength,
    /// A map.
    Mapping,
    /// An enum.
    Enum,
    /// A map with exactly one entry naming an enum variant.
    SingleVariant,
    /// A unit value.
    Unit,
    /// A value for the key just read.
    PendingValue,
    /// A key before its value.
    PrecedingKey,
}

/// Diagnostic text of an expectation.
pub open spec fn expected_text(expected: Expected) -> Seq<char> {
    match expected {
        Expected::Scalar => "a scalar"@,
        Expected::Sequence => "a sequence"@,
        Expected::TupleLength => "a tuple with the requested length"@,
        Expected::Mapping => "a map"@,
        Expected::Enum => "an enum"@,
        Expected::SingleVariant => "a single enum variant"@,
        Expected::Unit => "unit"@,
        Expected::PendingValue => "a value for the previous key"@,
        Expected::PrecedingKey => "a preceding map key"@,
    }
}

impl Expected {
    /// The diagnostic text of this expectation.
    pub fn text(&self) -> (text: &'static str)
        ensures
            text@ == expected_text(*self),
    {
        match self {
            Expected::Scalar => {
                proof { reveal_strlit("a scalar"); }
                "a scalar"
            },
            Expected::Sequence => {
                proof { reveal_strlit("a sequence"); }
                "a sequence"
            },
            Expected::TupleLength => {
                proof { reveal_strlit("a tuple with the requested length"); }
                "a tuple with the requested length"
            },
            Expected::Mapping => {
                proof { reveal_strlit("a map"); }
                "a map"
            },
            Expected::Enum => {
                proof { reveal_strlit("an enum"); }
                "an enum"
            },
            Expected::SingleVariant => {
                proof { reveal_strlit("a single enum variant"); }
                "a single enum variant"
            },
            Expected::Unit => {
                proof { reveal_strlit("unit"); }
                "unit"
            },
            Expected::PendingValue => {
                proof { reveal_strlit("a value for the previous key"); }
                "a value for the previous key"
            },
            Expected::PrecedingKey => {
                proof { reveal_strlit("a preceding map key"); }
                "a preceding map key"
            },
        }
    }
}

/// What a self-describing request visits.
#[derive(Debug, Clone, Copy, PartialEq, Eq, Structural)]
pub enum AnyShape {
    /// Unit: a missing value or null.
    Unit,
    /// A boolean.
    Bool,
    /// A signed integer converted at this width and visited as `i64`.
    Signed(IntWidth),
    /// An unsigned integer converted at this width and visited as `u64`.
    Unsigned(IntWidth),
    /// A 32-bit float, visited as `f64`.
    Float32,
    /// A 64-bit float.
    Float64,
    /// A sequence.
    Sequence,
    /// A map.
    Mapping,
    /// A string.
    Str,
}

/// A value that counts as missing: missing, JSON null, or an unset scalar.
pub open spec fn view_missing(value: Option<ReadView>) -> bool {
    match value {
        Some(ReadView::Missing(_)) | Some(ReadView::Json(JsonValue::Null)) | Some(ReadView::Scalar(ScalarValue::Unset(_))) => true,
        _ => false,
    }
}

/// What a self-describing request visits for a value.
pub open spec fn any_shape(value: Option<ReadView>) -> AnyShape {
    match value {
        Some(ReadView::Missing(_)) | Some(ReadView::Json(JsonValue::Null)) | Some(ReadView::Scalar(ScalarValue::Unset(_))) => AnyShape::Unit,
        Some(ReadView::Scalar(ScalarValue::Bool(_))) | Some(ReadView::Json(JsonValue::Bool(_))) => AnyShape::Bool,
        Some(ReadView::Scalar(ScalarValue::Signed(width, _))) => AnyShape::Signed(*width),
        Some(ReadView::Scalar(ScalarValue::Unsigned(width, _))) => AnyShape::Unsigned(*width),
        Some(ReadView::Scalar(ScalarValue::Float32(_))) => AnyShape::Float32,
        Some(ReadView::Scalar(ScalarValue::Float64(_))) => AnyShape::Float64,
        Some(ReadView::Json(JsonValue::Number(number))) => if number_as_i64(*number) is Some {
            AnyShape::Signed(IntWidth::W64)
        } else if number_as_u64(*number) is Some {
            AnyShape::Unsigned(IntWidth::W64)
        } else {
            AnyShape::Float64
        },
        Some(ReadView::Collection(_)) | Some(ReadView::Json(JsonValue::Array(_))) => AnyShape::Sequence,
        Some(ReadView::Object(_)) | Some(ReadView::StringMap(_)) | Some(ReadView::Json(JsonValue::Object(_))) => AnyShape::Mapping,
        _ => AnyShape::Str,
    }
}

/// Values with entries are visited as maps: an indexed object, a string map
/// and a JSON object, whatever their entries.
pub proof fn lemma_maps_are_visited_as_maps<'a>(value: ReadView<'a>)
    requires
        value is Object || value is StringMap || value matches ReadView::Json(JsonValue::Object(_)),
    ensures
        any_shape(Some(value)) == AnyShape::Mapping,
        !view_missing(Some(value)),
{
}

/// A value is visited as a map exactly when it is read as map entries, and
/// as a sequence exactly when it is read as items.
pub proof fn lemma_shape_matches_access<'a>(value: ReadView<'a>)
    ensures
        is_map(value) <==> any_shape(Some(value)) == AnyShape::Mapping,
        sequence_of(value) is Some <==> any_shape(Some(value)) == AnyShape::Sequence,
{
}

/// Collections and JSON arrays are visited as sequences, strings as
/// strings, and booleans as booleans.
pub proof fn lemma_shapes_follow_values<'a>(value: ReadView<'a>)
    ensures
        (value is Collection || value matches ReadView::Json(JsonValue::Array(_))) ==> any_shape(Some(value))
            == AnyShape::Sequence,
        (value is Text || value matches ReadView::Json(JsonValue::String(_))) ==> any_shape(Some(value)) == AnyShape::Str,
        (value matches ReadView::Json(JsonValue::Bool(_)) || value matches ReadView::Scalar(ScalarValue::Bool(_)))
            ==> any_shape(Some(value)) == AnyShape::Bool,
        value matches ReadView::Json(JsonValue::Number(JsonNumber::Float(_))) ==> any_shape(Some(value)) == AnyShape::Float64,
        value matches ReadView::Json(JsonValue::Number(JsonNumber::NegInt(_))) ==> any_shape(Some(value)) == AnyShape::Signed(
            IntWidth::W64,
        ),
{
}

/// Missing values, JSON null and unset scalars count as missing and are
/// visited as unit; nothing else is.
pub proof fn lemma_missing_values_are_unit<'a>(value: Option<ReadView<'a>>)
    ensures
        (value matches Some(ReadView::Missing(_)) || value matches Some(ReadView::Json(JsonValue::Null)) || value matches Some(
            ReadView::Scalar(ScalarValue::Unset(_)),
        )) <==> view_missing(value),
        view_missing(value) <==> any_shape(value) == AnyShape::Unit,
{
}

/// What a conversion reads of a JSON value: a floating-point number by its
/// text, an integer as `i64` where it fits and as `u64` above that, a
/// boolean as such, and null as null.
pub proof fn lemma_json_scalars_convert<'a>(
    context: ReadContext<'a>,
    value: &'a JsonValue,
    location: Option<SourceLocation>,
)
    ensures
        value matches JsonValue::Number(JsonNumber::Float(text)) ==> scalar_source(context, ReadView::Json(value), location)
            == ConversionSource::Float(text),
        value matches JsonValue::Number(JsonNumber::NegInt(n)) ==> scalar_source(context, ReadView::Json(value), location)
            == ConversionSource::Signed(*n),
        value matches JsonValue::Number(JsonNumber::PosInt(n)) ==> scalar_source(context, ReadView::Json(value), location)
            == if *n <= i64::MAX {
            ConversionSource::Signed(*n as i64)
        } else {
            ConversionSource::Unsigned(*n)
        },
        value matches JsonValue::Bool(flag) ==> scalar_source(context, ReadView::Json(value), location) == ConversionSource::Bool(
            *flag,
        ),
        *value == JsonValue::Null ==> scalar_source(context, ReadView::Json(value), location) == ConversionSource::Null,
{
}

/// What a conversion reads.
#[derive(Debug)]
pub enum ConversionSource<'a> {
    /// An item already admitted by a split scalar sequence.
    Admitted,
    /// A collection declared with this item type but without items.
    UnsetCollection(DeclaredType),
    /// A scalar declared with this type but without content.
    UnsetScalar(DeclaredType),
    /// Text: an interpolated replacement or a string leaf.
    Text(&'a str),
    /// A stored scalar.
    Scalar(&'a ScalarValue),
    /// A JSON boolean.
    Bool(bool),
    /// A JSON integer within `i64`.
    Signed(i64),
    /// A JSON integer above `i64::MAX`.
    Unsigned(u64),
    /// A JSON floating-point number, by its text.
    Float(&'a String),
    /// JSON null.
    Null,
    /// A value that is not a scalar.
    NotScalar,
}

/// How a value is read as a sequence.
#[derive(Debug)]
pub enum SequencePlan<'a> {
    /// The items of a collection or JSON array.
    Items(SequenceValues<'a>),
    /// Scalar text split into items by the conversion policy.
    Split(&'a str),
    /// The value cannot be read so.
    Refused(Expected),
}

/// One value under deserialization, apart from its conversion session.
#[derive(Debug)]
pub struct SourceDeserializer<'a> {
    /// The read that the value belongs to.
    pub context: ReadContext<'a>,
    /// The value; none for an item already admitted by a split scalar
    /// sequence.
    pub value: Option<ReadView<'a>>,
    /// Source location, kept only where the read needs it.
    pub location: Option<SourceLocation>,
    /// Absolute diagnostic path.
    pub path: String,
    /// Whether scalar text may be split into sequence items.
    pub allow_split: bool,
    /// Index of the outermost source item that holds the value, if known.
    pub original_index: Option<usize>,
}

/// How a value is read as an enum.
#[derive(Debug)]
pub enum EnumPlan<'a> {
    /// A unit variant named by the value's text.
    Named,
    /// The single entry of a map: the variant's name and its payload.
    Variant {
        /// The variant's name.
        key: &'a str,
        /// The payload of the variant.
        payload: SourceDeserializer<'a>,
    },
    /// The value cannot be read so.
    Refused(Expected),
}

/// Index of the outermost source item in a location, if any.
pub open spec fn location_index(location: Option<SourceLocation>) -> Option<usize> {
    match location {
        Some(location) => first_index(location.segments@),
        None => None,
    }
}

/// `first`, or else `second`.
pub open spec fn either(first: Option<usize>, second: Option<usize>) -> Option<usize> {
    match first {
        Some(index) => Some(index),
        None => second,
    }
}

/// The location a value keeps: only when the read needs locations or the
/// value is missing.
pub open spec fn kept_location<'a>(context: ReadContext<'a>, value: ReadView<'a>, location: Option<SourceLocation>) -> Option<SourceLocation> {
    if context.prepared.overlays@.len() > 0 || value is Missing {
        location
    } else {
        None
    }
}

/// The text of a value: its interpolated replacement, else its string leaf.
pub open spec fn deserializer_text(d: SourceDeserializer) -> Option<Seq<char>> {
    let leaf = match d.value {
        Some(value) => view_string(value),
        None => None,
    };
    match d.location {
        Some(location) => match overlay_at(d.context.prepared.overlays@, location) {
            Some(text) => Some(text),
            None => leaf,
        },
        None => leaf,
    }
}

/// What a conversion of a value reads, text aside: the stored scalar of a
/// missing property value, or the JSON scalar.
pub open spec fn scalar_source<'a>(context: ReadContext<'a>, value: ReadView<'a>, location: Option<SourceLocation>) -> ConversionSource<'a> {
    match value {
        ReadView::Scalar(scalar) => ConversionSource::Scalar(scalar),
        ReadView::Json(JsonValue::Bool(flag)) => ConversionSource::Bool(*flag),
        ReadView::Json(JsonValue::Number(number)) => match number_as_i64(*number) {
            Some(signed) => ConversionSource::Signed(signed),
            None => match number_as_u64(*number) {
                Some(unsigned) => ConversionSource::Unsigned(unsigned),
                None => match number {
                    JsonNumber::Float(text) => ConversionSource::Float(text),
                    _ => ConversionSource::NotScalar,
                },
            },
        },
        ReadView::Json(JsonValue::Null) => ConversionSource::Null,
        ReadView::Missing(_) => match location {
            Some(origin) => match context.prepared.sources.property_at(origin.property_index as int) {
                Some(property) => match property.value {
                    ValueContainer::Scalar(scalar) => ConversionSource::Scalar(&scalar),
                    _ => ConversionSource::NotScalar,
                },
                None => ConversionSource::NotScalar,
            },
            None => ConversionSource::NotScalar,
        },
        _ => ConversionSource::NotScalar,
    }
}

impl<'a> SourceDeserializer<'a> {
    /// A deserializer for a prepared value. Its source index comes from the
    /// location, which it keeps only when the read needs locations or the
    /// value is missing.
    pub fn new(
        context: ReadContext<'a>,
        value: ReadView<'a>,
        location: Option<SourceLocation>,
        path: String,
        allow_split: bool,
    ) -> (d: Self)
        ensures
            d.context == context,
            d.value == Some(value),
            d.location == kept_location(context, value, location),
            d.path == path,
            d.allow_split == allow_split,
            d.original_index == location_index(location),
    {
        let original_index = source_index(match &location {
            Some(found) => Some(found),
            None => None,
        });
        let keep = context.needs_locations() || match value {
            ReadView::Missing(_) => true,
            _ => false,
        };
        let location = if keep {
            location
        } else {
            None
        };
        SourceDeserializer { context, value: Some(value), location, path, allow_split, original_index }
    }

    /// The same deserializer with a source index known from outside, which
    /// takes precedence.
    pub fn with_source_index(self, index: Option<usize>) -> (d: Self)
        ensures
            d.context == self.context,
            d.value == self.value,
            d.location == self.location,
            d.path == self.path,
            d.allow_split == self.allow_split,
            d.original_index == either(index, self.original_index),
    {
        let mut d = self;
        d.original_index = match index {
            Some(index) => Some(index),
            None => d.original_index,
        };
        d
    }

    /// A deserializer for an item already admitted by a split scalar
    /// sequence, at its item index.
    pub fn admitted(context: ReadContext<'a>, path: String, source_index: usize) -> (d: Self)
        ensures
            d.context == context,
            d.value is None,
            d.location is None,
            d.path == path,
            !d.allow_split,
            d.original_index == Some(source_index),
    {
        SourceDeserializer { context, value: None, location: None, path, allow_split: false, original_index: Some(source_index) }
    }

    /// The borrowed value, unless the item was already admitted.
    pub fn view(&self) -> (value: Option<ReadView<'a>>)
        ensures
            value == self.value,
    {
        self.value
    }

    /// The value's text: the interpolated replacement of its location, else
    /// its own string leaf.
    pub fn string(&self) -> (text: Option<&'a str>)
        ensures
            match text {
                Some(text) => deserializer_text(*self) == Some(text@),
                None => deserializer_text(*self) is None,
            },
    {
        match &self.location {
            Some(location) => match overlay_text(&self.context.prepared.overlays, location) {
                Some(replacement) => return Some(replacement.as_str()),
                None => {},
            },
            None => {},
        }
        match self.value {
            Some(value) => value.string(),
            None => None,
        }
    }

    /// Whether the value counts as missing.
    pub fn is_missing(&self) -> (missing: bool)
        ensures
            missing == view_missing(self.value),
            missing <==> (self.value matches Some(ReadView::Missing(_)) || self.value matches Some(ReadView::Json(JsonValue::Null))
                || self.value matches Some(ReadView::Scalar(ScalarValue::Unset(_)))),
            self.value matches Some(ReadView::Missing(_)) ==> missing,
            self.value matches Some(ReadView::Json(JsonValue::Null)) ==> missing,
            self.value matches Some(ReadView::Scalar(ScalarValue::Unset(_))) ==> missing,
            self.value is None ==> !missing,
            self.value matches Some(ReadView::Text(_)) ==> !missing,
            self.value matches Some(ReadView::Object(_)) ==> !missing,
            self.value matches Some(ReadView::Collection(_)) ==> !missing,
            self.value matches Some(ReadView::StringMap(_)) ==> !missing,
    {
        match self.value {
            Some(ReadView::Missing(_)) | Some(ReadView::Json(JsonValue::Null)) | Some(ReadView::Scalar(ScalarValue::Unset(_))) => true,
            _ => false,
        }
    }

    /// What a self-describing request visits.
    pub fn any_shape(&self) -> (shape: AnyShape)
        ensures
            shape == any_shape(self.value),
            shape == AnyShape::Unit <==> view_missing(self.value),
            self.value matches Some(ReadView::Missing(_)) ==> shape == AnyShape::Unit,
            self.value matches Some(ReadView::Json(JsonValue::Null)) ==> shape == AnyShape::Unit,
            self.value matches Some(ReadView::Scalar(ScalarValue::Unset(_))) ==> shape == AnyShape::Unit,
            self.value matches Some(v) && is_map(v) ==> shape == AnyShape::Mapping,
            self.value matches Some(ReadView::Object(_)) ==> shape == AnyShape::Mapping,
            self.value matches Some(ReadView::StringMap(_)) ==> shape == AnyShape::Mapping,
            self.value matches Some(ReadView::Json(JsonValue::Object(_))) ==> shape == AnyShape::Mapping,
            self.value matches Some(ReadView::Collection(_)) ==> shape == AnyShape::Sequence,
            self.value matches Some(ReadView::Json(JsonValue::Array(_))) ==> shape == AnyShape::Sequence,
            self.value matches Some(ReadView::Text(_)) ==> shape == AnyShape::Str,
            self.value matches Some(ReadView::Json(JsonValue::String(_))) ==> shape == AnyShape::Str,
            self.value matches Some(ReadView::Json(JsonValue::Bool(_))) ==> shape == AnyShape::Bool,
            self.value matches Some(ReadView::Scalar(ScalarValue::Bool(_))) ==> shape == AnyShape::Bool,
            self.value matches Some(ReadView::Scalar(ScalarValue::Signed(width, _))) ==> shape == AnyShape::Signed(*width),
            self.value matches Some(ReadView::Scalar(ScalarValue::Unsigned(width, _))) ==> shape == AnyShape::Unsigned(*width),
            self.value matches Some(ReadView::Json(JsonValue::Number(JsonNumber::NegInt(_)))) ==> shape == AnyShape::Signed(IntWidth::W64),
            self.value matches Some(ReadView::Json(JsonValue::Number(JsonNumber::PosInt(n)))) ==> shape == if *n <= i64::MAX {
                AnyShape::Signed(IntWidth::W64)
            } else {
                AnyShape::Unsigned(IntWidth::W64)
            },
            self.value matches Some(ReadView::Json(JsonValue::Number(JsonNumber::Float(_)))) ==> shape == AnyShape::Float64,
            self.value matches Some(ReadView::Scalar(ScalarValue::Float32(_))) ==> shape == AnyShape::Float32,
            self.value matches Some(ReadView::Scalar(ScalarValue::Float64(_))) ==> shape == AnyShape::Float64,
            self.value matches Some(ReadView::Scalar(ScalarValue::String(_))) ==> shape == AnyShape::Str,
            self.value matches Some(ReadView::Scalar(ScalarValue::Other(_))) ==> shape == AnyShape::Str,
    {
        match self.value {
            Some(ReadView::Missing(_)) | Some(ReadView::Json(JsonValue::Null)) | Some(ReadView::Scalar(ScalarValue::Unset(_))) => AnyShape::Unit,
            Some(ReadView::Scalar(ScalarValue::Bool(_))) | Some(ReadView::Json(JsonValue::Bool(_))) => AnyShape::Bool,
            Some(ReadView::Scalar(ScalarValue::Signed(width, _))) => AnyShape::Signed(*width),
            Some(ReadView::Scalar(ScalarValue::Unsigned(width, _))) => AnyShape::Unsigned(*width),
            Some(ReadView::Scalar(ScalarValue::Float32(_))) => AnyShape::Float32,
            Some(ReadView::Scalar(ScalarValue::Float64(_))) => AnyShape::Float64,
            Some(ReadView::Json(JsonValue::Number(number))) => {
                if number.as_i64().is_some() {
                    AnyShape::Signed(IntWidth::W64)
                } else if number.as_u64().is_some() {
                    AnyShape::Unsigned(IntWidth::W64)
                } else {
                    AnyShape::Float64
                }
            },
            Some(ReadView::Collection(_)) | Some(ReadView::Json(JsonValue::Array(_))) => AnyShape::Sequence,
            Some(ReadView::Object(_)) | Some(ReadView::StringMap(_)) | Some(ReadView::Json(JsonValue::Object(_))) => AnyShape::Mapping,
            _ => AnyShape::Str,
        }
    }

    /// What a conversion of the value reads. An item already admitted is
    /// converted by its session; an unset collection or scalar converts as
    /// such; otherwise the value's text, if any, is converted; failing that,
    /// its scalar: a stored scalar, a JSON scalar, or, for a missing value,
    /// the stored scalar of the property at its location.
    pub fn conversion_source(&self) -> (source: ConversionSource<'a>)
        ensures
            match self.value {
                None => source is Admitted,
                Some(ReadView::Missing(MissingReason::UnsetCollection(declared))) => source == ConversionSource::UnsetCollection(
                    declared,
                ),
                Some(ReadView::Missing(MissingReason::UnsetScalar(declared))) => source == ConversionSource::UnsetScalar(
                    declared,
                ),
                Some(value) => match deserializer_text(*self) {
                    Some(text) => source matches ConversionSource::Text(t) && t@ == text,
                    None => source == scalar_source(self.context, value, self.location),
                },
            },
            deserializer_text(*self) is None ==> match self.value {
                Some(ReadView::Json(JsonValue::Number(JsonNumber::Float(text)))) => source == ConversionSource::Float(text),
                Some(ReadView::Json(JsonValue::Number(JsonNumber::NegInt(n)))) => source == ConversionSource::Signed(*n),
                Some(ReadView::Json(JsonValue::Number(JsonNumber::PosInt(n)))) => source == if *n <= i64::MAX {
                    ConversionSource::Signed(*n as i64)
                } else {
                    ConversionSource::Unsigned(*n)
                },
                Some(ReadView::Json(JsonValue::Bool(flag))) => source == ConversionSource::Bool(*flag),
                Some(ReadView::Json(JsonValue::Null)) => source == ConversionSource::Null,
                Some(ReadView::Scalar(scalar)) => source == ConversionSource::Scalar(scalar),
                Some(ReadView::Object(_)) | Some(ReadView::Collection(_)) | Some(ReadView::StringMap(_)) | Some(
                    ReadView::Json(JsonValue::Array(_)),
                ) | Some(ReadView::Json(JsonValue::Object(_))) => source is NotScalar,
                _ => true,
            },
    {
        let value = match self.value {
            Some(value) => value,
            None => return ConversionSource::Admitted,
        };
        match value {
            ReadView::Missing(MissingReason::UnsetCollection(declared)) => return ConversionSource::UnsetCollection(declared),
            ReadView::Missing(MissingReason::UnsetScalar(declared)) => return ConversionSource::UnsetScalar(declared),
            _ => {},
        }
        match self.string() {
            Some(text) => return ConversionSource::Text(text),
            None => {},
        }
        match value {
            ReadView::Scalar(scalar) => ConversionSource::Scalar(scalar),
            ReadView::Json(JsonValue::Bool(flag)) => ConversionSource::Bool(*flag),
            ReadView::Json(JsonValue::Number(number)) => match number.as_i64() {
                Some(signed) => ConversionSource::Signed(signed),
                None => match number.as_u64() {
                    Some(unsigned) => ConversionSource::Unsigned(unsigned),
                    None => match number {
                        JsonNumber::Float(text) => ConversionSource::Float(text),
                        _ => ConversionSource::NotScalar,
                    },
                },
            },
            ReadView::Json(JsonValue::Null) => ConversionSource::Null,
            ReadView::Missing(_) => match &self.location {
                Some(origin) => match self.context.prepared.sources.property(origin.property_index) {
                    Some(property) => match &property.value {
                        ValueContainer::Scalar(scalar) => ConversionSource::Scalar(scalar),
                        _ => ConversionSource::NotScalar,
                    },
                    None => ConversionSource::NotScalar,
                },
                None => ConversionSource::NotScalar,
            },
            _ => ConversionSource::NotScalar,
        }
    }

    /// How the value is read as a sequence of `expected_len` items, or of
    /// any length: the items of a collection or JSON array, refused when
    /// their number differs from a requested tuple length; else, where
    /// allowed, its text split into items.
    pub fn sequence_plan(&self, expected_len: Option<usize>) -> (plan: SequencePlan<'a>)
        ensures
            match self.value {
                None => plan == SequencePlan::Refused(Expected::Sequence),
                Some(value) => match sequence_of(value) {
                    Some(values) => if expected_len matches Some(length) && length != values.count() {
                        plan == SequencePlan::Refused(Expected::TupleLength)
                    } else {
                        plan == SequencePlan::Items(values)
                    },
                    None => match deserializer_text(*self) {
                        Some(text) if self.allow_split => plan matches SequencePlan::Split(t) && t@ == text,
                        _ => plan == SequencePlan::Refused(Expected::Sequence),
                    },
                },
            },
    {
        let text = self.string();
        let value = match self.value {
            Some(value) => value,
            None => return SequencePlan::Refused(Expected::Sequence),
        };
        match SequenceValues::from_view(value) {
            Some(values) => {
                match expected_len {
                    Some(length) => if length != values.len() {
                        return SequencePlan::Refused(Expected::TupleLength);
                    },
                    None => {},
                }
                return SequencePlan::Items(values);
            },
            None => {},
        }
        if self.allow_split {
            match text {
                Some(text) => return SequencePlan::Split(text),
                None => {},
            }
        }
        SequencePlan::Refused(Expected::Sequence)
    }

    /// The entries of the value read as a map.
    pub fn map_entries(&self) -> (entries: Result<MapEntries<'a>, Expected>)
        ensures
            match self.value {
                Some(value) if is_map(value) => entries matches Ok(e) && e.container() == value && e.position() == 0,
                _ => entries == Err::<MapEntries<'a>, Expected>(Expected::Mapping),
            },
    {
        let value = match self.value {
            Some(value) => value,
            None => return Err(Expected::Mapping),
        };
        match MapEntries::new(value) {
            Some(entries) => Ok(entries),
            None => Err(Expected::Mapping),
        }
    }
}

/// A key segment adds no source index.
pub proof fn lemma_first_index_push_key(segments: Seq<SourceSegment>, last: SourceSegment)
    requires
        last is Key,
    ensures
        first_index(segments.push(last)) == first_index(segments),
    decreases segments.len(),
{
    let pushed = segments.push(last);
    if segments.len() == 0 {
        assert(pushed.drop_first() =~= Seq::<SourceSegment>::empty());
        assert(pushed[0] == last);
        assert(first_index(pushed.drop_first()) is None);
    } else {
        assert(pushed[0] == segments[0]);
        assert(pushed.drop_first() =~= segments.drop_first().push(last));
        lemma_first_index_push_key(segments.drop_first(), last);
    }
}

/// `d` deserializes the entry `key` of a map at `parent` and `path`: its
/// location is its own stored one, else the parent's one key further, kept
/// where the read needs it; its path is the key below the map's; scalar text
/// may be split; the map's source index takes precedence over the entry's.
pub open spec fn is_entry_deserializer<'a>(
    d: SourceDeserializer<'a>,
    context: ReadContext<'a>,
    parent: Option<SourceLocation>,
    path: Seq<char>,
    original_index: Option<usize>,
    key: Seq<char>,
    value: ReadView<'a>,
    origin: Option<SourceLocation>,
) -> bool {
    &&& d.context == context
    &&& d.value == Some(value)
    &&& d.path@ == child_key_spec(path, key)
    &&& d.allow_split
    &&& place_value(d.location) == if context.prepared.overlays@.len() > 0 || value is Missing {
        match origin {
            Some(origin) => place_value(Some(origin)),
            None => match parent {
                Some(parent) => Some((parent.property_index, segments_view(parent.segments@).push(SegmentView::Key(key)))),
                None => None,
            },
        }
    } else {
        None
    }
    &&& d.original_index == either(
        original_index,
        match origin {
            Some(origin) => first_index(origin.segments@),
            None => location_index(parent),
        },
    )
}

/// The deserializer of the entry `key` of a map at `parent` and `path`.
pub fn entry_deserializer<'a>(
    context: ReadContext<'a>,
    parent: &Option<SourceLocation>,
    path: &str,
    original_index: Option<usize>,
    key: &'a str,
    value: ReadView<'a>,
    origin: Option<SourceLocation>,
) -> (d: SourceDeserializer<'a>)
    ensures
        is_entry_deserializer(d, context, *parent, path@, original_index, key@, value, origin),
{
    let location = match origin {
        Some(origin) => Some(origin),
        None => match parent {
            Some(parent) => Some(parent.child(SourceSegment::Key(key.to_owned()))),
            None => None,
        },
    };
    let ghost built = location;
    proof {
        if origin is None && parent is Some {
            lemma_first_index_push_key(parent.unwrap().segments@, built.unwrap().segments@.last());
            assert(built.unwrap().segments@ == parent.unwrap().segments@.push(built.unwrap().segments@.last()));
        }
        match built {
            Some(found) => {
                assert(segments_view(found.segments@) =~= match origin {
                    Some(origin) => segments_view(origin.segments@),
                    None => segments_view(parent.unwrap().segments@).push(SegmentView::Key(key@)),
                });
            },
            None => {},
        }
    }
    SourceDeserializer::new(context, value, location, child_key(path, key), true).with_source_index(original_index)
}

/// `d` deserializes item `index` of a sequence at `parent` and `path`: its
/// location is the parent's one index further, kept where the read needs
/// it; its path is the index below the sequence's; scalar text is not split;
/// the sequence's source index takes precedence over the item's index.
pub open spec fn is_element_deserializer<'a>(
    d: SourceDeserializer<'a>,
    context: ReadContext<'a>,
    parent: Option<SourceLocation>,
    path: Seq<char>,
    original_index: Option<usize>,
    index: usize,
    value: ReadView<'a>,
) -> bool {
    &&& d.context == context
    &&& d.value == Some(value)
    &&& d.path@ == child_index_spec(path, index as nat)
    &&& !d.allow_split
    &&& place_value(d.location) == if context.prepared.overlays@.len() > 0 || value is Missing {
        match parent {
            Some(parent) => Some((parent.property_index, segments_view(parent.segments@).push(SegmentView::Index(index)))),
            None => None,
        }
    } else {
        None
    }
    &&& d.original_index == either(original_index, Some(index))
}

/// The deserializer of item `index` of a sequence at `parent` and `path`.
pub fn element_deserializer<'a>(
    context: ReadContext<'a>,
    parent: &Option<SourceLocation>,
    path: &str,
    original_index: Option<usize>,
    index: usize,
    value: ReadView<'a>,
) -> (d: SourceDeserializer<'a>)
    ensures
        is_element_deserializer(d, context, *parent, path@, original_index, index, value),
{
    let location = match parent {
        Some(parent) => Some(parent.child(SourceSegment::Index(index))),
        None => None,
    };
    let ghost built = location;
    proof {
        match built {
            Some(found) => {
                assert(segments_view(found.segments@) =~= segments_view(parent.unwrap().segments@).push(SegmentView::Index(index)));
            },
            None => {},
        }
    }
    let item_index = match original_index {
        Some(outer) => Some(outer),
        None => Some(index),
    };
    SourceDeserializer::new(context, value, location, child_index(path, index), false).with_source_index(item_index)
}

impl<'a> SourceDeserializer<'a> {
    /// How the value is read as an enum: by its text, or an admitted item,
    /// as a unit variant; else a map with exactly one entry, whose key names
    /// the variant and whose value is the payload.
    pub fn enum_plan(&self) -> (plan: EnumPlan<'a>)
        requires
            self.value matches Some(value) ==> children_in_arena(self.context.prepared, value),
        ensures
            match self.value {
                None => plan is Named,
                Some(value) => if deserializer_text(*self) is Some {
                    plan is Named
                } else if !is_map(value) {
                    plan == EnumPlan::Refused(Expected::Enum)
                } else if child_count(value) != 1 {
                    plan == EnumPlan::Refused(Expected::SingleVariant)
                } else {
                    plan matches EnumPlan::Variant { key, payload } && {
                        &&& child_step(value, 0) matches SourceSegment::Key(name) && key@ == name@
                        &&& is_entry_deserializer(
                            payload,
                            self.context,
                            self.location,
                            self.path@,
                            self.original_index,
                            key@,
                            child_view(self.context.prepared, value, 0),
                            if self.context.prepared.overlays@.len() > 0 || child_view(self.context.prepared, value, 0) is Missing {
                                child_origin(self.context.prepared, value, 0)
                            } else {
                                None
                            },
                        )
                    }
                },
            },
    {
        let value = match self.value {
            Some(value) => value,
            None => return EnumPlan::Named,
        };
        if self.string().is_some() {
            return EnumPlan::Named;
        }
        let mut entries = match MapEntries::new(value) {
            Some(entries) => entries,
            None => return EnumPlan::Refused(Expected::Enum),
        };
        let (key, entry, origin) = match entries.next(self.context) {
            Some(first) => first,
            None => return EnumPlan::Refused(Expected::SingleVariant),
        };
        let ghost first_origin = origin;
        if entries.next(self.context).is_some() {
            return EnumPlan::Refused(Expected::SingleVariant);
        }
        proof {
            assert(location_view(first_origin) == location_view(if self.context.prepared.overlays@.len() > 0 || entry is Missing {
                child_origin(self.context.prepared, value, 0)
            } else {
                None
            }));
        }
        let payload = entry_deserializer(self.context, &self.location, self.path.as_str(), self.original_index, key, entry, origin);
        EnumPlan::Variant { key, payload }
    }
}

/// The entries of a map under deserialization, each key read before its
/// value.
#[derive(Debug)]
pub struct SourceMapAccess<'a> {
    /// The read that the map belongs to.
    pub context: ReadContext<'a>,
    /// Remaining entries.
    pub entries: MapEntries<'a>,
    /// Location of the map, when kept.
    pub location: Option<SourceLocation>,
    /// Path of the map.
    pub path: String,
    /// Source index of the map.
    pub original_index: Option<usize>,
    /// The entry whose key was read and whose value was not.
    pub pending: Option<(&'a str, ReadView<'a>, Option<SourceLocation>)>,
}

impl<'a> SourceMapAccess<'a> {
    /// Access to the entries of a map, none read yet.
    pub fn new(
        context: ReadContext<'a>,
        entries: MapEntries<'a>,
        location: Option<SourceLocation>,
        path: String,
        original_index: Option<usize>,
    ) -> (access: Self)
        ensures
            access.context == context,
            access.entries == entries,
            access.location == location,
            access.path == path,
            access.original_index == original_index,
            access.pending is None,
    {
        SourceMapAccess { context, entries, location, path, original_index, pending: None }
    }

    /// Reads the next key, unless a value is still owed for the last one.
    pub fn next_key(&mut self) -> (key: Result<Option<&'a str>, Expected>)
        requires
            children_in_arena(old(self).context.prepared, old(self).entries.container()),
        ensures
            final(self).context == old(self).context,
            final(self).location == old(self).location,
            final(self).path == old(self).path,
            final(self).original_index == old(self).original_index,
            final(self).entries.container() == old(self).entries.container(),
            old(self).pending is Some ==> key == Err::<Option<&'a str>, Expected>(Expected::PendingValue)
                && final(self).entries == old(self).entries && final(self).pending == old(self).pending,
            old(self).pending is None ==> match key {
                Ok(Some(name)) => {
                    let k = old(self).entries.position() as int;
                    &&& k < child_count(old(self).entries.container())
                    &&& final(self).entries.position() == k + 1
                    &&& final(self).pending matches Some(entry) && entry.0 == name && entry.1 == child_view(
                        old(self).context.prepared,
                        old(self).entries.container(),
                        k,
                    )
                    &&& child_step(old(self).entries.container(), k) matches SourceSegment::Key(step) && name@ == step@
                },
                Ok(None) => old(self).entries.position() >= child_count(old(self).entries.container())
                    && final(self).pending is None,
                Err(_) => false,
            },
    {
        if self.pending.is_some() {
            return Err(Expected::PendingValue);
        }
        match self.entries.next(self.context) {
            None => Ok(None),
            Some(entry) => {
                let key = entry.0;
                self.pending = Some(entry);
                Ok(Some(key))
            },
        }
    }

    /// The value of the key just read.
    pub fn next_value(&mut self) -> (value: Result<SourceDeserializer<'a>, Expected>)
        ensures
            final(self).context == old(self).context,
            final(self).entries == old(self).entries,
            final(self).location == old(self).location,
            final(self).path == old(self).path,
            final(self).original_index == old(self).original_index,
            final(self).pending is None,
            match old(self).pending {
                None => value == Err::<SourceDeserializer<'a>, Expected>(Expected::PrecedingKey),
                Some((key, entry, origin)) => value matches Ok(d) && is_entry_deserializer(
                    d,
                    old(self).context,
                    old(self).location,
                    old(self).path@,
                    old(self).original_index,
                    key@,
                    entry,
                    origin,
                ),
            },
    {
        match self.pending.take() {
            None => Err(Expected::PrecedingKey),
            Some((key, entry, origin)) => Ok(
                entry_deserializer(self.context, &self.location, self.path.as_str(), self.original_index, key, entry, origin),
            ),
        }
    }

    /// Number of entries not yet read.
    pub fn size_hint(&self) -> (count: usize)
        requires
            self.entries.position() <= child_count(self.entries.container()),
        ensures
            count == child_count(self.entries.container()) - self.entries.position(),
    {
        self.entries.len()
    }
}

/// The items of a sequence under deserialization.
#[derive(Debug)]
pub struct SourceSeqAccess<'a> {
    /// The read that the sequence belongs to.
    pub context: ReadContext<'a>,
    /// The items.
    pub values: SequenceValues<'a>,
    /// Location of the sequence, when kept.
    pub location: Option<SourceLocation>,
    /// Path of the sequence.
    pub path: String,
    /// Number of items already read.
    pub index: usize,
    /// Source index of the sequence.
    pub original_index: Option<usize>,
}

impl<'a> SourceSeqAccess<'a> {
    /// Access to the items of a sequence, none read yet.
    pub fn new(
        context: ReadContext<'a>,
        values: SequenceValues<'a>,
        location: Option<SourceLocation>,
        path: String,
        original_index: Option<usize>,
    ) -> (access: Self)
        ensures
            access.context == context,
            access.values == values,
            access.location == location,
            access.path == path,
            access.index == 0,
            access.original_index == original_index,
    {
        SourceSeqAccess { context, values, location, path, index: 0, original_index }
    }

    /// The deserializer of the next item, if any is left.
    pub fn next_element(&mut self) -> (element: Option<SourceDeserializer<'a>>)
        ensures
            final(self).context == old(self).context,
            final(self).values == old(self).values,
            final(self).location == old(self).location,
            final(self).path == old(self).path,
            final(self).original_index == old(self).original_index,
            match old(self).values.item(old(self).index as int) {
                None => element is None && final(self).index == old(self).index,
                Some(value) => final(self).index == old(self).index + 1 && (element matches Some(d)
                    && is_element_deserializer(
                    d,
                    old(self).context,
                    old(self).location,
                    old(self).path@,
                    old(self).original_index,
                    old(self).index,
                    value,
                )),
            },
    {
        let value = match self.values.get(self.index) {
            Some(value) => value,
            None => return None,
        };
        let index = self.index;
        let count = self.values.len();
        assert(index < count);
        let d = element_deserializer(self.context, &self.location, self.path.as_str(), self.original_index, index, value);
        self.index = index + 1;
        Some(d)
    }

    /// Number of items not yet read.
    pub fn size_hint(&self) -> (count: usize)
        requires
            self.index <= self.values.count(),
        ensures
            count == self.values.count() - self.index,
    {
        self.values.len() - self.index
    }
}

/// What reading split text into `expected_len` items ends with, given
/// whether an item is left after the ones read: a tuple of fixed length
/// refuses surplus items; a sequence of any length has none left.
pub fn split_surplus_refusal(expected_len: Option<usize>, surplus: bool) -> (refusal: Option<Expected>)
    ensures
        refusal == (if expected_len is Some && surplus {
            Some(Expected::TupleLength)
        } else {
            None::<Expected>
        }),
{
    if expected_len.is_some() && surplus {
        Some(Expected::TupleLength)
    } else {
        None
    }
}

} // verus!
