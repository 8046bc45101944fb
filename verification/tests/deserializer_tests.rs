use qubit_config::index_capacity::IndexLimits;
use qubit_config::map_entries::MapEntries;
use qubit_config::prepared_read::prepare_read;
use qubit_config::read_context::ReadContext;
use qubit_config::read_view::ReadView;
use qubit_config::sequence_values::SequenceValues;
use qubit_config::source_deserializer::element_deserializer;
use qubit_config::source_deserializer::entry_deserializer;
use qubit_config::source_deserializer::AnyShape;
use qubit_config::source_deserializer::ConversionSource;
use qubit_config::source_deserializer::EnumPlan;
use qubit_config::source_deserializer::Expected;
use qubit_config::source_deserializer::SequencePlan;
use qubit_config::source_deserializer::SourceDeserializer;
use qubit_config::source_deserializer::SourceMapAccess;
use qubit_config::source_deserializer::SourceSeqAccess;
use qubit_config::source_location::SourceLocation;
use qubit_config::source_segment::SourceSegment;
use qubit_config::value::CollectionValue;
use qubit_config::value::DeclaredType;
use qubit_config::value::IntWidth;
use qubit_config::value::JsonNumber;
use qubit_config::value::JsonValue;
use qubit_config::value::MissingReason;
use qubit_config::value::Property;
use qubit_config::value::ScalarValue;
use qubit_config::value::ValueContainer;
use qubit_config::prepared_read::PreparedConfigRead;

fn limits() -> IndexLimits {
    IndexLimits {
        max_nodes: 1000,
        max_depth: None,
        max_key_bytes: None,
        max_input_bytes: 100_000,
        max_structured_payload_bytes: 100_000,
        max_map_entries: 1000,
    }
}

fn property(name: &str, value: ScalarValue) -> Property {
    Property { name: name.to_owned(), value: ValueContainer::Scalar(value) }
}

fn read<'a>(properties: &'a [Property]) -> PreparedConfigRead<'a> {
    let entries: Vec<(String, &'a Property)> = properties.iter().map(|p| (p.name.clone(), p)).collect();
    prepare_read("", String::new(), None, false, &entries, limits()).unwrap()
}

fn location(property_index: usize, segments: Vec<SourceSegment>) -> SourceLocation {
    SourceLocation { property_index, segments }
}

#[test]
fn self_describing_requests_follow_the_value_shape() {
    let properties: Vec<Property> = Vec::new();
    let prepared = read(&properties);
    let context = ReadContext { prepared: &prepared };
    let shape = |value: ReadView<'_>| SourceDeserializer::new(context, value, None, String::new(), true).any_shape();
    let small = ScalarValue::Signed(IntWidth::W8, -3);
    let wide = ScalarValue::Unsigned(IntWidth::W32, 3);
    let unset = ScalarValue::Unset(DeclaredType::Int32);
    let other = ScalarValue::Other("P1D".to_owned());
    let big = JsonValue::Number(JsonNumber::PosInt(u64::MAX));
    let negative = JsonValue::Number(JsonNumber::NegInt(-1));
    let float = JsonValue::Number(JsonNumber::Float("1.5".to_owned()));
    let null = JsonValue::Null;
    let array = JsonValue::Array(Vec::new());
    assert_eq!(shape(ReadView::Scalar(&small)), AnyShape::Signed(IntWidth::W8));
    assert_eq!(shape(ReadView::Scalar(&wide)), AnyShape::Unsigned(IntWidth::W32));
    assert_eq!(shape(ReadView::Scalar(&unset)), AnyShape::Unit);
    assert_eq!(shape(ReadView::Scalar(&other)), AnyShape::Str);
    assert_eq!(shape(ReadView::Json(&big)), AnyShape::Unsigned(IntWidth::W64));
    assert_eq!(shape(ReadView::Json(&negative)), AnyShape::Signed(IntWidth::W64));
    assert_eq!(shape(ReadView::Json(&float)), AnyShape::Float64);
    assert_eq!(shape(ReadView::Json(&null)), AnyShape::Unit);
    assert_eq!(shape(ReadView::Json(&array)), AnyShape::Sequence);
    assert_eq!(shape(ReadView::Missing(MissingReason::BlankString)), AnyShape::Unit);
    let admitted = SourceDeserializer::admitted(context, "list[0]".to_owned(), 0);
    assert_eq!(admitted.any_shape(), AnyShape::Str);
    assert!(!admitted.is_missing());
    assert_eq!(admitted.original_index, Some(0));
}

#[test]
fn conversions_read_text_first_then_the_scalar() {
    let properties = vec![property("a", ScalarValue::String("${x}".to_owned()))];
    let mut prepared = read(&properties);
    let here = location(0, Vec::new());
    prepared.overlays.push((location(0, Vec::new()), "replaced".to_owned()));
    let context = ReadContext { prepared: &prepared };
    let leaf = ReadView::from_node(&prepared.nodes[1]);
    let d = SourceDeserializer::new(context, leaf, Some(here), "a".to_owned(), true);
    assert_eq!(d.string(), Some("replaced"));
    assert!(matches!(d.conversion_source(), ConversionSource::Text("replaced")));
    let flag = JsonValue::Bool(true);
    let d = SourceDeserializer::new(context, ReadView::Json(&flag), None, "b".to_owned(), true);
    assert!(matches!(d.conversion_source(), ConversionSource::Bool(true)));
    let d = SourceDeserializer::new(context, ReadView::Missing(MissingReason::UnsetCollection(DeclaredType::Bool)), None, "c".to_owned(), true);
    assert!(matches!(d.conversion_source(), ConversionSource::UnsetCollection(DeclaredType::Bool)));
    let d = SourceDeserializer::new(context, ReadView::Missing(MissingReason::BlankString), Some(location(0, Vec::new())), "a".to_owned(), true);
    assert!(matches!(d.conversion_source(), ConversionSource::Text("replaced")));
    let plain = read(&properties);
    let plain_context = ReadContext { prepared: &plain };
    let d = SourceDeserializer::new(plain_context, ReadView::Missing(MissingReason::BlankString), Some(location(0, Vec::new())), "a".to_owned(), true);
    match d.conversion_source() {
        ConversionSource::Scalar(ScalarValue::String(stored)) => assert_eq!(stored, "${x}"),
        other => panic!("unexpected {other:?}"),
    }
    let object = JsonValue::Object(Vec::new());
    let d = SourceDeserializer::new(context, ReadView::Json(&object), None, "d".to_owned(), true);
    assert!(matches!(d.conversion_source(), ConversionSource::NotScalar));
}

#[test]
fn locations_are_kept_only_when_needed() {
    let properties: Vec<Property> = Vec::new();
    let prepared = read(&properties);
    let context = ReadContext { prepared: &prepared };
    assert!(!context.needs_locations());
    let text = "x".to_owned();
    let d = SourceDeserializer::new(context, ReadView::Text(&text), Some(location(2, vec![SourceSegment::Index(4)])), "p".to_owned(), true);
    assert!(d.location.is_none());
    assert_eq!(d.original_index, Some(4));
    let d = d.with_source_index(Some(1));
    assert_eq!(d.original_index, Some(1));
    let d = SourceDeserializer::new(context, ReadView::Missing(MissingReason::UnsetScalar(DeclaredType::Url)), Some(location(2, Vec::new())), "p".to_owned(), true);
    assert!(d.location.is_some());
    assert!(d.is_missing());
}

#[test]
fn sequences_check_the_requested_tuple_length() {
    let properties: Vec<Property> = Vec::new();
    let prepared = read(&properties);
    let context = ReadContext { prepared: &prepared };
    let items = vec![ScalarValue::Bool(true), ScalarValue::Bool(false)];
    let d = SourceDeserializer::new(context, ReadView::Collection(&items), None, "list".to_owned(), true);
    assert!(matches!(d.sequence_plan(Some(3)), SequencePlan::Refused(Expected::TupleLength)));
    assert!(matches!(d.sequence_plan(Some(2)), SequencePlan::Items(values) if values.len() == 2));
    assert!(matches!(d.sequence_plan(None), SequencePlan::Items(_)));
    let text = "a,b".to_owned();
    let d = SourceDeserializer::new(context, ReadView::Text(&text), None, "csv".to_owned(), true);
    assert!(matches!(d.sequence_plan(None), SequencePlan::Split("a,b")));
    let d = SourceDeserializer::new(context, ReadView::Text(&text), None, "csv".to_owned(), false);
    assert!(matches!(d.sequence_plan(None), SequencePlan::Refused(Expected::Sequence)));
    assert_eq!(Expected::TupleLength.text(), "a tuple with the requested length");
}

#[test]
fn enums_need_a_single_variant_entry() {
    let properties: Vec<Property> = Vec::new();
    let prepared = read(&properties);
    let context = ReadContext { prepared: &prepared };
    let unit = JsonValue::String("Red".to_owned());
    let d = SourceDeserializer::new(context, ReadView::Json(&unit), None, "color".to_owned(), true);
    assert!(matches!(d.enum_plan(), EnumPlan::Named));
    let two = JsonValue::Object(vec![("A".to_owned(), JsonValue::Null), ("B".to_owned(), JsonValue::Null)]);
    let d = SourceDeserializer::new(context, ReadView::Json(&two), None, "color".to_owned(), true);
    assert!(matches!(d.enum_plan(), EnumPlan::Refused(Expected::SingleVariant)));
    let one = JsonValue::Object(vec![("Rgb".to_owned(), JsonValue::Number(JsonNumber::PosInt(7)))]);
    let d = SourceDeserializer::new(context, ReadView::Json(&one), None, "color".to_owned(), true).with_source_index(Some(5));
    match d.enum_plan() {
        EnumPlan::Variant { key, payload } => {
            assert_eq!(key, "Rgb");
            assert_eq!(payload.path, "color.Rgb");
            assert_eq!(payload.original_index, Some(5));
            assert!(payload.allow_split);
        }
        other => panic!("unexpected {other:?}"),
    }
    let number = JsonValue::Number(JsonNumber::PosInt(1));
    let d = SourceDeserializer::new(context, ReadView::Json(&number), None, "color".to_owned(), true);
    assert!(matches!(d.enum_plan(), EnumPlan::Refused(Expected::Enum)));
}

#[test]
fn map_access_reads_each_key_before_its_value() {
    let properties = vec![property("m.x", ScalarValue::Bool(true)), property("m.y", ScalarValue::Bool(false))];
    let prepared = read(&properties);
    let context = ReadContext { prepared: &prepared };
    let root = SourceDeserializer::new(context, ReadView::from_node(&prepared.nodes[0]), None, String::new(), true);
    let entries = root.map_entries().unwrap();
    let mut access = SourceMapAccess::new(context, entries, None, String::new(), None);
    assert_eq!(access.size_hint(), 1);
    assert!(matches!(access.next_value(), Err(Expected::PrecedingKey)));
    assert_eq!(access.next_key(), Ok(Some("m")));
    assert!(matches!(access.next_key(), Err(Expected::PendingValue)));
    let m = access.next_value().unwrap();
    assert_eq!(m.path, "m");
    assert_eq!(access.next_key(), Ok(None));
    let entries = m.map_entries().unwrap();
    let mut inner = SourceMapAccess::new(context, entries, None, m.path.clone(), None);
    assert_eq!(inner.size_hint(), 2);
    assert_eq!(inner.next_key(), Ok(Some("x")));
    let x = inner.next_value().unwrap();
    assert_eq!(x.path, "m.x");
    assert_eq!(x.any_shape(), AnyShape::Bool);
    let text = "t".to_owned();
    assert!(matches!(SourceDeserializer::new(context, ReadView::Text(&text), None, String::new(), true).map_entries(), Err(Expected::Mapping)));
}

#[test]
fn map_entries_yield_keys_in_order() {
    let entries_vec = vec![("k1".to_owned(), "v1".to_owned()), ("k2".to_owned(), "v2".to_owned())];
    let properties: Vec<Property> = Vec::new();
    let prepared = read(&properties);
    let context = ReadContext { prepared: &prepared };
    let mut entries = MapEntries::new(ReadView::StringMap(&entries_vec)).unwrap();
    assert_eq!(entries.len(), 2);
    let (key, value, origin) = entries.next(context).unwrap();
    assert_eq!(key, "k1");
    assert_eq!(value.string(), Some("v1"));
    assert!(origin.is_none());
    assert_eq!(entries.len(), 1);
    assert!(entries.next(context).is_some());
    assert!(entries.next(context).is_none());
    assert!(MapEntries::new(ReadView::Text(&entries_vec[0].0)).is_none());
}

#[test]
fn sequence_items_inherit_paths_locations_and_indices() {
    let properties: Vec<Property> = Vec::new();
    let mut prepared = read(&properties);
    prepared.overlays.push((location(9, Vec::new()), "unused".to_owned()));
    let context = ReadContext { prepared: &prepared };
    let items = vec![JsonValue::Null, JsonValue::Bool(true)];
    let empty = JsonValue::Array(Vec::new());
    let values = SequenceValues::from_view(ReadView::Json(&empty)).unwrap();
    assert_eq!(values.len(), 0);
    let array = JsonValue::Array(items);
    let values = SequenceValues::from_view(ReadView::Json(&array)).unwrap();
    let mut access = SourceSeqAccess::new(context, values, Some(location(3, vec![SourceSegment::Key("k".to_owned())])), "list".to_owned(), None);
    assert_eq!(access.size_hint(), 2);
    let first = access.next_element().unwrap();
    assert_eq!(first.path, "list[0]");
    assert_eq!(first.original_index, Some(0));
    assert!(!first.allow_split);
    let here = first.location.unwrap();
    assert_eq!(here.property_index, 3);
    assert_eq!(here.segments.len(), 2);
    assert!(matches!(here.segments[1], SourceSegment::Index(0)));
    let second = access.next_element().unwrap();
    assert_eq!(second.path, "list[1]");
    assert_eq!(second.original_index, Some(1));
    assert!(access.next_element().is_none());
    let null = JsonValue::Null;
    let d = element_deserializer(context, &None, "outer", Some(7), 2, ReadView::Json(&null));
    assert_eq!(d.original_index, Some(7));
    assert_eq!(d.path, "outer[2]");
    let e = entry_deserializer(context, &Some(location(1, Vec::new())), "", None, "key", ReadView::Json(&null), None);
    assert_eq!(e.path, "key");
    let kept = e.location.unwrap();
    assert!(matches!(&kept.segments[0], SourceSegment::Key(k) if k == "key"));
}

#[test]
fn collections_and_unset_collections_are_read_as_sequences_or_missing() {
    let list = Property {
        name: "list".to_owned(),
        value: ValueContainer::Collection(CollectionValue::Items(vec![ScalarValue::Signed(IntWidth::W64, 1)])),
    };
    let unset = Property { name: "unset".to_owned(), value: ValueContainer::Collection(CollectionValue::Unset(DeclaredType::Int64)) };
    let properties = vec![list, unset];
    let prepared = read(&properties);
    let context = ReadContext { prepared: &prepared };
    let root = SourceDeserializer::new(context, ReadView::from_node(&prepared.nodes[0]), None, String::new(), true);
    let mut access = SourceMapAccess::new(context, root.map_entries().unwrap(), None, String::new(), None);
    assert_eq!(access.next_key(), Ok(Some("list")));
    let list = access.next_value().unwrap();
    assert_eq!(list.any_shape(), AnyShape::Sequence);
    assert_eq!(access.next_key(), Ok(Some("unset")));
    let unset = access.next_value().unwrap();
    assert!(unset.is_missing());
    assert!(matches!(unset.conversion_source(), ConversionSource::UnsetCollection(DeclaredType::Int64)));
    assert!(unset.location.is_some());
}

#[test]
fn map_value_requested_before_key_returns_an_error() {
    let properties = vec![property("tree.key", ScalarValue::String("value".to_owned()))];
    let entries: Vec<(String, &Property)> = properties.iter().map(|p| (p.name.clone(), p)).collect();
    let prepared = prepare_read("tree", "tree".to_owned(), None, false, &entries, limits()).unwrap();
    let context = ReadContext { prepared: &prepared };
    let root = SourceDeserializer::new(
        context,
        ReadView::from_node(&prepared.nodes[prepared.root]),
        None,
        prepared.root_path.clone(),
        true,
    );
    let mut access = SourceMapAccess::new(context, root.map_entries().unwrap(), None, root.path.clone(), None);
    assert!(matches!(access.next_value(), Err(Expected::PrecedingKey)));
    assert_eq!(access.path, "tree");
}
