use qubit_config::config_deserialize_options::ConfigDeserializeOptions;
use qubit_config::error::conflict;
use qubit_config::error::ConfigError;
use qubit_config::error::LimitError;
use qubit_config::error::Resource;
use qubit_config::index_capacity::IndexCapacity;
use qubit_config::index_capacity::IndexLimits;
use qubit_config::path::child_index;
use qubit_config::path::child_key;
use qubit_config::source_index::SourceIndex;
use qubit_config::source_location::overlay_text;
use qubit_config::source_location::same_location;
use qubit_config::source_location::source_index;
use qubit_config::source_location::SourceLocation;
use qubit_config::source_segment::SourceSegment;
use qubit_config::text::chars_of;
use qubit_config::text::compare_chars;
use qubit_config::text::split_dots;
use qubit_config::text::string_from_chars;
use qubit_config::text::strip_dotted_prefix;
use qubit_config::text::TextOrder;
use qubit_config::unknown_properties::absolute;
use qubit_config::unknown_properties::sorted_distinct;
use qubit_config::unknown_properties::trim_dots;
use qubit_config::unknown_properties::unknown_properties;
use qubit_config::value::JsonNumber;
use qubit_config::value::Property;
use qubit_config::value::ScalarValue;
use qubit_config::value::ValueContainer;
use qubit_config::UnknownFieldPolicy;

#[test]
fn child_paths_join_keys_and_indices() {
    assert_eq!(child_key("", "a"), "a");
    assert_eq!(child_key("a", "b"), "a.b");
    assert_eq!(child_key("a", "b.c"), "a.b.c");
    assert_eq!(child_index("list", 0), "list[0]");
    assert_eq!(child_index("list", 1234567), "list[1234567]");
    assert_eq!(child_index("", usize::MAX), format!("[{}]", usize::MAX));
}

#[test]
fn dotted_keys_split_into_segments() {
    assert_eq!(split_dots("a.b.c"), vec!["a", "b", "c"]);
    assert_eq!(split_dots("a"), vec!["a"]);
    assert_eq!(split_dots(""), vec![""]);
    assert_eq!(split_dots("a..b."), vec!["a", "", "b", ""]);
}

#[test]
fn prefixes_select_whole_segments() {
    assert_eq!(strip_dotted_prefix("app.name", "app"), Some("name".to_owned()));
    assert_eq!(strip_dotted_prefix("apple.name", "app"), None);
    assert_eq!(strip_dotted_prefix("app", "app"), None);
    assert_eq!(strip_dotted_prefix("x.y", ""), Some("x.y".to_owned()));
}

#[test]
fn texts_compare_by_character() {
    let a = chars_of("ab");
    let b = chars_of("b");
    assert_eq!(compare_chars(&a, &b), TextOrder::Before);
    assert_eq!(compare_chars(&b, &a), TextOrder::After);
    assert_eq!(compare_chars(&a, &chars_of("ab")), TextOrder::Same);
    assert_eq!(compare_chars(&chars_of("a"), &a), TextOrder::Before);
    assert_eq!(string_from_chars(&chars_of("héllo"), 1, 4), "éll");
}

#[test]
fn source_index_is_the_first_index_segment() {
    let location = SourceLocation {
        property_index: 0,
        segments: vec![SourceSegment::Key("a".to_owned()), SourceSegment::Index(3), SourceSegment::Index(5)],
    };
    assert_eq!(source_index(Some(&location)), Some(3));
    assert_eq!(source_index(None), None);
    let keys = SourceLocation { property_index: 0, segments: vec![SourceSegment::Key("a".to_owned())] };
    assert_eq!(source_index(Some(&keys)), None);
    let child = keys.child(SourceSegment::Index(9));
    assert_eq!(source_index(Some(&child)), Some(9));
}

#[test]
fn overlays_are_found_by_place() {
    let here = SourceLocation { property_index: 1, segments: vec![SourceSegment::Key("k".to_owned())] };
    let same = SourceLocation { property_index: 1, segments: vec![SourceSegment::Key("k".to_owned())] };
    let other = SourceLocation { property_index: 1, segments: vec![SourceSegment::Index(0)] };
    assert!(same_location(&here, &same));
    assert!(!same_location(&here, &other));
    let overlays = vec![(other, "first".to_owned()), (here, "second".to_owned())];
    assert_eq!(overlay_text(&overlays, &same).map(String::as_str), Some("second"));
    let missing = SourceLocation { property_index: 2, segments: Vec::new() };
    assert!(overlay_text(&overlays, &missing).is_none());
}

#[test]
fn unknown_fields_are_sorted_distinct_and_absolute() {
    let ignored = vec!["b".to_owned(), ".a".to_owned(), "b".to_owned(), "".to_owned()];
    match unknown_properties(&ignored, "root") {
        Some(ConfigError::UnknownProperties { paths }) => {
            assert_eq!(paths, vec!["root", "root.a", "root.b"]);
        }
        other => panic!("unexpected {other:?}"),
    }
    match unknown_properties(&vec!["..x".to_owned()], "") {
        Some(ConfigError::UnknownProperties { paths }) => assert_eq!(paths, vec!["x"]),
        other => panic!("unexpected {other:?}"),
    }
    assert!(unknown_properties(&Vec::new(), "root").is_none());
    assert_eq!(sorted_distinct(&vec!["c".to_owned(), "a".to_owned(), "c".to_owned()]), vec!["a", "c"]);
    assert_eq!(trim_dots("..a.b"), "a.b");
    assert_eq!(absolute("", "."), "");
    assert_eq!(absolute("r", "x"), "r.x");
}

#[test]
fn json_numbers_project_to_integers() {
    assert_eq!(JsonNumber::PosInt(5).as_i64(), Some(5));
    assert_eq!(JsonNumber::PosInt(u64::MAX).as_i64(), None);
    assert_eq!(JsonNumber::PosInt(u64::MAX).as_u64(), Some(u64::MAX));
    assert_eq!(JsonNumber::NegInt(-5).as_i64(), Some(-5));
    assert_eq!(JsonNumber::NegInt(-5).as_u64(), None);
    assert_eq!(JsonNumber::Float("0.5".to_owned()).as_i64(), None);
}

#[test]
fn default_options_reject_unknown_fields_without_interpolation() {
    let options = ConfigDeserializeOptions::default();
    assert!(!options.interpolate);
    assert_eq!(options.unknown_fields, UnknownFieldPolicy::Reject);
    assert!(options.rejects_unknown_fields());
    let lenient = ConfigDeserializeOptions { interpolate: true, unknown_fields: UnknownFieldPolicy::Ignore };
    assert!(!lenient.rejects_unknown_fields());
    assert_eq!(UnknownFieldPolicy::default(), UnknownFieldPolicy::Reject);
}

#[test]
fn capacities_charge_nodes_keys_and_entries() {
    let limits = IndexLimits {
        max_nodes: 1,
        max_depth: Some(2),
        max_key_bytes: None,
        max_input_bytes: 4,
        max_structured_payload_bytes: 10,
        max_map_entries: 3,
    };
    let mut capacity = IndexCapacity::new(limits);
    match capacity.admit_node(3, "deep") {
        Err(ConfigError::Limit { path, error }) => {
            assert_eq!(path, "deep");
            assert_eq!(error, LimitError::Exceeded { resource: Resource::StructuredDepth, observed: 3, maximum: 2 });
        }
        other => panic!("unexpected {other:?}"),
    }
    assert!(capacity.admit_node(1, "ok").is_ok());
    assert_eq!(capacity.remaining_nodes, 0);
    assert!(capacity.admit_node(1, "full").is_err());
    assert!(capacity.key(3, "k").is_ok());
    assert_eq!(capacity.remaining_input_bytes, 1);
    assert_eq!(capacity.remaining_payload_bytes, 7);
    match capacity.key(2, "k2") {
        Err(ConfigError::Limit { error, .. }) => assert_eq!(
            error,
            LimitError::Insufficient { resource: Resource::InputBytes, limit: 4, remaining: 1, requested: 2 }
        ),
        other => panic!("unexpected {other:?}"),
    }
    assert!(capacity.entries(3, "m").is_ok());
    assert!(capacity.entries(4, "m").is_err());
}

#[test]
fn source_indexes_register_properties_and_locations() {
    let property = Property { name: "p".to_owned(), value: ValueContainer::Scalar(ScalarValue::Bool(true)) };
    let exact = SourceIndex::exact(&property);
    assert!(exact.is_exact());
    assert_eq!(exact.len(), 1);
    assert!(exact.origin(0).is_some());
    assert!(exact.origin(1).is_none());
    let mut tree = SourceIndex::tree();
    assert!(!tree.is_exact());
    tree.push_property(&property);
    tree.push_origin(None);
    tree.push_origin(Some(SourceLocation { property_index: 0, segments: Vec::new() }));
    assert_eq!(tree.len(), 1);
    assert!(tree.origin(0).is_none());
    assert!(tree.origin(1).is_some());
    assert!(tree.property(0).is_some());
    assert!(tree.property(1).is_none());
}

#[test]
fn conflicts_carry_both_kinds() {
    match conflict("a.b", "string", "object") {
        ConfigError::KeyConflict { path, existing, incoming } => {
            assert_eq!((path.as_str(), existing.as_str(), incoming.as_str()), ("a.b", "string", "object"));
        }
        other => panic!("unexpected {other:?}"),
    }
}
