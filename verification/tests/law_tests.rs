use qubit_config::counting_writer::CountingWriter;
use qubit_config::error::ConfigError;
use qubit_config::index_capacity::IndexCapacity;
use qubit_config::error::LimitError;
use qubit_config::error::Resource;
use qubit_config::index_capacity::IndexLimits;
use qubit_config::prepared_read::prepare_read;
use qubit_config::traversal::walk;
use qubit_config::value::CollectionValue;
use qubit_config::value::JsonValue;
use qubit_config::value::Property;
use qubit_config::value::ScalarValue;
use qubit_config::value::ValueContainer;

fn limits() -> IndexLimits {
    IndexLimits {
        max_nodes: 1000,
        max_depth: None,
        max_key_bytes: None,
        max_input_bytes: 100_000,
        max_structured_payload_bytes: 100_000,
        max_map_entries: 1000,
    }
}

#[test]
fn every_string_leaf_of_a_located_walk_has_a_location() {
    let document = JsonValue::Object(vec![
        ("s".to_owned(), JsonValue::String("x".to_owned())),
        ("list".to_owned(), JsonValue::Array(vec![JsonValue::String("y".to_owned())])),
    ]);
    let properties = vec![
        Property { name: "a.doc".to_owned(), value: ValueContainer::Scalar(ScalarValue::Json(document)) },
        Property { name: "a.text".to_owned(), value: ValueContainer::Scalar(ScalarValue::String("t".to_owned())) },
        Property {
            name: "b".to_owned(),
            value: ValueContainer::Collection(CollectionValue::Items(vec![ScalarValue::String("z".to_owned())])),
        },
        Property {
            name: "c".to_owned(),
            value: ValueContainer::Scalar(ScalarValue::StringMap(vec![("k".to_owned(), "v".to_owned())])),
        },
    ];
    let entries: Vec<(String, &Property)> = properties.iter().map(|p| (p.name.clone(), p)).collect();
    let prepared = prepare_read("", String::new(), None, false, &entries, limits()).unwrap();
    let mut walk = walk(&prepared, true);
    let mut strings = 0;
    while let Some(visit) = walk.next() {
        if visit.value.string().is_some() {
            strings += 1;
            assert!(visit.location.is_some(), "{} has no location", visit.path);
        }
    }
    assert_eq!(strings, 5);
}

#[test]
fn a_walk_without_locations_reports_none() {
    let properties = vec![Property {
        name: "a".to_owned(),
        value: ValueContainer::Scalar(ScalarValue::String("t".to_owned())),
    }];
    let entries: Vec<(String, &Property)> = properties.iter().map(|p| (p.name.clone(), p)).collect();
    let prepared = prepare_read("", "root".to_owned(), None, false, &entries, limits()).unwrap();
    let mut walk = walk(&prepared, false);
    let root = walk.next().unwrap();
    assert_eq!(root.path, "root");
    assert_eq!(root.depth, 1);
    assert!(root.key.is_none());
    let leaf = walk.next().unwrap();
    assert_eq!(leaf.path, "root.a");
    assert_eq!(leaf.depth, 2);
    assert_eq!(leaf.key, Some("a"));
    assert!(leaf.location.is_none());
    assert!(leaf.source_index().is_none());
    assert!(walk.next().is_none());
    assert!(walk.next().is_none());
}

#[test]
fn counting_writers_charge_utf8_bytes_until_refused() {
    let mut writer = CountingWriter::new(Resource::InputBytes, 5);
    assert!(writer.write_str("ab").is_ok());
    assert_eq!(writer.remaining, 3);
    let refusal = LimitError::Insufficient { resource: Resource::InputBytes, limit: 5, remaining: 3, requested: 6 };
    assert_eq!(writer.write_str("界界"), Err(refusal));
    assert_eq!(writer.remaining, 3);
    assert_eq!(writer.error, Some(refusal));
    assert!(writer.write_str("界").is_ok());
    assert_eq!(writer.remaining, 0);
}

#[test]
fn inserting_at_an_occupied_leaf_conflicts_and_changes_nothing() {
    let first = Property { name: "a.b".to_owned(), value: ValueContainer::Scalar(ScalarValue::Bool(true)) };
    let second = Property { name: "a.b".to_owned(), value: ValueContainer::Scalar(ScalarValue::String("x".to_owned())) };
    let entries = vec![(first.name.clone(), &first)];
    let mut prepared = prepare_read("", String::new(), None, false, &entries, limits()).unwrap();
    let nodes = prepared.nodes.len();
    let mut capacity = IndexCapacity::new(limits());
    let remaining = capacity.remaining_nodes;
    match prepared.insert_property("a.b", &second, &mut capacity) {
        Err(ConfigError::KeyConflict { path, existing, incoming }) => {
            assert_eq!(path, "a.b");
            assert_eq!(existing, "boolean");
            assert_eq!(incoming, "string");
        }
        other => panic!("unexpected {other:?}"),
    }
    assert_eq!(prepared.nodes.len(), nodes);
    assert_eq!(capacity.remaining_nodes, remaining);
}
