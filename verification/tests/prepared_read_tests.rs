use qubit_config::error::ConfigError;
use qubit_config::error::LimitError;
use qubit_config::error::Resource;
use qubit_config::index_capacity::IndexLimits;
use qubit_config::prepared_read::prepare_read;
use qubit_config::prepared_read::PreparedConfigRead;
use qubit_config::read_node::NodeKind;
use qubit_config::read_node::ReadNode;
use qubit_config::read_view::ReadView;
use qubit_config::source_index::SourceIndex;
use qubit_config::source_segment::SourceSegment;
use qubit_config::traversal::walk;
use qubit_config::value::CollectionValue;
use qubit_config::value::DeclaredType;
use qubit_config::value::IntWidth;
use qubit_config::value::JsonNumber;
use qubit_config::value::JsonValue;
use qubit_config::value::Property;
use qubit_config::value::ScalarValue;
use qubit_config::value::ValueContainer;

fn limits() -> IndexLimits {
    IndexLimits {
        max_nodes: 1000,
        max_depth: None,
        max_key_bytes: None,
        max_input_bytes: 100_000,
        max_structured_payload_bytes: 100_000,
        max_map_entries: 1000,
    }
}

fn text(name: &str, value: &str) -> Property {
    Property {
        name: name.to_owned(),
        value: ValueContainer::Scalar(ScalarValue::String(value.to_owned())),
    }
}

fn json(name: &str, value: JsonValue) -> Property {
    Property { name: name.to_owned(), value: ValueContainer::Scalar(ScalarValue::Json(value)) }
}

fn object(entries: Vec<(&str, JsonValue)>) -> JsonValue {
    JsonValue::Object(entries.into_iter().map(|(key, value)| (key.to_owned(), value)).collect())
}

fn jtext(value: &str) -> JsonValue {
    JsonValue::String(value.to_owned())
}

fn entries<'a>(properties: &'a [Property]) -> Vec<(String, &'a Property)> {
    properties.iter().map(|property| (property.name.clone(), property)).collect()
}

/// Paths of every visit, in traversal order, with the text of string leaves.
fn visits(prepared: &PreparedConfigRead<'_>) -> Vec<(String, Option<String>)> {
    let mut walk = walk(prepared, false);
    let mut seen = Vec::new();
    while let Some(visit) = walk.next() {
        seen.push((visit.path.clone(), visit.value.string().map(str::to_owned)));
    }
    seen
}

#[test]
fn subtree_read_indexes_properties_below_the_prefix() {
    let properties = vec![text("app.name", "demo"), text("app.server.host", "localhost"), text("other", "x")];
    let prepared = prepare_read("app", "app".to_owned(), None, false, &entries(&properties), limits()).unwrap();
    assert_eq!(prepared.root, 0);
    assert_eq!(prepared.root_path, "app");
    assert!(matches!(prepared.sources, SourceIndex::Tree { .. }));
    assert_eq!(
        visits(&prepared),
        vec![
            ("app".to_owned(), None),
            ("app.name".to_owned(), Some("demo".to_owned())),
            ("app.server".to_owned(), None),
            ("app.server.host".to_owned(), Some("localhost".to_owned())),
        ]
    );
}

#[test]
fn children_are_sorted_by_key() {
    let properties = vec![text("b", "2"), text("a", "1"), text("c", "3")];
    let prepared = prepare_read("", String::new(), None, false, &entries(&properties), limits()).unwrap();
    match &prepared.nodes[0] {
        ReadNode::Object(children) => {
            let keys: Vec<&str> = children.iter().map(|(key, _)| key.as_str()).collect();
            assert_eq!(keys, vec!["a", "b", "c"]);
        }
        _ => panic!("root is an object"),
    }
    let paths: Vec<String> = visits(&prepared).into_iter().map(|(path, _)| path).collect();
    assert_eq!(paths, vec!["", "a", "b", "c"]);
}

#[test]
fn exact_property_is_the_whole_input() {
    let property = text("app.name", "demo");
    let prepared = prepare_read("app.name", "app.name".to_owned(), Some(&property), false, &Vec::new(), limits()).unwrap();
    assert_eq!(prepared.nodes.len(), 1);
    assert!(matches!(prepared.sources, SourceIndex::Exact { .. }));
    assert!(prepared.sources.is_exact());
    assert_eq!(visits(&prepared), vec![("app.name".to_owned(), Some("demo".to_owned()))]);
}

#[test]
fn exact_property_with_children_conflicts() {
    let property = text("app", "demo");
    let error = prepare_read("app", "app".to_owned(), Some(&property), true, &Vec::new(), limits()).unwrap_err();
    match error {
        ConfigError::KeyConflict { path, existing, incoming } => {
            assert_eq!(path, "app");
            assert_eq!(existing, "exact value");
            assert_eq!(incoming, "nested child keys");
        }
        other => panic!("unexpected {other:?}"),
    }
}

#[test]
fn leaf_below_a_string_conflicts() {
    let properties = vec![text("a", "x"), text("a.b", "y")];
    let error = prepare_read("", String::new(), None, false, &entries(&properties), limits()).unwrap_err();
    match error {
        ConfigError::KeyConflict { path, existing, incoming } => {
            assert_eq!(path, "a");
            assert_eq!(existing, "string");
            assert_eq!(incoming, "object");
        }
        other => panic!("unexpected {other:?}"),
    }
}

#[test]
fn duplicate_leaves_are_rejected_not_replaced() {
    let properties = vec![
        json("tree", object(vec![("leaf", jtext("one"))])),
        json("tree", object(vec![("leaf", jtext("two"))])),
    ];
    let error = prepare_read("", String::new(), None, false, &entries(&properties), limits()).unwrap_err();
    match error {
        ConfigError::KeyConflict { path, existing, incoming } => {
            assert_eq!(path, "tree.leaf");
            assert_eq!(existing, "string");
            assert_eq!(incoming, "string");
        }
        other => panic!("unexpected {other:?}"),
    }
}

#[test]
fn nested_object_properties_merge_json_and_string_map_leaves() {
    let properties = vec![
        json("tree.parent", object(vec![("nested", object(vec![("left", jtext("one"))]))])),
        json("tree.parent.nested", object(vec![("right", jtext("two"))])),
    ];
    let prepared = prepare_read("tree", "tree".to_owned(), None, false, &entries(&properties), limits()).unwrap();
    assert_eq!(
        visits(&prepared),
        vec![
            ("tree".to_owned(), None),
            ("tree.parent".to_owned(), None),
            ("tree.parent.nested".to_owned(), None),
            ("tree.parent.nested.left".to_owned(), Some("one".to_owned())),
            ("tree.parent.nested.right".to_owned(), Some("two".to_owned())),
        ]
    );
    let map = Property {
        name: "tree.map".to_owned(),
        value: ValueContainer::Scalar(ScalarValue::StringMap(vec![("left".to_owned(), "one".to_owned())])),
    };
    let properties = vec![map, text("tree.map.right", "two")];
    let prepared = prepare_read("tree", "tree".to_owned(), None, false, &entries(&properties), limits()).unwrap();
    assert_eq!(
        visits(&prepared),
        vec![
            ("tree".to_owned(), None),
            ("tree.map".to_owned(), None),
            ("tree.map.left".to_owned(), Some("one".to_owned())),
            ("tree.map.right".to_owned(), Some("two".to_owned())),
        ]
    );
}

#[test]
fn node_limit_refuses_the_node_that_exceeds_it() {
    let properties = vec![text("a", "1"), text("b", "2")];
    let mut bounded = limits();
    bounded.max_nodes = 2;
    let error = prepare_read("", String::new(), None, false, &entries(&properties), bounded).unwrap_err();
    match error {
        ConfigError::Limit { path, error } => {
            assert_eq!(path, "b");
            assert_eq!(
                error,
                LimitError::Insufficient { resource: Resource::StructuredNodes, limit: 2, remaining: 0, requested: 1 }
            );
        }
        other => panic!("unexpected {other:?}"),
    }
}

#[test]
fn key_bytes_are_charged_in_utf8() {
    let properties = vec![text("界", "wide")];
    let mut bounded = limits();
    bounded.max_key_bytes = Some(2);
    let error = prepare_read("", String::new(), None, false, &entries(&properties), bounded).unwrap_err();
    match error {
        ConfigError::Limit { error, .. } => {
            assert_eq!(error, LimitError::Exceeded { resource: Resource::StructuredKeyBytes, observed: 3, maximum: 2 });
        }
        other => panic!("unexpected {other:?}"),
    }
}

#[test]
fn map_entry_limit_bounds_objects() {
    let properties = vec![text("a", "1"), text("b", "2"), text("c", "3")];
    let mut bounded = limits();
    bounded.max_map_entries = 2;
    let error = prepare_read("", String::new(), None, false, &entries(&properties), bounded).unwrap_err();
    match error {
        ConfigError::Limit { path, error } => {
            assert_eq!(path, "c");
            assert_eq!(error, LimitError::Exceeded { resource: Resource::MapEntries, observed: 3, maximum: 2 });
        }
        other => panic!("unexpected {other:?}"),
    }
}

#[test]
fn depth_limit_applies_to_nested_keys() {
    let properties = vec![text("a.b.c", "deep")];
    let mut bounded = limits();
    bounded.max_depth = Some(3);
    let error = prepare_read("", String::new(), None, false, &entries(&properties), bounded).unwrap_err();
    match error {
        ConfigError::Limit { error, .. } => {
            assert_eq!(error, LimitError::Exceeded { resource: Resource::StructuredDepth, observed: 4, maximum: 3 });
        }
        other => panic!("unexpected {other:?}"),
    }
}

#[test]
fn collections_and_json_arrays_are_visited_by_index() {
    let list = Property {
        name: "list".to_owned(),
        value: ValueContainer::Collection(CollectionValue::Items(vec![
            ScalarValue::Signed(IntWidth::W32, 1),
            ScalarValue::Signed(IntWidth::W32, 2),
        ])),
    };
    let array = json("array", JsonValue::Array(vec![JsonValue::Number(JsonNumber::PosInt(7)), jtext("x")]));
    let properties = vec![list, array];
    let prepared = prepare_read("", String::new(), None, false, &entries(&properties), limits()).unwrap();
    let mut walk = walk(&prepared, true);
    let mut seen = Vec::new();
    while let Some(visit) = walk.next() {
        seen.push((visit.path.clone(), visit.original_index, visit.location.map(|l| (l.property_index, l.segments.len()))));
    }
    assert_eq!(
        seen,
        vec![
            ("".to_owned(), None, None),
            ("array".to_owned(), None, Some((1, 0))),
            ("array[0]".to_owned(), Some(0), Some((1, 1))),
            ("array[1]".to_owned(), Some(1), Some((1, 1))),
            ("list".to_owned(), None, Some((0, 0))),
            ("list[0]".to_owned(), Some(0), Some((0, 1))),
            ("list[1]".to_owned(), Some(1), Some((0, 1))),
        ]
    );
}

#[test]
fn node_kinds_name_value_shapes() {
    assert_eq!(NodeKind::Object.name(), "object");
    assert_eq!(NodeKind::Null.name(), "null");
    let unset = ValueContainer::Collection(CollectionValue::Unset(DeclaredType::String));
    assert_eq!(ReadNode::from_container(&unset).kind(), NodeKind::Null);
    let number = ScalarValue::Unsigned(IntWidth::W8, 3);
    assert_eq!(ReadNode::from_scalar(&number).kind(), NodeKind::Number);
    let other = ScalarValue::Other("1970-01-01".to_owned());
    assert_eq!(ReadNode::from_scalar(&other).kind(), NodeKind::String);
    let view = ReadView::from_scalar(&other);
    assert!(view.string().is_none());
}

#[test]
fn expanding_an_object_charges_its_entries() {
    let document = object(vec![("a", jtext("1")), ("b", jtext("2"))]);
    let properties = vec![json("tree", document), text("tree.c", "3")];
    let mut bounded = limits();
    bounded.max_map_entries = 1;
    let error = prepare_read("", String::new(), None, false, &entries(&properties), bounded).unwrap_err();
    match error {
        ConfigError::Limit { path, error } => {
            assert_eq!(path, "tree");
            assert_eq!(error, LimitError::Exceeded { resource: Resource::MapEntries, observed: 2, maximum: 1 });
        }
        other => panic!("unexpected {other:?}"),
    }
    let mut tight = limits();
    tight.max_nodes = 3;
    let error = prepare_read("", String::new(), None, false, &entries(&properties), tight).unwrap_err();
    match error {
        ConfigError::Limit { path, error } => {
            assert_eq!(path, "tree");
            assert_eq!(
                error,
                LimitError::Insufficient { resource: Resource::StructuredNodes, limit: 3, remaining: 0, requested: 1 }
            );
        }
        other => panic!("unexpected {other:?}"),
    }
}

/// Locations of every visit: the property and the literal segment keys.
fn located_visits(prepared: &PreparedConfigRead<'_>) -> Vec<(String, Option<(usize, Vec<String>)>)> {
    let mut walk = walk(prepared, true);
    let mut seen = Vec::new();
    while let Some(visit) = walk.next() {
        let location = visit.location.map(|l| {
            let keys = l
                .segments
                .iter()
                .map(|segment| match segment {
                    SourceSegment::Key(key) => key.clone(),
                    SourceSegment::Index(index) => format!("[{index}]"),
                })
                .collect();
            (l.property_index, keys)
        });
        seen.push((visit.path.clone(), location));
    }
    seen
}

#[test]
fn merged_children_keep_the_location_of_their_own_source() {
    let properties = vec![
        json("tree.parent", object(vec![("nested", object(vec![("left", jtext("one"))]))])),
        json("tree.parent.nested", object(vec![("right", jtext("two"))])),
    ];
    let prepared = prepare_read("", String::new(), None, false, &entries(&properties), limits()).unwrap();
    assert_eq!(
        located_visits(&prepared),
        vec![
            ("".to_owned(), None),
            ("tree".to_owned(), None),
            ("tree.parent".to_owned(), Some((0, vec![]))),
            ("tree.parent.nested".to_owned(), Some((0, vec!["nested".to_owned()]))),
            ("tree.parent.nested.left".to_owned(), Some((0, vec!["nested".to_owned(), "left".to_owned()]))),
            ("tree.parent.nested.right".to_owned(), Some((1, vec!["right".to_owned()]))),
        ]
    );
}

#[test]
fn a_leaf_inside_a_merged_object_conflicts_with_a_dotted_leaf() {
    let properties = vec![
        json("tree.parent", object(vec![("nested", object(vec![("left", jtext("one"))]))])),
        text("tree.parent.nested.left", "two"),
    ];
    let error = prepare_read("", String::new(), None, false, &entries(&properties), limits()).unwrap_err();
    match error {
        ConfigError::KeyConflict { path, existing, incoming } => {
            assert_eq!(path, "tree.parent.nested.left");
            assert_eq!(existing, "string");
            assert_eq!(incoming, "string");
        }
        other => panic!("unexpected {other:?}"),
    }
}
