use qubit_config::admission::AdmissionLimits;
use qubit_config::error::ConfigError;
use qubit_config::error::LimitError;
use qubit_config::error::Resource;
use qubit_config::index_capacity::IndexLimits;
use qubit_config::interpolation_overlay::finish_read;
use qubit_config::prepared_read::prepare_read;
use qubit_config::prepared_read::PreparedConfigRead;
use qubit_config::read_node::ReadNode;
use qubit_config::selection::exact_property;
use qubit_config::source_deserializer::split_surplus_refusal;
use qubit_config::source_deserializer::Expected;
use qubit_config::selection::has_nested_keys;
use qubit_config::string_policy::BlankStrings;
use qubit_config::string_policy::StringPolicy;
use qubit_config::value::CollectionValue;
use qubit_config::value::IntWidth;
use qubit_config::value::JsonNumber;
use qubit_config::value::JsonValue;
use qubit_config::value::MissingReason;
use qubit_config::value::Property;
use qubit_config::value::ScalarValue;
use qubit_config::value::ValueContainer;

/// The bounds of one read, for indexing and for admission.
#[derive(Clone, Copy)]
struct Bounds {
    index: IndexLimits,
    admission: AdmissionLimits,
    policy: StringPolicy,
}

fn bounds() -> Bounds {
    Bounds {
        index: IndexLimits {
            max_nodes: 100_000,
            max_depth: None,
            max_key_bytes: None,
            max_input_bytes: 1_000_000,
            max_structured_payload_bytes: 1_000_000,
            max_map_entries: 100_000,
        },
        admission: AdmissionLimits {
            max_depth: None,
            max_nodes: 100_000,
            max_input_bytes: 1_000_000,
            max_payload_bytes: 1_000_000,
            max_text_bytes: 1_000_000,
            max_sequence_items: 100_000,
            max_map_entries: 100_000,
        },
        policy: StringPolicy { trim: false, blank_strings: BlankStrings::Preserve },
    }
}

fn scalar(name: &str, value: ScalarValue) -> Property {
    Property { name: name.to_owned(), value: ValueContainer::Scalar(value) }
}

fn text(name: &str, value: &str) -> Property {
    scalar(name, ScalarValue::String(value.to_owned()))
}

fn integer(name: &str, value: i64) -> Property {
    scalar(name, ScalarValue::Signed(IntWidth::W32, value))
}

fn boolean(name: &str, value: bool) -> Property {
    scalar(name, ScalarValue::Bool(value))
}

fn json(name: &str, value: JsonValue) -> Property {
    scalar(name, ScalarValue::Json(value))
}

fn object(entries: Vec<(&str, JsonValue)>) -> JsonValue {
    JsonValue::Object(entries.into_iter().map(|(key, value)| (key.to_owned(), value)).collect())
}

fn number(value: u64) -> JsonValue {
    JsonValue::Number(JsonNumber::PosInt(value))
}

fn entries<'a>(properties: &'a [Property]) -> Vec<(String, &'a Property)> {
    properties.iter().map(|property| (property.name.clone(), property)).collect()
}

/// Resolves `${name}` placeholders that make up a whole text.
fn resolver(values: &[(&str, &str)]) -> impl Fn(&str, &str) -> Result<String, ConfigError> {
    let values: Vec<(String, String)> = values.iter().map(|(k, v)| (k.to_string(), v.to_string())).collect();
    move |text: &str, path: &str| {
        for (name, value) in &values {
            if text == format!("${{{name}}}") {
                return Ok(value.clone());
            }
        }
        if text.contains("${") {
            Err(ConfigError::BlankString { path: path.to_owned() })
        } else {
            Ok(text.to_owned())
        }
    }
}

/// Reads the properties at `prefix` as a reader of them would: the exact
/// property, if any, else everything below the prefix.
fn read_with<'a, F: Fn(&str, &str) -> Result<String, ConfigError>>(
    properties: &'a [Property],
    prefix: &str,
    root_path: &str,
    bounds: Bounds,
    interpolation: Option<F>,
) -> Result<PreparedConfigRead<'a>, ConfigError> {
    let entries = entries(properties);
    let exact = exact_property(prefix, &entries);
    let nested = has_nested_keys(prefix, &entries);
    let prepared = prepare_read(prefix, root_path.to_owned(), exact, nested, &entries, bounds.index)?;
    finish_read(prepared, interpolation.map(|f| (1_000_000, f)), bounds.policy, bounds.admission)
}

fn read<'a>(properties: &'a [Property], prefix: &str, bounds: Bounds) -> Result<PreparedConfigRead<'a>, ConfigError> {
    read_with(properties, prefix, prefix, bounds, None::<fn(&str, &str) -> Result<String, ConfigError>>)
}

fn child(prepared: &PreparedConfigRead<'_>, id: usize, key: &str) -> usize {
    match &prepared.nodes[id] {
        ReadNode::Object(children) => children.iter().find(|(k, _)| k == key).unwrap().1,
        _ => panic!("not an object"),
    }
}

fn keys(prepared: &PreparedConfigRead<'_>, id: usize) -> Vec<String> {
    match &prepared.nodes[id] {
        ReadNode::Object(children) => children.iter().map(|(k, _)| k.clone()).collect(),
        _ => panic!("not an object"),
    }
}

#[test]
fn zero_exact_and_exceeded_structure_bounds_are_enforced() {
    let properties = vec![
        boolean("tree.a", true),
        boolean("tree.b", false),
        Property {
            name: "values".to_owned(),
            value: ValueContainer::Collection(CollectionValue::Items(vec![
                ScalarValue::Signed(IntWidth::W32, 1),
                ScalarValue::Signed(IntWidth::W32, 2),
            ])),
        },
    ];
    for (limit, succeeds) in [(0, false), (1, false), (2, true)] {
        let mut b = bounds();
        b.index.max_map_entries = limit;
        b.admission.max_map_entries = limit;
        b.admission.max_sequence_items = limit;
        assert_eq!(read(&properties, "tree", b).is_ok(), succeeds);
        assert_eq!(read(&properties, "values", b).is_ok(), succeeds);
    }
}

#[test]
fn long_keys_and_cumulative_keys_are_bounded_before_index_copying() {
    let properties = vec![boolean("tree.abc", true), boolean("tree.def", false)];
    for (limit, succeeds) in [(0, false), (2, false), (5, false), (6, true)] {
        let mut b = bounds();
        b.index.max_structured_payload_bytes = limit;
        b.admission.max_payload_bytes = limit;
        assert_eq!(read(&properties, "tree", b).is_ok(), succeeds);
    }
}

#[test]
fn index_key_budget_rejects_input_bytes_before_admission() {
    let properties = vec![boolean("tree.key", true)];
    let mut b = bounds();
    b.index.max_input_bytes = 0;
    b.admission.max_input_bytes = 0;
    assert!(matches!(read(&properties, "tree", b), Err(ConfigError::Limit { .. })));
}

#[test]
fn deep_json_is_rejected_by_iterative_admission() {
    let mut value = JsonValue::Bool(true);
    for _ in 0..512 {
        value = JsonValue::Array(vec![value]);
    }
    let properties = vec![json("deep", value)];
    let mut b = bounds();
    b.index.max_depth = Some(8);
    b.admission.max_depth = Some(8);
    let error = read(&properties, "deep", b).unwrap_err();
    assert!(matches!(
        error,
        ConfigError::InputLimit { error: LimitError::Exceeded { resource: Resource::StructuredDepth, observed: 9, maximum: 8 }, .. }
    ));
}

#[test]
fn collection_budget_failure_retains_source_index_without_payload() {
    let properties = vec![Property {
        name: "items".to_owned(),
        value: ValueContainer::Collection(CollectionValue::Items(vec![
            ScalarValue::String("ok".to_owned()),
            ScalarValue::String("secret payload".to_owned()),
        ])),
    }];
    let mut b = bounds();
    b.admission.max_text_bytes = 2;
    let error = read(&properties, "items", b).unwrap_err();
    match &error {
        ConfigError::InputLimit { path, source_index, error } => {
            assert_eq!(path, "items[1]");
            assert_eq!(*source_index, Some(1));
            assert_eq!(
                *error,
                LimitError::Exceeded { resource: Resource::StructuredTextBytes, observed: 14, maximum: 2 }
            );
        }
        other => panic!("unexpected {other:?}"),
    }
    assert!(!format!("{error:?}").contains("secret payload"));
}

#[test]
fn full_input_admission_counts_unconsumed_fields_and_utf8_bytes() {
    let properties = vec![integer("tree.used", 1), text("tree.ignored", &"界".repeat(100))];
    for (limit, succeeds) in [(310, false), (312, true)] {
        let mut b = bounds();
        b.index.max_structured_payload_bytes = limit;
        b.admission.max_payload_bytes = limit;
        assert_eq!(read(&properties, "tree", b).is_ok(), succeeds);
    }
}

#[test]
fn borrowed_json_and_string_maps_receive_complete_admission() {
    let properties = vec![
        json("json", object(vec![("nested", JsonValue::Array(vec![JsonValue::String("payload".to_owned())]))])),
        scalar("map", ScalarValue::StringMap(vec![("key".to_owned(), "payload".to_owned())])),
    ];
    let mut b = bounds();
    b.index.max_structured_payload_bytes = 9;
    b.admission.max_payload_bytes = 9;
    assert!(read(&properties, "json", b).is_err());
    assert!(read(&properties, "map", b).is_err());
}

#[test]
fn index_and_nested_payload_respect_depth_and_node_limits() {
    let properties = vec![integer("tree.a.b", 1), json("json", object(vec![("a", object(vec![("b", number(1))]))]))];
    let mut b = bounds();
    b.index.max_depth = Some(2);
    b.admission.max_depth = Some(2);
    assert!(read(&properties, "tree", b).is_err());
    assert!(read(&properties, "json", b).is_err());
    for (nodes, succeeds) in [(2, false), (3, true)] {
        let mut b = bounds();
        b.index.max_nodes = nodes;
        b.admission.max_nodes = nodes;
        assert_eq!(read(&properties, "json", b).is_ok(), succeeds);
    }
}

#[test]
fn source_text_and_rendered_number_budgets_fail_before_visiting() {
    let properties = vec![text("text", "secret"), integer("number", 12345)];
    let mut b = bounds();
    b.index.max_input_bytes = 5;
    b.admission.max_input_bytes = 5;
    let error = read(&properties, "text", b).unwrap_err();
    assert!(matches!(&error, ConfigError::InputLimit { path, .. } if path == "text"));
    assert!(!format!("{error:?}").contains("secret"));
    let mut b = bounds();
    b.admission.max_text_bytes = 4;
    let error = read(&properties, "number", b).unwrap_err();
    assert!(matches!(
        &error,
        ConfigError::InputLimit { path, error: LimitError::Exceeded { observed: 5, .. }, .. } if path == "number"
    ));
}

#[test]
fn interpolation_has_independent_before_and_after_admission() {
    let properties = vec![text("v", "0123456789"), text("text", "${v}")];
    for (limit, succeeds) in [(4, false), (10, true)] {
        let mut b = bounds();
        b.index.max_structured_payload_bytes = limit;
        b.admission.max_payload_bytes = limit;
        let result = read_with(&properties, "text", "text", b, Some(resolver(&[("v", "0123456789")])));
        assert_eq!(result.is_ok(), succeeds);
    }
}

#[test]
fn dotted_subtree_has_sorted_children_and_absolute_path() {
    // The entries of the section "service", with section-relative names.
    let properties = vec![integer("database.port", 5432), text("database.host", "localhost")];
    let prepared = read_with(
        &properties,
        "database",
        "service.database",
        bounds(),
        None::<fn(&str, &str) -> Result<String, ConfigError>>,
    )
    .unwrap();
    assert_eq!(prepared.root_path, "service.database");
    assert_eq!(keys(&prepared, prepared.root), vec!["host", "port"]);
}

#[test]
fn exact_property_and_descendants_conflict_in_either_insertion_order() {
    for reverse in [false, true] {
        let server = json("server", object(vec![("host", JsonValue::String("localhost".to_owned()))]));
        let port = integer("server.port", 8080);
        let properties = if reverse { vec![port, server] } else { vec![server, port] };
        assert!(matches!(read(&properties, "server", bounds()), Err(ConfigError::KeyConflict { .. })));
    }
}

#[test]
fn scalar_parent_rejects_nested_properties() {
    let properties = vec![integer("server", 8080), integer("server.port", 8081)];
    assert!(matches!(read(&properties, "", bounds()), Err(ConfigError::KeyConflict { .. })));
}

#[test]
fn overlapping_objects_merge_distinct_leaves_and_reject_duplicates() {
    let mut properties = vec![
        json("server.options", object(vec![("nested", object(vec![("left", number(1))]))])),
        integer("server.options.nested.right", 2),
    ];
    {
        let prepared = read(&properties, "server", bounds()).unwrap();
        let options = child(&prepared, prepared.root, "options");
        let nested = child(&prepared, options, "nested");
        assert_eq!(keys(&prepared, nested), vec!["left", "right"]);
    }
    properties.push(integer("server.options.nested.left", 3));
    assert!(matches!(read(&properties, "server", bounds()), Err(ConfigError::KeyConflict { .. })));
}

#[test]
fn map_keys_are_not_interpolated_and_values_are() {
    let properties = vec![
        text("target", "expanded"),
        scalar("map", ScalarValue::StringMap(vec![("${absent}".to_owned(), "${target}".to_owned())])),
    ];
    let prepared = read_with(&properties, "map", "map", bounds(), Some(resolver(&[("target", "expanded")]))).unwrap();
    match &prepared.nodes[prepared.root] {
        ReadNode::StringMap(map) => assert!(map.iter().any(|(key, _)| key == "${absent}")),
        other => panic!("unexpected {other:?}"),
    }
    assert_eq!(prepared.overlays.iter().map(|(_, text)| text.as_str()).collect::<Vec<_>>(), vec!["expanded"]);
}

#[test]
fn scalar_policy_missing_is_omitted_only_at_property_boundary() {
    let properties = vec![
        text("tree.missing", " "),
        text("tree.nested.missing", " "),
        Property {
            name: "tree.items".to_owned(),
            value: ValueContainer::Collection(CollectionValue::Items(vec![ScalarValue::String(" ".to_owned())])),
        },
    ];
    let mut b = bounds();
    b.policy = StringPolicy { trim: true, blank_strings: BlankStrings::TreatAsMissing };
    let exact = read(&properties, "tree.missing", b).unwrap();
    assert!(matches!(exact.nodes[exact.root], ReadNode::Missing(MissingReason::BlankString)));
    let tree = read(&properties, "tree", b).unwrap();
    assert_eq!(keys(&tree, tree.root), vec!["items"]);
}

#[test]
fn split_text_refuses_surplus_items_only_for_fixed_lengths() {
    assert_eq!(split_surplus_refusal(Some(2), true), Some(Expected::TupleLength));
    assert_eq!(split_surplus_refusal(Some(2), false), None);
    assert_eq!(split_surplus_refusal(None, true), None);
}

#[test]
fn selection_finds_the_first_exact_property_and_nested_keys() {
    let properties = vec![integer("a", 1), integer("a.b", 2), integer("a", 3), integer("ab", 4)];
    let entries = entries(&properties);
    let exact = exact_property("a", &entries).unwrap();
    assert!(std::ptr::eq(exact, &properties[0]));
    assert!(exact_property("", &entries).is_none());
    assert!(exact_property("b", &entries).is_none());
    assert!(has_nested_keys("a", &entries));
    assert!(!has_nested_keys("ab", &entries));
    assert!(!has_nested_keys("", &entries));
}

#[test]
fn flat_keys_are_indexed_exactly_while_their_charges_fit() {
    let properties = vec![boolean("tree.ab", true), boolean("tree.cd", false)];
    for (payload, nodes, succeeds) in [(4, 3, true), (3, 3, false), (4, 2, false)] {
        let mut b = bounds();
        b.index.max_structured_payload_bytes = payload;
        b.index.max_nodes = nodes;
        let entries = entries(&properties);
        let result = prepare_read("tree", "tree".to_owned(), None, false, &entries, b.index);
        assert_eq!(result.is_ok(), succeeds);
        if !succeeds {
            assert!(matches!(result, Err(ConfigError::Limit { .. })));
        }
    }
}

#[test]
fn nonfinite_numbers_are_rejected_before_target_selection() {
    let properties = vec![Property {
        name: "ignored".to_owned(),
        value: ValueContainer::Collection(CollectionValue::Items(vec![
            ScalarValue::Float64(1.0_f64.to_string()),
            ScalarValue::Float64(f64::NAN.to_string()),
        ])),
    }];
    let error = read(&properties, "", bounds()).unwrap_err();
    match error {
        ConfigError::NonFiniteNumber { path, source_index } => {
            assert_eq!(source_index, Some(1));
            assert_eq!(path, "ignored[1]");
        }
        other => panic!("unexpected {other:?}"),
    }
}
