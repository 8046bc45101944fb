use qubit_config::admission::AdmissionLimits;
use qubit_config::error::ConfigError;
use qubit_config::index_capacity::IndexLimits;
use qubit_config::interpolation_overlay::classify_missing;
use qubit_config::interpolation_overlay::contains_placeholder;
use qubit_config::interpolation_overlay::finish_read;
use qubit_config::interpolation_overlay::interpolate;
use qubit_config::prepared_read::prepare_read;
use qubit_config::prepared_read::PreparedConfigRead;
use qubit_config::read_node::ReadNode;
use qubit_config::string_policy::BlankStrings;
use qubit_config::string_policy::StringPolicy;
use qubit_config::traversal::walk;
use qubit_config::value::JsonValue;
use qubit_config::value::MissingReason;
use qubit_config::value::Property;
use qubit_config::value::ScalarValue;
use qubit_config::value::ValueContainer;

fn limits() -> IndexLimits {
    IndexLimits {
        max_nodes: 1000,
        max_depth: None,
        max_key_bytes: None,
        max_input_bytes: 100_000,
        max_structured_payload_bytes: 100_000,
        max_map_entries: 1000,
    }
}

fn admission() -> AdmissionLimits {
    AdmissionLimits {
        max_depth: None,
        max_nodes: 1000,
        max_input_bytes: 100_000,
        max_payload_bytes: 100_000,
        max_text_bytes: 100_000,
        max_sequence_items: 1000,
        max_map_entries: 1000,
    }
}

fn text(name: &str, value: &str) -> Property {
    Property { name: name.to_owned(), value: ValueContainer::Scalar(ScalarValue::String(value.to_owned())) }
}

fn entries<'a>(properties: &'a [Property]) -> Vec<(String, &'a Property)> {
    properties.iter().map(|property| (property.name.clone(), property)).collect()
}

fn policy(blank_strings: BlankStrings) -> StringPolicy {
    StringPolicy { trim: true, blank_strings }
}

fn paths(prepared: &PreparedConfigRead<'_>) -> Vec<String> {
    let mut walk = walk(prepared, false);
    let mut seen = Vec::new();
    while let Some(visit) = walk.next() {
        seen.push(visit.path.clone());
    }
    seen
}

fn no_substitution(_: &str, _: &str) -> Result<String, ConfigError> {
    Err(ConfigError::BlankString { path: "unused".to_owned() })
}

#[test]
fn blank_leaves_become_missing_and_leave_their_parents() {
    let properties = vec![text("a.b", " \t"), text("a.c", "x")];
    let mut prepared = prepare_read("", String::new(), None, false, &entries(&properties), limits()).unwrap();
    classify_missing(&mut prepared, policy(BlankStrings::TreatAsMissing), false).unwrap();
    assert_eq!(paths(&prepared), vec!["", "a", "a.c"]);
    let missing = prepared
        .nodes
        .iter()
        .filter(|node| matches!(node, ReadNode::Missing(MissingReason::BlankString)))
        .count();
    assert_eq!(missing, 1);
}

#[test]
fn objects_left_empty_by_missing_leaves_disappear() {
    let properties = vec![text("a.b", "   "), text("c", "kept")];
    let mut prepared = prepare_read("", String::new(), None, false, &entries(&properties), limits()).unwrap();
    classify_missing(&mut prepared, policy(BlankStrings::TreatAsMissing), false).unwrap();
    assert_eq!(paths(&prepared), vec!["", "c"]);
}

#[test]
fn exact_reads_keep_a_missing_leaf_in_place() {
    let property = text("a", "\u{3000}");
    let mut prepared = prepare_read("a", "a".to_owned(), Some(&property), false, &Vec::new(), limits()).unwrap();
    classify_missing(&mut prepared, policy(BlankStrings::TreatAsMissing), true).unwrap();
    assert!(matches!(prepared.nodes[0], ReadNode::Missing(MissingReason::BlankString)));
    assert_eq!(paths(&prepared), vec!["a"]);
}

#[test]
fn rejected_blank_leaves_name_their_property() {
    let properties = vec![text("a.ok", "x"), text("a.z", " ")];
    let mut prepared = prepare_read("", String::new(), None, false, &entries(&properties), limits()).unwrap();
    let error = classify_missing(&mut prepared, policy(BlankStrings::Reject), false).unwrap_err();
    match error {
        ConfigError::BlankString { path } => assert_eq!(path, "a.z"),
        other => panic!("unexpected {other:?}"),
    }
}

#[test]
fn preserved_blank_leaves_stay_strings() {
    let properties = vec![text("a", " ")];
    let mut prepared = prepare_read("", String::new(), None, false, &entries(&properties), limits()).unwrap();
    classify_missing(&mut prepared, policy(BlankStrings::Preserve), false).unwrap();
    assert_eq!(paths(&prepared), vec!["", "a"]);
    assert!(!prepared.nodes.iter().any(|node| matches!(node, ReadNode::Missing(_))));
}

#[test]
fn nested_blank_strings_keep_their_positions() {
    let property = Property {
        name: "doc".to_owned(),
        value: ValueContainer::Scalar(ScalarValue::Json(JsonValue::Object(vec![(
            "inner".to_owned(),
            JsonValue::String(" ".to_owned()),
        )]))),
    };
    let properties = vec![property];
    let mut prepared = prepare_read("", String::new(), None, false, &entries(&properties), limits()).unwrap();
    classify_missing(&mut prepared, policy(BlankStrings::Reject), false).unwrap();
    assert_eq!(paths(&prepared), vec!["", "doc", "doc.inner"]);
}

#[test]
fn text_without_whitespace_is_not_blank() {
    let properties = vec![text("a", " x ")];
    let mut prepared = prepare_read("", String::new(), None, false, &entries(&properties), limits()).unwrap();
    classify_missing(&mut prepared, policy(BlankStrings::Reject), false).unwrap();
    assert_eq!(paths(&prepared), vec!["", "a"]);
}

#[test]
fn placeholders_open_with_a_dollar_brace() {
    assert!(contains_placeholder("a ${b} c"));
    assert!(!contains_placeholder("a $ {b}"));
    assert!(!contains_placeholder("$"));
    assert!(!contains_placeholder(""));
}

#[test]
fn interpolation_overlays_only_changed_leaves() {
    let properties = vec![text("a", "${name}"), text("b", "${same}"), text("c", "plain")];
    let prepared = prepare_read("", String::new(), None, false, &entries(&properties), limits()).unwrap();
    let overlays = interpolate(&prepared, 100, |text: &str, path: &str| {
        if path == "a" {
            Ok(text.replace("${name}", "demo"))
        } else {
            Ok(text.to_owned())
        }
    })
    .unwrap();
    assert_eq!(overlays.len(), 1);
    assert_eq!(overlays[0].0.property_index, 0);
    assert!(overlays[0].0.segments.is_empty());
    assert_eq!(overlays[0].1, "demo");
}

#[test]
fn unchanged_text_is_bounded_by_the_output_limit() {
    let properties = vec![text("long", "0123456789")];
    let prepared = prepare_read("", String::new(), None, false, &entries(&properties), limits()).unwrap();
    let error = interpolate(&prepared, 9, no_substitution).unwrap_err();
    match error {
        ConfigError::SubstitutionOutputTooLarge { path, max_output_bytes } => {
            assert_eq!(path, "long");
            assert_eq!(max_output_bytes, 9);
        }
        other => panic!("unexpected {other:?}"),
    }
    assert!(interpolate(&prepared, 10, no_substitution).unwrap().is_empty());
}

#[test]
fn substitution_errors_end_the_interpolation() {
    let properties = vec![text("a", "${missing}")];
    let prepared = prepare_read("", String::new(), None, false, &entries(&properties), limits()).unwrap();
    let error = interpolate(&prepared, 100, no_substitution).unwrap_err();
    assert!(matches!(error, ConfigError::BlankString { path } if path == "unused"));
}

#[test]
fn finishing_a_read_classifies_interpolated_text() {
    let properties = vec![text("a.blank", "${empty}"), text("a.kept", "value")];
    let prepared = prepare_read("", String::new(), None, false, &entries(&properties), limits()).unwrap();
    let done = finish_read(
        prepared,
        Some((100, |_: &str, _: &str| Ok::<String, ConfigError>("  ".to_owned()))),
        policy(BlankStrings::TreatAsMissing),
        admission(),
    )
    .unwrap();
    assert_eq!(done.overlays.len(), 1);
    assert_eq!(paths(&done), vec!["", "a", "a.kept"]);
}

#[test]
fn finishing_without_interpolation_keeps_no_overlays() {
    let properties = vec![text("a", " ")];
    let prepared = prepare_read("", String::new(), None, false, &entries(&properties), limits()).unwrap();
    let error = finish_read(prepared, None::<(usize, fn(&str, &str) -> Result<String, ConfigError>)>, policy(BlankStrings::Reject), admission())
        .unwrap_err();
    assert!(matches!(error, ConfigError::BlankString { path } if path == "a"));
}
