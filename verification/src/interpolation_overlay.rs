//! Blank string leaves are classified once the input is complete: a blank
//! property value may stand for a missing value or be rejected, and objects
//! left empty by missing leaves disappear from their parents.

use vstd::prelude::*;
use vstd::pervasive::VecAdditionalExecFns;

use crate::arena::arena_wf;
use crate::arena::object_children;
use crate::arena::sorted_keys;
use crate::error::ConfigError;
use crate::prepared_read::PreparedConfigRead;
use crate::read_node::NodeId;
use crate::read_node::ReadNode;
use crate::source_location::overlay_at;
use crate::source_location::overlay_text;
use crate::admission::admission_refusal;
use crate::admission::admit_input;
use crate::admission::admitted;
use crate::admission::fresh;
use crate::admission::AdmissionLimits;
use crate::string_policy::is_blank;
use crate::string_policy::normalize_optional;
use crate::string_policy::string_outcome;
use crate::string_policy::StringOutcome;
use crate::string_policy::StringPolicy;
use crate::text::text_lt;
use crate::value::MissingReason;
use crate::value::ScalarValue;
use crate::read_view::view_string;
use crate::source_location::SourceLocation;
use crate::text::chars_of;
use crate::text::compare_chars;
use crate::text::TextOrder;
use crate::traversal::all_visits;
use crate::traversal::strings_located;
use crate::traversal::nodes_located;
use crate::traversal::lemma_read_strings_located;
use crate::traversal::walk;
use crate::visit::LocationView;
use crate::visit::VisitView;
use vstd::utf8::encode_utf8;

verus! {

impl<'a> PreparedConfigRead<'a> {
    /// Every known location refers to a registered property.
    pub open spec fn sources_registered(&self) -> bool {
        forall|id: int|
            0 <= id < self.nodes@.len() ==> (#[trigger] self.sources.origin_at(id) matches Some(location)
                ==> location.property_index < self.sources.property_count())
    }
}

/// The text of node `id` when it is a stored string that is a property's own
/// value: the interpolated replacement for its location if there is one,
/// otherwise the stored text. Strings nested in JSON, maps or collections
/// are not such leaves.
pub open spec fn leaf_text(prepared: PreparedConfigRead, id: int) -> Option<Seq<char>> {
    match prepared.nodes@[id] {
        ReadNode::Scalar(ScalarValue::String(original)) => match prepared.sources.origin_at(id) {
            Some(location) => if location.segments@.len() == 0 {
                match overlay_at(prepared.overlays@, location) {
                    Some(text) => Some(text),
                    None => Some(original@),
                }
            } else {
                None
            },
            None => None,
        },
        _ => None,
    }
}

/// What the string policy makes of node `id`.
pub open spec fn leaf_outcome(prepared: PreparedConfigRead, policy: StringPolicy, id: int) -> StringOutcome {
    match leaf_text(prepared, id) {
        Some(text) => string_outcome(policy.blank_strings, is_blank(text)),
        None => StringOutcome::Kept,
    }
}

/// Node `id` is the first leaf that the policy rejects.
pub open spec fn first_rejected(prepared: PreparedConfigRead, policy: StringPolicy, id: int) -> bool {
    &&& 0 <= id < prepared.nodes@.len()
    &&& leaf_outcome(prepared, policy, id) == StringOutcome::Rejected
    &&& forall|j: int| 0 <= j < id ==> #[trigger] leaf_outcome(prepared, policy, j) != StringOutcome::Rejected
}

/// `error` reports a rejected blank leaf at node `id` by the name of the
/// property that holds it.
pub open spec fn blank_string_error(error: ConfigError, prepared: PreparedConfigRead, id: int) -> bool {
    match error {
        ConfigError::BlankString { path } => match prepared.sources.origin_at(id) {
            Some(location) => match prepared.sources.property_at(location.property_index as int) {
                Some(property) => path@ == property.name@,
                None => false,
            },
            None => false,
        },
        _ => false,
    }
}

/// Whether empty objects are pruned: only for subtree reads in which some
/// leaf became missing.
pub open spec fn pruning(prepared: PreparedConfigRead, policy: StringPolicy, exact: bool) -> bool {
    !exact && exists|id: int|
        0 <= id < prepared.nodes@.len() && #[trigger] leaf_outcome(prepared, policy, id) == StringOutcome::Missing
}

/// The children that are not omitted, in order.
pub open spec fn retained(children: Seq<(String, NodeId)>, omitted: Seq<bool>) -> Seq<(String, NodeId)>
    decreases children.len(),
{
    if children.len() == 0 {
        seq![]
    } else {
        let rest = retained(children.drop_last(), omitted);
        if omitted[children.last().1 as int] {
            rest
        } else {
            rest.push(children.last())
        }
    }
}

/// `omitted` marks exactly the nodes that disappear: leaves that became
/// missing, and objects other than the root with no location of their own
/// whose children all disappear.
pub open spec fn omission_marks(prepared: PreparedConfigRead, policy: StringPolicy, omitted: Seq<bool>) -> bool {
    &&& omitted.len() == prepared.nodes@.len()
    &&& forall|id: int|
        0 <= id < omitted.len() ==> #[trigger] omitted[id] == (leaf_outcome(prepared, policy, id)
            == StringOutcome::Missing || (prepared.nodes@[id] is Object && prepared.sources.origin_at(id) is None
            && id != prepared.root && retained(object_children(prepared.nodes@[id]), omitted).len() == 0))
}

/// `new` is `old` classified: missing leaves are marked missing, objects
/// keep their retained children when pruning, and all else is unchanged.
pub open spec fn classified(
    old: PreparedConfigRead,
    new: PreparedConfigRead,
    policy: StringPolicy,
    prune: bool,
    omitted: Seq<bool>,
) -> bool {
    &&& new.nodes@.len() == old.nodes@.len()
    &&& forall|id: int|
        0 <= id < old.nodes@.len() ==> {
            if leaf_outcome(old, policy, id) == StringOutcome::Missing {
                #[trigger] new.nodes@[id] == ReadNode::Missing(MissingReason::BlankString)
            } else if prune && old.nodes@[id] is Object {
                &&& new.nodes@[id] is Object
                &&& object_children(new.nodes@[id]) == retained(object_children(old.nodes@[id]), omitted)
            } else {
                new.nodes@[id] == old.nodes@[id]
            }
        }
}

/// `new` is `old` after a successful classification: no leaf was
/// rejected, the arena is still a tree, and the nodes are classified, with
/// empty objects pruned when pruning applies.
pub open spec fn classification(old: PreparedConfigRead, new: PreparedConfigRead, policy: StringPolicy, exact: bool) -> bool {
    &&& forall|id: int| 0 <= id < old.nodes@.len() ==> #[trigger] leaf_outcome(old, policy, id) != StringOutcome::Rejected
    &&& arena_wf(new.nodes@)
    &&& !pruning(old, policy, exact) ==> classified(old, new, policy, false, seq![])
    &&& pruning(old, policy, exact) ==> exists|omitted: Seq<bool>|
        #[trigger] omission_marks(old, policy, omitted) && classified(old, new, policy, true, omitted)
}

/// `error` rejects the first blank leaf that the policy rejects.
pub open spec fn blank_rejection(prepared: PreparedConfigRead, policy: StringPolicy, error: ConfigError) -> bool {
    exists|id: int| #[trigger] first_rejected(prepared, policy, id) && blank_string_error(error, prepared, id)
}

/// Retaining children only looks at the marks of the children.
proof fn lemma_retained_marks(children: Seq<(String, NodeId)>, a: Seq<bool>, b: Seq<bool>)
    requires
        forall|k: int| 0 <= k < children.len() ==> a[(#[trigger] children[k]).1 as int] == b[children[k].1 as int],
    ensures
        retained(children, a) == retained(children, b),
    decreases children.len(),
{
    if children.len() > 0 {
        let rest = children.drop_last();
        assert forall|k: int| 0 <= k < rest.len() implies a[(#[trigger] rest[k]).1 as int] == b[rest[k].1 as int] by {
            assert(rest[k] == children[k]);
        }
        lemma_retained_marks(rest, a, b);
        assert(children.last() == children[children.len() - 1]);
    }
}

/// Retained children are some of the children, still sorted.
proof fn lemma_retained_sorted(children: Seq<(String, NodeId)>, omitted: Seq<bool>)
    requires
        sorted_keys(children),
    ensures
        sorted_keys(retained(children, omitted)),
        forall|k: int|
            0 <= k < retained(children, omitted).len() ==> exists|j: int|
                0 <= j < children.len() && #[trigger] retained(children, omitted)[k] == children[j],
    decreases children.len(),
{
    if children.len() > 0 {
        let rest = children.drop_last();
        assert(sorted_keys(rest)) by {
            assert forall|i: int, j: int| 0 <= i < j < rest.len() implies text_lt(#[trigger] rest[i].0@, #[trigger] rest[j].0@) by {
                assert(rest[i] == children[i] && rest[j] == children[j]);
            }
        }
        lemma_retained_sorted(rest, omitted);
        let kept = retained(rest, omitted);
        let out = retained(children, omitted);
        assert forall|k: int| 0 <= k < kept.len() implies exists|j: int| 0 <= j < children.len() && #[trigger] kept[k] == children[j] by {
            let j = choose|j: int| 0 <= j < rest.len() && kept[k] == rest[j];
            assert(kept[k] == children[j]);
        }
        if !omitted[children.last().1 as int] {
            let last = children.len() - 1;
            assert(out == kept.push(children[last]));
            assert forall|i: int, j: int| 0 <= i < j < out.len() implies text_lt(#[trigger] out[i].0@, #[trigger] out[j].0@) by {
                if j == out.len() - 1 {
                    let r = choose|r: int| 0 <= r < rest.len() && kept[i] == rest[r];
                    assert(kept[i] == children[r]);
                    assert(out[i] == kept[i]);
                    assert(out[j] == children[last]);
                    assert(text_lt(children[r].0@, children[last].0@));
                } else {
                    assert(out[i] == kept[i] && out[j] == kept[j]);
                }
            }
            assert forall|k: int| 0 <= k < out.len() implies exists|j: int| 0 <= j < children.len() && #[trigger] out[k] == children[j] by {
                if k == out.len() - 1 {
                    assert(out[k] == children[last]);
                } else {
                    assert(out[k] == kept[k]);
                }
            }
        }
    }
}

/// The children whose nodes are not omitted, in order.
fn retain_children(children: &Vec<(String, NodeId)>, omitted: &Vec<bool>) -> (kept: Vec<(String, NodeId)>)
    requires
        forall|k: int| 0 <= k < children@.len() ==> (#[trigger] children@[k]).1 < omitted@.len(),
    ensures
        kept@ == retained(children@, omitted@),
{
    let mut kept: Vec<(String, NodeId)> = Vec::new();
    let mut i: usize = 0;
    assert(children@.take(0) =~= Seq::<(String, NodeId)>::empty());
    while i < children.len()
        invariant
            i <= children@.len(),
            forall|k: int| 0 <= k < children@.len() ==> (#[trigger] children@[k]).1 < omitted@.len(),
            kept@ == retained(children@.take(i as int), omitted@),
        decreases children@.len() - i,
    {
        proof {
            assert(children@.take(i + 1).drop_last() =~= children@.take(i as int));
            assert(children@.take(i + 1).last() == children@[i as int]);
        }
        let entry = &children[i];
        let child: NodeId = entry.1;
        if !omitted[child] {
            kept.push((entry.0.clone(), child));
        }
        i = i + 1;
    }
    assert(children@.take(children@.len() as int) =~= children@);
    kept
}

/// Classifies the blank string leaves of a prepared read.
///
/// A string that is a property's own value (after interpolation) is
/// normalized by the string policy. A blank one that stands for a missing
/// value becomes missing; a rejected one fails the read, naming the first
/// such property. In a subtree read with missing leaves, the missing leaves
/// and the objects they leave empty are removed from their parents, except
/// the root and objects that some property stores.
pub fn classify_missing<'a>(
    prepared: &mut PreparedConfigRead<'a>,
    policy: StringPolicy,
    exact: bool,
) -> (result: Result<(), ConfigError>)
    requires
        old(prepared).sources_registered(),
        arena_wf(old(prepared).nodes@),
    ensures
        final(prepared).overlays == old(prepared).overlays,
        final(prepared).sources == old(prepared).sources,
        final(prepared).root == old(prepared).root,
        final(prepared).root_path == old(prepared).root_path,
        match result {
            Ok(()) => classification(*old(prepared), *final(prepared), policy, exact),
            Err(error) => blank_rejection(*old(prepared), policy, error),
        },
{
    let ghost start = *prepared;
    let n = prepared.nodes.len();
    let mut omitted: Vec<bool> = vec![false; n];
    let mut marked = false;
    let mut i: usize = 0;
    while i < n
        invariant
            start == *old(prepared),
            n == start.nodes@.len(),
            i <= n,
            start.sources_registered(),
            arena_wf(start.nodes@),
            prepared.nodes@.len() == n,
            prepared.overlays == start.overlays,
            prepared.sources == start.sources,
            prepared.root == start.root,
            prepared.root_path == start.root_path,
            omitted@.len() == n,
            forall|j: int| i <= j < n ==> #[trigger] prepared.nodes@[j] == start.nodes@[j],
            forall|j: int|
                0 <= j < i ==> #[trigger] prepared.nodes@[j] == if leaf_outcome(start, policy, j)
                    == StringOutcome::Missing {
                    ReadNode::Missing(MissingReason::BlankString)
                } else {
                    start.nodes@[j]
                },
            forall|j: int| 0 <= j < i ==> #[trigger] leaf_outcome(start, policy, j) != StringOutcome::Rejected,
            forall|j: int|
                0 <= j < n ==> #[trigger] omitted@[j] == (j < i && leaf_outcome(start, policy, j)
                    == StringOutcome::Missing),
            marked == exists|j: int| 0 <= j < i && #[trigger] leaf_outcome(start, policy, j) == StringOutcome::Missing,
        decreases n - i,
    {
        let (outcome, rejected_path): (StringOutcome, Option<String>) = match &prepared.nodes[i] {
            ReadNode::Scalar(ScalarValue::String(original)) => match prepared.sources.origin(i) {
                Some(location) => {
                    if location.segments.len() == 0 {
                        let text: &String = match overlay_text(&prepared.overlays, location) {
                            Some(replacement) => replacement,
                            None => original,
                        };
                        let outcome = normalize_optional(policy, text.as_str());
                        match outcome {
                            StringOutcome::Rejected => match prepared.sources.property(location.property_index) {
                                Some(property) => (outcome, Some(property.name.clone())),
                                None => (outcome, None),
                            },
                            _ => (outcome, None),
                        }
                    } else {
                        (StringOutcome::Kept, None)
                    }
                },
                None => (StringOutcome::Kept, None),
            },
            _ => (StringOutcome::Kept, None),
        };
        proof {
            assert(prepared.nodes@[i as int] == start.nodes@[i as int]);
            assert(outcome == leaf_outcome(start, policy, i as int));
        }
        match outcome {
            StringOutcome::Rejected => {
                match rejected_path {
                    Some(path) => {
                        let error = ConfigError::BlankString { path };
                        assert(first_rejected(start, policy, i as int));
                        return Err(error);
                    },
                    None => {
                        proof {
                            assert(start.sources.origin_at(i as int) is Some);
                            assert(false);
                        }
                    },
                }
            },
            StringOutcome::Missing => {
                prepared.nodes.set(i, ReadNode::Missing(MissingReason::BlankString));
                omitted.set(i, true);
                marked = true;
            },
            StringOutcome::Kept => {},
        }
        i = i + 1;
    }
    if exact || !marked {
        proof {
            assert(!pruning(start, policy, exact));
            assert forall|p: int, k: int|
                0 <= p < n && 0 <= k < object_children(prepared.nodes@[p]).len() implies p < (#[trigger] object_children(
                prepared.nodes@[p],
            )[k]).1 < n by {
                assert(prepared.nodes@[p] is Object ==> prepared.nodes@[p] == start.nodes@[p]);
            }
            assert forall|p: int| 0 <= p < n implies sorted_keys(object_children(#[trigger] prepared.nodes@[p])) by {
                assert(prepared.nodes@[p] is Object ==> prepared.nodes@[p] == start.nodes@[p]);
            }
        }
        return Ok(());
    }
    let ghost base = omitted@;
    let ghost middle = prepared.nodes@;
    let mut id: usize = n;
    while id > 0
        invariant
            start == *old(prepared),
            n == start.nodes@.len(),
            id <= n,
            arena_wf(start.nodes@),
            prepared.nodes@.len() == n,
            prepared.overlays == start.overlays,
            prepared.sources == start.sources,
            prepared.root == start.root,
            prepared.root_path == start.root_path,
            omitted@.len() == n,
            base.len() == n,
            middle.len() == n,
            forall|j: int| 0 <= j < n ==> #[trigger] base[j] == (leaf_outcome(start, policy, j) == StringOutcome::Missing),
            forall|j: int|
                0 <= j < n ==> #[trigger] middle[j] == if leaf_outcome(start, policy, j) == StringOutcome::Missing {
                    ReadNode::Missing(MissingReason::BlankString)
                } else {
                    start.nodes@[j]
                },
            forall|j: int| 0 <= j < id ==> #[trigger] omitted@[j] == base[j],
            forall|j: int| 0 <= j < id ==> #[trigger] prepared.nodes@[j] == middle[j],
            forall|j: int|
                id <= j < n ==> #[trigger] omitted@[j] == (base[j] || (start.nodes@[j] is Object
                    && start.sources.origin_at(j) is None && j != start.root && retained(
                    object_children(start.nodes@[j]),
                    omitted@,
                ).len() == 0)),
            forall|j: int|
                id <= j < n ==> if middle[j] is Object {
                    &&& #[trigger] prepared.nodes@[j] is Object
                    &&& object_children(prepared.nodes@[j]) == retained(object_children(start.nodes@[j]), omitted@)
                } else {
                    prepared.nodes@[j] == middle[j]
                },
        decreases id,
    {
        id = id - 1;
        let ghost before = omitted@;
        let kept: Option<Vec<(String, NodeId)>> = match &prepared.nodes[id] {
            ReadNode::Object(children) => {
                proof {
                    assert(prepared.nodes@[id as int] == middle[id as int]);
                    assert(middle[id as int] == start.nodes@[id as int]);
                    assert forall|k: int| 0 <= k < children@.len() implies (#[trigger] children@[k]).1 < omitted@.len() by {
                        assert(object_children(start.nodes@[id as int])[k] == children@[k]);
                    }
                }
                Some(retain_children(children, &omitted))
            },
            _ => None,
        };
        match kept {
            Some(kept) => {
                let empty = kept.len() == 0;
                prepared.nodes.set(id, ReadNode::Object(kept));
                if empty && prepared.sources.origin(id).is_none() && id != prepared.root {
                    omitted.set(id, true);
                }
            },
            None => {},
        }
        proof {
            let now = omitted@;
            assert forall|j: int| id <= j < n implies retained(object_children(start.nodes@[j]), now) == retained(object_children(start.nodes@[j]), before) by {
                let children = object_children(start.nodes@[j]);
                assert forall|k: int| 0 <= k < children.len() implies now[(#[trigger] children[k]).1 as int] == before[children[k].1 as int] by {
                    assert(j < children[k].1);
                }
                lemma_retained_marks(children, now, before);
            }
            if kept is None {
                assert(middle[id as int] !is Object);
            }
        }
    }
    proof {
        let marks = omitted@;
        assert(omission_marks(start, policy, marks));
        assert forall|p: int| 0 <= p < n implies sorted_keys(object_children(#[trigger] prepared.nodes@[p])) by {
            if middle[p] is Object {
                lemma_retained_sorted(object_children(start.nodes@[p]), marks);
            }
        }
        assert forall|p: int, k: int|
            0 <= p < n && 0 <= k < object_children(prepared.nodes@[p]).len() implies p < (#[trigger] object_children(
            prepared.nodes@[p],
        )[k]).1 < n by {
            if middle[p] is Object {
                let children = object_children(start.nodes@[p]);
                lemma_retained_sorted(children, marks);
                let j = choose|j: int| 0 <= j < children.len() && retained(children, marks)[k] == children[j];
                assert(object_children(prepared.nodes@[p])[k] == children[j]);
            }
        }
        assert(pruning(start, policy, exact)) by {
            let j = choose|j: int| 0 <= j < n && #[trigger] leaf_outcome(start, policy, j) == StringOutcome::Missing;
            assert(0 <= j < n && leaf_outcome(start, policy, j) == StringOutcome::Missing);
        }
        assert(classified(start, *prepared, policy, true, marks));
    }
    Ok(())
}

/// `text` opens a placeholder, `${`, at position `i`.
pub open spec fn opens_placeholder(text: Seq<char>, i: int) -> bool {
    0 <= i && i + 1 < text.len() && text[i] == '$' && text[i + 1] == '{'
}

/// `text` holds a placeholder opening.
pub open spec fn has_placeholder(text: Seq<char>) -> bool {
    exists|i: int| #[trigger] opens_placeholder(text, i)
}

/// Number of UTF-8 bytes of a text, as `str::len` reports it.
pub open spec fn utf8_len(text: Seq<char>) -> usize {
    encode_utf8(text).len() as usize
}

/// Whether a text holds a placeholder opening.
pub fn contains_placeholder(text: &str) -> (found: bool)
    ensures
        found == has_placeholder(text@),
{
    let chars = chars_of(text);
    let mut i: usize = 0;
    while i < chars.len()
        invariant
            chars@ == text@,
            i <= chars@.len(),
            forall|j: int| 0 <= j < i ==> !#[trigger] opens_placeholder(text@, j),
        decreases chars@.len() - i,
    {
        if chars[i] == '$' && i + 1 < chars.len() && chars[i + 1] == '{' {
            assert(opens_placeholder(text@, i as int));
            return true;
        }
        i = i + 1;
    }
    assert forall|j: int| !#[trigger] opens_placeholder(text@, j) by {
        if 0 <= j < i {
        }
    }
    false
}

/// `substitute` may turn `text`, read at `path`, into `outcome`.
pub open spec fn may_substitute<F: Fn(&str, &str) -> Result<String, ConfigError>>(
    substitute: F,
    text: Seq<char>,
    path: Seq<char>,
    outcome: Result<String, ConfigError>,
) -> bool {
    exists|t: &str, p: &str| t@ == text && p@ == path && #[trigger] call_ensures(substitute, (t, p), outcome)
}

/// A visit passes interpolation with `result`: a string leaf with a
/// placeholder was substituted into `result`; a string leaf without one fits
/// the output bound; anything else is left alone.
pub open spec fn visit_passes<'a, F: Fn(&str, &str) -> Result<String, ConfigError>>(
    substitute: F,
    visit: VisitView<'a>,
    max_output_bytes: usize,
    result: Option<String>,
) -> bool {
    match view_string(visit.value) {
        Some(text) => if has_placeholder(text) {
            result matches Some(changed) && may_substitute(substitute, text, visit.path, Ok(changed))
        } else {
            utf8_len(text) <= max_output_bytes && result is None
        },
        None => result is None,
    }
}

/// A visit fails interpolation with `error`: its substitution failed so, or
/// it is a string leaf without placeholder above the output bound.
pub open spec fn visit_fails<'a, F: Fn(&str, &str) -> Result<String, ConfigError>>(
    substitute: F,
    visit: VisitView<'a>,
    max_output_bytes: usize,
    error: ConfigError,
) -> bool {
    match view_string(visit.value) {
        Some(text) => if has_placeholder(text) {
            may_substitute(substitute, text, visit.path, Err(error))
        } else {
            &&& utf8_len(text) > max_output_bytes
            &&& error matches ConfigError::SubstitutionOutputTooLarge { path, max_output_bytes: bound }
            &&& path@ == visit.path
            &&& bound == max_output_bytes
        },
        None => false,
    }
}

/// Every visit passed with the corresponding result.
pub open spec fn substituted<'a, F: Fn(&str, &str) -> Result<String, ConfigError>>(
    substitute: F,
    visits: Seq<VisitView<'a>>,
    max_output_bytes: usize,
    results: Seq<Option<String>>,
) -> bool {
    &&& results.len() == visits.len()
    &&& forall|i: int| 0 <= i < visits.len() ==> #[trigger] visit_passes(substitute, visits[i], max_output_bytes, results[i])
}

/// Replacement texts of the leaves whose substitution changed them, at
/// their locations, in visit order.
pub open spec fn changed_leaves<'a>(visits: Seq<VisitView<'a>>, results: Seq<Option<String>>) -> Seq<(LocationView, Seq<char>)>
    decreases visits.len(),
{
    if visits.len() == 0 {
        seq![]
    } else {
        let rest = changed_leaves(visits.drop_last(), results.drop_last());
        let last = visits.last();
        match (view_string(last.value), results.last(), last.location) {
            (Some(text), Some(changed), Some(location)) => if changed@ != text {
                rest.push((location, changed@))
            } else {
                rest
            },
            _ => rest,
        }
    }
}

/// Overlays by value.
pub open spec fn overlay_views(overlays: Seq<(SourceLocation, String)>) -> Seq<(LocationView, Seq<char>)> {
    overlays.map_values(|overlay: (SourceLocation, String)| ((overlay.0.property_index, overlay.0.segments@), overlay.1@))
}

/// `overlays` are what interpolating the visits produces: every visit
/// passed, and the changed leaves are the overlays.
pub open spec fn interpolation_of<'a, F: Fn(&str, &str) -> Result<String, ConfigError>>(
    substitute: F,
    visits: Seq<VisitView<'a>>,
    max_output_bytes: usize,
    overlays: Seq<(SourceLocation, String)>,
) -> bool {
    exists|results: Seq<Option<String>>|
        #[trigger] substituted(substitute, visits, max_output_bytes, results) && overlay_views(overlays) == changed_leaves(
            visits,
            results,
        )
}

/// `error` ends interpolating the visits: every visit before one passed,
/// and that one failed so.
pub open spec fn interpolation_failure<'a, F: Fn(&str, &str) -> Result<String, ConfigError>>(
    substitute: F,
    visits: Seq<VisitView<'a>>,
    max_output_bytes: usize,
    error: ConfigError,
) -> bool {
    exists|i: int, results: Seq<Option<String>>|
        0 <= i < visits.len() && #[trigger] substituted(substitute, visits.take(i), max_output_bytes, results)
            && visit_fails(substitute, visits[i], max_output_bytes, error)
}

/// Interpolates every string leaf of a read, nested ones included.
///
/// Visiting the read in pre-order with locations, each string leaf with a
/// placeholder is handed to `substitute` with its path; a result that
/// differs from the text becomes the overlay of the leaf's location. A leaf
/// without placeholder is left as it is, but must not exceed the output
/// bound either. The first failure ends the interpolation.
pub fn interpolate<'a, F: Fn(&str, &str) -> Result<String, ConfigError>>(
    prepared: &'a PreparedConfigRead<'a>,
    max_output_bytes: usize,
    substitute: F,
) -> (result: Result<Vec<(SourceLocation, String)>, ConfigError>)
    requires
        arena_wf(prepared.nodes@),
        prepared.root < prepared.nodes@.len(),
        strings_located(all_visits(prepared, true)),
        forall|t: &str, p: &str| #[trigger] call_requires(substitute, (t, p)),
    ensures
        match result {
            Ok(overlays) => interpolation_of(substitute, all_visits(prepared, true), max_output_bytes, overlays@),
            Err(error) => interpolation_failure(substitute, all_visits(prepared, true), max_output_bytes, error),
        },
{
    let ghost visits = all_visits(prepared, true);
    let mut overlays: Vec<(SourceLocation, String)> = Vec::new();
    let mut walk = walk(prepared, true);
    let ghost mut count: int = 0;
    let ghost mut results: Seq<Option<String>> = seq![];
    let mut done = false;
    assert(visits.skip(0) =~= visits);
    assert(visits.take(0) =~= Seq::<VisitView<'a>>::empty());
    assert(overlay_views(overlays@) =~= changed_leaves(visits.take(0), results));
    while !done
        invariant
            visits == all_visits(prepared, true),
            strings_located(visits),
            forall|t: &str, p: &str| #[trigger] call_requires(substitute, (t, p)),
            walk.wf(),
            walk.prepared() == prepared,
            walk.track(),
            0 <= count <= visits.len(),
            walk.remaining() == visits.skip(count),
            done ==> count == visits.len(),
            substituted(substitute, visits.take(count), max_output_bytes, results),
            overlay_views(overlays@) == changed_leaves(visits.take(count), results),
        decreases walk.remaining().len() + if done { 0int } else { 1int },
    {
        match walk.next() {
            None => {
                done = true;
            },
            Some(visit) => {
                let ghost index = count;
                proof {
                    assert(visit@ == visits[index]);
                    assert(visits.take(index + 1).drop_last() =~= visits.take(index));
                    assert(visits.take(index + 1).last() == visits[index]);
                }
                let mut outcome: Option<String> = None;
                match visit.value.string() {
                    None => {
                        assert(visit_passes(substitute, visits[index], max_output_bytes, outcome));
                    },
                    Some(text) => {
                        if !contains_placeholder(text) {
                            if text.len() > max_output_bytes {
                                let error = ConfigError::SubstitutionOutputTooLarge { path: visit.path, max_output_bytes };
                                assert(visit_fails(substitute, visits[index], max_output_bytes, error));
                                assert(substituted(substitute, visits.take(index), max_output_bytes, results));
                                return Err(error);
                            }
                            assert(visit_passes(substitute, visits[index], max_output_bytes, outcome));
                        } else {
                            let path: &str = visit.path.as_str();
                            let substitution = substitute(text, path);
                            assert(may_substitute(substitute, text@, visit.path@, substitution));
                            match substitution {
                                Err(error) => {
                                    assert(visit_fails(substitute, visits[index], max_output_bytes, error));
                                    assert(substituted(substitute, visits.take(index), max_output_bytes, results));
                                    return Err(error);
                                },
                                Ok(changed) => {
                                    let same = {
                                        let original = chars_of(text);
                                        let replaced = chars_of(changed.as_str());
                                        match compare_chars(&replaced, &original) {
                                            TextOrder::Same => true,
                                            _ => false,
                                        }
                                    };
                                    assert(may_substitute(substitute, text@, visit.path@, Ok(changed)));
                                    if same {
                                        outcome = Some(changed);
                                        assert(visit_passes(substitute, visits[index], max_output_bytes, outcome));
                                    } else {
                                        match visit.location {
                                            Some(location) => {
                                                let ghost kept = changed;
                                                overlays.push((location, changed.clone()));
                                                outcome = Some(changed);
                                                assert(visit_passes(substitute, visits[index], max_output_bytes, outcome));
                                            },
                                            None => {
                                                proof {
                                                    assert(view_string(visits[index].value) is Some);
                                                    assert(false);
                                                }
                                            },
                                        }
                                    }
                                },
                            }
                        }
                    },
                }
                assert(visit_passes(substitute, visits[index], max_output_bytes, outcome));
                proof {
                    let old_results = results;
                    results = results.push(outcome);
                    count = count + 1;
                    assert(results.drop_last() =~= old_results);
                    assert forall|i: int| 0 <= i < visits.take(count).len() implies #[trigger] visit_passes(
                        substitute,
                        visits.take(count)[i],
                        max_output_bytes,
                        results[i],
                    ) by {
                        if i < index {
                            assert(visits.take(count)[i] == visits.take(index)[i]);
                        }
                    }
                    assert(walk.remaining() =~= visits.skip(count));
                }
            },
        }
    }
    assert(visits.take(visits.len() as int) =~= visits);
    Ok(overlays)
}

/// The read with these overlays.
pub open spec fn with_overlays<'a>(prepared: PreparedConfigRead<'a>, overlays: Vec<(SourceLocation, String)>) -> PreparedConfigRead<'a> {
    PreparedConfigRead {
        overlays,
        nodes: prepared.nodes,
        sources: prepared.sources,
        root: prepared.root,
        root_path: prepared.root_path,
    }
}

/// `overlays` are what the requested interpolation of a read produces:
/// none without interpolation.
pub open spec fn interpolated<'a, F: Fn(&str, &str) -> Result<String, ConfigError>>(
    prepared: PreparedConfigRead<'a>,
    interpolation: Option<(usize, F)>,
    overlays: Seq<(SourceLocation, String)>,
) -> bool {
    match interpolation {
        None => overlays.len() == 0,
        Some((max_output_bytes, substitute)) => interpolation_of(
            substitute,
            all_visits(&prepared, true),
            max_output_bytes,
            overlays,
        ),
    }
}

/// Completes an indexed read: interpolates its string leaves when asked,
/// with this output bound and substitution, then classifies its blank
/// leaves. An exact read keeps objects as they are.
pub fn finish_read<'a, F: Fn(&str, &str) -> Result<String, ConfigError>>(
    prepared: PreparedConfigRead<'a>,
    interpolation: Option<(usize, F)>,
    policy: StringPolicy,
    admission: AdmissionLimits,
) -> (result: Result<PreparedConfigRead<'a>, ConfigError>)
    requires
        arena_wf(prepared.nodes@),
        prepared.root < prepared.nodes@.len(),
        prepared.sources_registered(),
        nodes_located(&prepared),
        prepared.overlays@.len() == 0,
        interpolation matches Some((_, substitute)) ==> forall|t: &str, p: &str| #[trigger] call_requires(substitute, (t, p)),
    ensures
        admission_refusal(admission, fresh(admission), all_visits(&prepared, true), prepared.overlays@) is Some
            ==> (result matches Err(error) && admitted(Err(error), all_visits(&prepared, true), admission, prepared.overlays@)),
        match result {
            Ok(done) => {
                &&& admission_refusal(admission, fresh(admission), all_visits(&prepared, true), prepared.overlays@) is None
                &&& interpolated(prepared, interpolation, done.overlays@)
                &&& admission_refusal(admission, fresh(admission), all_visits(&prepared, true), done.overlays@) is None
                &&& classification(with_overlays(prepared, done.overlays), done, policy, prepared.sources is Exact)
            },
            Err(error) => {
                ||| admitted(Err(error), all_visits(&prepared, true), admission, prepared.overlays@)
                ||| exists|overlays: Vec<(SourceLocation, String)>|
                    #[trigger] interpolated(prepared, interpolation, overlays@) && admitted(
                        Err(error),
                        all_visits(&prepared, true),
                        admission,
                        overlays@,
                    )
                ||| interpolation matches Some((max_output_bytes, substitute)) && interpolation_failure(
                    substitute,
                    all_visits(&prepared, true),
                    max_output_bytes,
                    error,
                )
                ||| exists|overlays: Vec<(SourceLocation, String)>|
                    #[trigger] interpolated(prepared, interpolation, overlays@) && blank_rejection(
                        with_overlays(prepared, overlays),
                        policy,
                        error,
                    )
            },
        },
{
    let ghost start = prepared;
    let exact = prepared.sources.is_exact();
    match admit_input(&prepared, &prepared.overlays, admission) {
        Ok(()) => {},
        Err(error) => return Err(error),
    }
    let mut prepared = prepared;
    match interpolation {
        Some((max_output_bytes, substitute)) => {
            proof {
                lemma_read_strings_located(&prepared);
            }
            let overlays = match interpolate(&prepared, max_output_bytes, substitute) {
                Ok(overlays) => overlays,
                Err(error) => return Err(error),
            };
            match admit_input(&prepared, &overlays, admission) {
                Ok(()) => {},
                Err(error) => {
                    assert(interpolated(start, interpolation, overlays@));
                    return Err(error);
                },
            }
            prepared.overlays = overlays;
        },
        None => {},
    }
    let ghost staged = prepared;
    assert(staged == with_overlays(start, staged.overlays));
    assert(interpolated(start, interpolation, staged.overlays@));
    match classify_missing(&mut prepared, policy, exact) {
        Ok(()) => Ok(prepared),
        Err(error) => {
            assert(blank_rejection(with_overlays(start, staged.overlays), policy, error));
            Err(error)
        },
    }
}

} // verus!
