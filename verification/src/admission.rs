//! Admission of a whole prepared read against the read's resource bounds,
//! before any of it is handed to a target: every value is admitted, the
//! fields a target will ignore among them.
//!
//! The values are taken in traversal order. Each one is charged a node at
//! its depth, has its item or entry count bounded, and charges the UTF-8
//! bytes of its key and of its text (a string's interpolated text where it
//! has one, a number's decimal rendering, another scalar's natural text)
//! against the input and structured payload budgets.

use vstd::prelude::*;

use crate::arena::arena_wf;
use crate::counting_writer::CountingWriter;
use crate::error::ConfigError;
use crate::error::LimitError;
use crate::error::Resource;
use crate::interpolation_overlay::utf8_len;
use crate::prepared_read::PreparedConfigRead;
use crate::read_view::view_string;
use crate::read_view::ReadView;
use crate::source_location::overlay_at;
use crate::source_location::overlay_text;
use crate::source_location::segments_view;
use crate::source_location::SourceLocation;
use crate::traversal::all_visits;
use crate::traversal::walk;
use crate::text::chars_of;
use crate::text::compare_chars;
use crate::text::TextOrder;
use crate::value::JsonNumber;
use crate::value::JsonValue;
use crate::value::ScalarValue;
use crate::visit::LocationView;
use crate::visit::Visit;
use crate::visit::VisitView;

verus! {

/// The bounds that admission enforces.
#[derive(Debug, Clone, Copy, PartialEq, Eq, Structural)]
pub struct AdmissionLimits {
    /// Largest nesting depth, if bounded.
    pub max_depth: Option<u64>,
    /// Largest number of values.
    pub max_nodes: u64,
    /// Largest total UTF-8 input size.
    pub max_input_bytes: u64,
    /// Largest total UTF-8 structured payload size.
    pub max_payload_bytes: u64,
    /// Largest UTF-8 size of one scalar's text.
    pub max_text_bytes: u64,
    /// Largest number of items in one sequence.
    pub max_sequence_items: u64,
    /// Largest number of entries in one map.
    pub max_map_entries: u64,
}

/// What is left of the cumulative budgets.
#[derive(Debug, Clone, Copy, PartialEq, Eq, Structural)]
pub struct Remaining {
    /// Values that may still be admitted.
    pub nodes: u64,
    /// Input bytes still available.
    pub input_bytes: u64,
    /// Structured payload bytes still available.
    pub payload_bytes: u64,
}

/// The budgets of a read whose admission has not started.
pub open spec fn fresh(limits: AdmissionLimits) -> Remaining {
    Remaining { nodes: limits.max_nodes, input_bytes: limits.max_input_bytes, payload_bytes: limits.max_payload_bytes }
}

/// Number of decimal digits of a natural number.
pub open spec fn decimal_digits(n: nat) -> nat
    decreases n,
{
    if n < 10 {
        1
    } else {
        1 + decimal_digits(n / 10)
    }
}

/// Length of the decimal rendering of an integer, its sign included.
pub open spec fn signed_digits(n: int) -> nat {
    if n < 0 {
        1 + decimal_digits((-n) as nat)
    } else {
        decimal_digits(n as nat)
    }
}

/// UTF-8 bytes of the natural text of a scalar that is not a string:
/// integers in decimal, floating-point and other scalars by their text.
/// Booleans, unset and missing values and containers have none.
pub open spec fn rendered_bytes(view: ReadView) -> Option<nat> {
    match view {
        ReadView::Scalar(ScalarValue::Signed(_, n)) => Some(signed_digits(*n as int)),
        ReadView::Scalar(ScalarValue::Unsigned(_, n)) => Some(decimal_digits(*n as nat)),
        ReadView::Scalar(ScalarValue::Float32(text)) => Some(utf8_len(text@) as nat),
        ReadView::Scalar(ScalarValue::Float64(text)) => Some(utf8_len(text@) as nat),
        ReadView::Scalar(ScalarValue::Other(text)) => Some(utf8_len(text@) as nat),
        ReadView::Json(JsonValue::Number(JsonNumber::PosInt(n))) => Some(decimal_digits(*n as nat)),
        ReadView::Json(JsonValue::Number(JsonNumber::NegInt(n))) => Some(signed_digits(*n as int)),
        ReadView::Json(JsonValue::Number(JsonNumber::Float(text))) => Some(utf8_len(text@) as nat),
        _ => None,
    }
}

/// Replacement text stored for a location given by value.
pub open spec fn overlay_for(overlays: Seq<(SourceLocation, String)>, location: LocationView) -> Option<Seq<char>>
    decreases overlays.len(),
{
    if overlays.len() == 0 {
        None
    } else if overlays[0].0.property_index == location.0 && segments_view(overlays[0].0.segments@)
        == segments_view(location.1) {
        Some(overlays[0].1@)
    } else {
        overlay_for(overlays.drop_first(), location)
    }
}

proof fn lemma_overlay_for(overlays: Seq<(SourceLocation, String)>, location: SourceLocation)
    ensures
        overlay_for(overlays, (location.property_index, location.segments@)) == overlay_at(overlays, location),
    decreases overlays.len(),
{
    if overlays.len() > 0 {
        lemma_overlay_for(overlays.drop_first(), location);
    }
}

/// UTF-8 bytes of the text a visit charges: a string leaf's replacement if
/// its location has one, else its own text; another scalar's rendering.
pub open spec fn text_bytes(visit: VisitView, overlays: Seq<(SourceLocation, String)>) -> Option<nat> {
    match view_string(visit.value) {
        Some(text) => Some(
            utf8_len(
                match visit.location {
                    Some(location) => match overlay_for(overlays, location) {
                        Some(replacement) => replacement,
                        None => text,
                    },
                    None => text,
                },
            ) as nat,
        ),
        None => rendered_bytes(visit.value),
    }
}

/// UTF-8 bytes of a visit's key, if it has one.
pub open spec fn key_bytes(visit: VisitView) -> nat {
    match visit.key {
        Some(key) => utf8_len(key) as nat,
        None => 0,
    }
}

/// Bytes a visit takes from the input and payload budgets.
pub open spec fn charged_bytes(visit: VisitView, overlays: Seq<(SourceLocation, String)>) -> nat {
    key_bytes(visit) + match text_bytes(visit, overlays) {
        Some(bytes) => bytes,
        None => 0,
    }
}

/// Why a sequence of `count` items is refused, if it is.
pub open spec fn items_refusal(limits: AdmissionLimits, count: nat) -> Option<LimitError> {
    if count > limits.max_sequence_items {
        Some(
            LimitError::Exceeded {
                resource: Resource::SequenceItems,
                observed: count as u64,
                maximum: limits.max_sequence_items,
            },
        )
    } else {
        None
    }
}

/// Why a map of `count` entries is refused, if it is.
pub open spec fn entries_refusal(limits: AdmissionLimits, count: nat) -> Option<LimitError> {
    if count > limits.max_map_entries {
        Some(
            LimitError::Exceeded { resource: Resource::MapEntries, observed: count as u64, maximum: limits.max_map_entries },
        )
    } else {
        None
    }
}

/// Why a value's item or entry count is refused, if it is.
pub open spec fn shape_refusal(limits: AdmissionLimits, view: ReadView) -> Option<LimitError> {
    match view {
        ReadView::Collection(items) => items_refusal(limits, items@.len()),
        ReadView::Json(JsonValue::Array(items)) => items_refusal(limits, items@.len()),
        ReadView::Object(children) => entries_refusal(limits, children@.len()),
        ReadView::Json(JsonValue::Object(entries)) => entries_refusal(limits, entries@.len()),
        ReadView::StringMap(entries) => entries_refusal(limits, entries@.len()),
        _ => None,
    }
}

/// Why a visit is refused by a bound with `budget` left, if it is: its
/// depth, the node budget, its item or entry count, its key against the
/// input and payload budgets, then its text against the text bound and what
/// the key left of those budgets.
pub open spec fn limit_refusal(
    limits: AdmissionLimits,
    budget: Remaining,
    visit: VisitView,
    overlays: Seq<(SourceLocation, String)>,
) -> Option<LimitError> {
    let key = key_bytes(visit);
    match limits.max_depth {
        Some(maximum) if visit.depth > maximum => Some(
            LimitError::Exceeded { resource: Resource::StructuredDepth, observed: visit.depth as u64, maximum },
        ),
        _ => if budget.nodes == 0 {
            Some(
                LimitError::Insufficient {
                    resource: Resource::StructuredNodes,
                    limit: limits.max_nodes,
                    remaining: 0,
                    requested: 1,
                },
            )
        } else if shape_refusal(limits, visit.value) is Some {
            shape_refusal(limits, visit.value)
        } else if key > budget.input_bytes {
            Some(
                LimitError::Insufficient {
                    resource: Resource::InputBytes,
                    limit: limits.max_input_bytes,
                    remaining: budget.input_bytes,
                    requested: key as u64,
                },
            )
        } else if key > budget.payload_bytes {
            Some(
                LimitError::Insufficient {
                    resource: Resource::StructuredPayloadBytes,
                    limit: limits.max_payload_bytes,
                    remaining: budget.payload_bytes,
                    requested: key as u64,
                },
            )
        } else {
            match text_bytes(visit, overlays) {
                Some(text) => if text > limits.max_text_bytes {
                    Some(
                        LimitError::Exceeded {
                            resource: Resource::StructuredTextBytes,
                            observed: text as u64,
                            maximum: limits.max_text_bytes,
                        },
                    )
                } else if text > budget.input_bytes - key {
                    Some(
                        LimitError::Insufficient {
                            resource: Resource::InputBytes,
                            limit: limits.max_input_bytes,
                            remaining: (budget.input_bytes - key) as u64,
                            requested: text as u64,
                        },
                    )
                } else if text > budget.payload_bytes - key {
                    Some(
                        LimitError::Insufficient {
                            resource: Resource::StructuredPayloadBytes,
                            limit: limits.max_payload_bytes,
                            remaining: (budget.payload_bytes - key) as u64,
                            requested: text as u64,
                        },
                    )
                } else {
                    None
                },
                None => None,
            }
        },
    }
}

/// Why admission refuses a value.
#[derive(Debug, Clone, Copy, PartialEq, Eq, Structural)]
pub enum AdmissionRefusal {
    /// A floating-point number that is not finite.
    NonFinite,
    /// A resource bound.
    Limit(LimitError),
}

/// A floating-point scalar whose text is not a finite number.
pub open spec fn non_finite(view: ReadView) -> bool {
    match view {
        ReadView::Scalar(ScalarValue::Float32(text)) => non_finite_text(text@),
        ReadView::Scalar(ScalarValue::Float64(text)) => non_finite_text(text@),
        _ => false,
    }
}

/// The texts of the numbers that are not finite.
pub open spec fn non_finite_text(text: Seq<char>) -> bool {
    text == "NaN"@ || text == "inf"@ || text == "-inf"@
}

/// Why a visit is refused with `budget` left, if it is: a number that is not
/// finite, else the first bound it exceeds.
pub open spec fn visit_refusal(
    limits: AdmissionLimits,
    budget: Remaining,
    visit: VisitView,
    overlays: Seq<(SourceLocation, String)>,
) -> Option<AdmissionRefusal> {
    if non_finite(visit.value) {
        Some(AdmissionRefusal::NonFinite)
    } else {
        match limit_refusal(limits, budget, visit, overlays) {
            Some(refusal) => Some(AdmissionRefusal::Limit(refusal)),
            None => None,
        }
    }
}

/// The budgets after a visit is admitted.
pub open spec fn after_visit(budget: Remaining, visit: VisitView, overlays: Seq<(SourceLocation, String)>) -> Remaining {
    Remaining {
        nodes: (budget.nodes - 1) as u64,
        input_bytes: (budget.input_bytes - charged_bytes(visit, overlays)) as u64,
        payload_bytes: (budget.payload_bytes - charged_bytes(visit, overlays)) as u64,
    }
}

/// The first of `visits` that admission refuses from `budget` on, with why.
pub open spec fn admission_refusal(
    limits: AdmissionLimits,
    budget: Remaining,
    visits: Seq<VisitView>,
    overlays: Seq<(SourceLocation, String)>,
) -> Option<(int, AdmissionRefusal)>
    decreases visits.len(),
{
    if visits.len() == 0 {
        None
    } else {
        match visit_refusal(limits, budget, visits[0], overlays) {
            Some(refusal) => Some((0, refusal)),
            None => shifted(
                admission_refusal(limits, after_visit(budget, visits[0], overlays), visits.drop_first(), overlays),
                1,
            ),
        }
    }
}

/// A refusal's position moved `by` places later.
pub open spec fn shifted(refusal: Option<(int, AdmissionRefusal)>, by: int) -> Option<(int, AdmissionRefusal)> {
    match refusal {
        Some((i, error)) => Some((i + by, error)),
        None => None,
    }
}

/// A refused visit is one of the visits.
pub proof fn lemma_refusal_within(
    limits: AdmissionLimits,
    budget: Remaining,
    visits: Seq<VisitView>,
    overlays: Seq<(SourceLocation, String)>,
)
    ensures
        admission_refusal(limits, budget, visits, overlays) matches Some((i, _)) ==> 0 <= i < visits.len(),
    decreases visits.len(),
{
    if visits.len() > 0 {
        lemma_refusal_within(limits, after_visit(budget, visits[0], overlays), visits.drop_first(), overlays);
    }
}

/// `result` is what admitting `visits` under `limits` gives: the error of
/// the first refused visit at its path and source index, else success.
pub open spec fn admitted(
    result: Result<(), ConfigError>,
    visits: Seq<VisitView>,
    limits: AdmissionLimits,
    overlays: Seq<(SourceLocation, String)>,
) -> bool {
    match admission_refusal(limits, fresh(limits), visits, overlays) {
        Some((i, refusal)) => {
            &&& 0 <= i < visits.len()
            &&& match refusal {
                AdmissionRefusal::Limit(limit) => result matches Err(ConfigError::InputLimit { path, source_index, error })
                    && path@ == visits[i].path && source_index == visits[i].original_index && error == limit,
                AdmissionRefusal::NonFinite => result matches Err(ConfigError::NonFiniteNumber { path, source_index })
                    && path@ == visits[i].path && source_index == visits[i].original_index,
            }
        },
        None => result is Ok,
    }
}

/// Whether a number's text is that of a number that is not finite.
fn is_non_finite_text(text: &str) -> (found: bool)
    ensures
        found == non_finite_text(text@),
{
    let chars = chars_of(text);
    proof {
        reveal_strlit("NaN");
        reveal_strlit("inf");
        reveal_strlit("-inf");
    }
    let nan = chars_of("NaN");
    let inf = chars_of("inf");
    let negative = chars_of("-inf");
    let same_nan = match compare_chars(&chars, &nan) {
        TextOrder::Same => true,
        _ => false,
    };
    let same_inf = match compare_chars(&chars, &inf) {
        TextOrder::Same => true,
        _ => false,
    };
    let same_negative = match compare_chars(&chars, &negative) {
        TextOrder::Same => true,
        _ => false,
    };
    same_nan || same_inf || same_negative
}

/// Counts the decimal digits of a number.
fn decimal_len(n: u64) -> (digits: u64)
    ensures
        digits == decimal_digits(n as nat),
        n >= 1 ==> digits <= n,
{
    let mut rest: u64 = n;
    let mut digits: u64 = 1;
    while rest >= 10
        invariant
            decimal_digits(n as nat) == digits - 1 + decimal_digits(rest as nat),
            digits as int + rest as int <= n as int + 1,
            n >= 1 ==> rest >= 1,
            digits >= 1,
        decreases rest,
    {
        rest = rest / 10;
        digits = digits + 1;
    }
    digits
}

/// Length of the decimal rendering of a signed number.
fn signed_len(n: i64) -> (digits: u64)
    ensures
        digits == signed_digits(n as int),
{
    if n < 0 {
        let magnitude: u64 = ((-(n + 1)) as u64) + 1;
        assert(magnitude == -(n as int));
        1 + decimal_len(magnitude)
    } else {
        decimal_len(n as u64)
    }
}

/// UTF-8 bytes of a scalar's rendering, as `rendered_bytes` gives them.
fn rendered_len(view: ReadView) -> (bytes: Option<u64>)
    ensures
        match bytes {
            Some(b) => rendered_bytes(view) == Some(b as nat),
            None => rendered_bytes(view) is None,
        },
{
    match view {
        ReadView::Scalar(ScalarValue::Signed(_, n)) => Some(signed_len(*n)),
        ReadView::Scalar(ScalarValue::Unsigned(_, n)) => Some(decimal_len(*n)),
        ReadView::Scalar(ScalarValue::Float32(text)) => Some(text.as_str().len() as u64),
        ReadView::Scalar(ScalarValue::Float64(text)) => Some(text.as_str().len() as u64),
        ReadView::Scalar(ScalarValue::Other(text)) => Some(text.as_str().len() as u64),
        ReadView::Json(JsonValue::Number(JsonNumber::PosInt(n))) => Some(decimal_len(*n)),
        ReadView::Json(JsonValue::Number(JsonNumber::NegInt(n))) => Some(signed_len(*n)),
        ReadView::Json(JsonValue::Number(JsonNumber::Float(text))) => Some(text.as_str().len() as u64),
        _ => None,
    }
}

/// UTF-8 bytes of the text a visit charges, as `text_bytes` gives them.
fn visit_text_len(visit: &Visit, overlays: &Vec<(SourceLocation, String)>) -> (bytes: Option<u64>)
    ensures
        match bytes {
            Some(b) => text_bytes(visit@, overlays@) == Some(b as nat),
            None => text_bytes(visit@, overlays@) is None,
        },
{
    match visit.value.string() {
        Some(text) => {
            let charged: &str = match &visit.location {
                Some(location) => {
                    proof {
                        lemma_overlay_for(overlays@, *location);
                    }
                    match overlay_text(overlays, location) {
                        Some(replacement) => replacement.as_str(),
                        None => text,
                    }
                },
                None => text,
            };
            Some(charged.len() as u64)
        },
        None => rendered_len(visit.value),
    }
}

/// Why a value's item or entry count is refused, as `shape_refusal` says.
fn check_shape(limits: AdmissionLimits, view: ReadView) -> (refusal: Option<LimitError>)
    ensures
        refusal == shape_refusal(limits, view),
{
    let (count, sequence): (usize, bool) = match view {
        ReadView::Collection(items) => (items.len(), true),
        ReadView::Json(JsonValue::Array(items)) => (items.len(), true),
        ReadView::Object(children) => (children.len(), false),
        ReadView::Json(JsonValue::Object(entries)) => (entries.len(), false),
        ReadView::StringMap(entries) => (entries.len(), false),
        _ => return None,
    };
    let observed = count as u64;
    if sequence {
        if observed > limits.max_sequence_items {
            return Some(
                LimitError::Exceeded {
                    resource: Resource::SequenceItems,
                    observed,
                    maximum: limits.max_sequence_items,
                },
            );
        }
    } else if observed > limits.max_map_entries {
        return Some(LimitError::Exceeded { resource: Resource::MapEntries, observed, maximum: limits.max_map_entries });
    }
    None
}

/// The budgets of one admission: nodes counted here, bytes by two counting
/// writers.
pub struct AdmissionBudget {
    /// The bounds admission started from.
    pub limits: AdmissionLimits,
    /// Values that may still be admitted.
    pub nodes: u64,
    /// The input byte budget.
    pub input: CountingWriter,
    /// The structured payload byte budget.
    pub payload: CountingWriter,
}

impl AdmissionBudget {
    /// The writers count the bounds' byte budgets.
    pub open spec fn wf(&self) -> bool {
        &&& self.input.resource == Resource::InputBytes
        &&& self.input.limit == self.limits.max_input_bytes
        &&& self.payload.resource == Resource::StructuredPayloadBytes
        &&& self.payload.limit == self.limits.max_payload_bytes
    }

    /// What is left of the budgets.
    pub open spec fn remaining(&self) -> Remaining {
        Remaining { nodes: self.nodes, input_bytes: self.input.remaining, payload_bytes: self.payload.remaining }
    }

    /// Budgets with nothing spent.
    pub fn new(limits: AdmissionLimits) -> (budget: Self)
        ensures
            budget.wf(),
            budget.limits == limits,
            budget.remaining() == fresh(limits),
    {
        AdmissionBudget {
            limits,
            nodes: limits.max_nodes,
            input: CountingWriter::new(Resource::InputBytes, limits.max_input_bytes),
            payload: CountingWriter::new(Resource::StructuredPayloadBytes, limits.max_payload_bytes),
        }
    }

    /// Admits one visit: refuses it as `visit_refusal` says, else charges it.
    pub fn charge_visit(&mut self, visit: &Visit, overlays: &Vec<(SourceLocation, String)>) -> (result: Result<(), AdmissionRefusal>)
        requires
            old(self).wf(),
        ensures
            final(self).wf(),
            final(self).limits == old(self).limits,
            match visit_refusal(old(self).limits, old(self).remaining(), visit@, overlays@) {
                Some(refusal) => result == Err::<(), AdmissionRefusal>(refusal),
                None => result is Ok && final(self).remaining() == after_visit(old(self).remaining(), visit@, overlays@),
            },
    {
        let finite = match visit.value {
            ReadView::Scalar(ScalarValue::Float32(text)) => !is_non_finite_text(text.as_str()),
            ReadView::Scalar(ScalarValue::Float64(text)) => !is_non_finite_text(text.as_str()),
            _ => true,
        };
        if !finite {
            return Err(AdmissionRefusal::NonFinite);
        }
        match self.charge_limits(visit, overlays) {
            Ok(()) => Ok(()),
            Err(refusal) => Err(AdmissionRefusal::Limit(refusal)),
        }
    }

    /// Charges one visit against the bounds, as `limit_refusal` says.
    fn charge_limits(&mut self, visit: &Visit, overlays: &Vec<(SourceLocation, String)>) -> (result: Result<(), LimitError>)
        requires
            old(self).wf(),
        ensures
            final(self).wf(),
            final(self).limits == old(self).limits,
            match limit_refusal(old(self).limits, old(self).remaining(), visit@, overlays@) {
                Some(refusal) => result == Err::<(), LimitError>(refusal),
                None => result is Ok && final(self).remaining() == after_visit(old(self).remaining(), visit@, overlays@),
            },
    {
        let ghost start = self.remaining();
        let key: u64 = match visit.key {
            Some(key) => key.len() as u64,
            None => 0,
        };
        assert(key == key_bytes(visit@));
        match self.limits.max_depth {
            Some(maximum) => if visit.depth as u64 > maximum {
                return Err(
                    LimitError::Exceeded { resource: Resource::StructuredDepth, observed: visit.depth as u64, maximum },
                );
            },
            None => {},
        }
        if self.nodes == 0 {
            return Err(
                LimitError::Insufficient {
                    resource: Resource::StructuredNodes,
                    limit: self.limits.max_nodes,
                    remaining: 0,
                    requested: 1,
                },
            );
        }
        match check_shape(self.limits, visit.value) {
            Some(refusal) => return Err(refusal),
            None => {},
        }
        match self.input.charge(key) {
            Ok(()) => {},
            Err(refusal) => return Err(refusal),
        }
        match self.payload.charge(key) {
            Ok(()) => {},
            Err(refusal) => return Err(refusal),
        }
        match visit_text_len(visit, overlays) {
            Some(text) => {
                if text > self.limits.max_text_bytes {
                    return Err(
                        LimitError::Exceeded {
                            resource: Resource::StructuredTextBytes,
                            observed: text,
                            maximum: self.limits.max_text_bytes,
                        },
                    );
                }
                match self.input.charge(text) {
                    Ok(()) => {},
                    Err(refusal) => return Err(refusal),
                }
                match self.payload.charge(text) {
                    Ok(()) => {},
                    Err(refusal) => return Err(refusal),
                }
            },
            None => {},
        }
        self.nodes = self.nodes - 1;
        assert(self.remaining() == after_visit(start, visit@, overlays@));
        Ok(())
    }
}

/// Admits every value of a prepared read, in traversal order, with the
/// texts of `overlays` standing for the string leaves they replace. The
/// first refused value gives an `InputLimit` error at its path and source
/// index; nothing of its text is kept in the error.
pub fn admit_input<'a>(
    prepared: &'a PreparedConfigRead<'a>,
    overlays: &Vec<(SourceLocation, String)>,
    limits: AdmissionLimits,
) -> (result: Result<(), ConfigError>)
    requires
        arena_wf(prepared.nodes@),
        prepared.root < prepared.nodes@.len(),
    ensures
        admitted(result, all_visits(prepared, true), limits, overlays@),
{
    let ghost all = all_visits(prepared, true);
    let mut budget = AdmissionBudget::new(limits);
    let mut visits = walk(prepared, true);
    let ghost mut done: int = 0;
    proof {
        lemma_refusal_within(limits, fresh(limits), all, overlays@);
        assert(all.subrange(0, all.len() as int) =~= all);
    }
    loop
        invariant
            visits.wf(),
            visits.prepared() == prepared,
            visits.track() == true,
            budget.wf(),
            budget.limits == limits,
            0 <= done <= all.len(),
            all == all_visits(prepared, true),
            visits.remaining() == all.subrange(done, all.len() as int),
            admission_refusal(limits, fresh(limits), all, overlays@) == shifted(
                admission_refusal(limits, budget.remaining(), visits.remaining(), overlays@),
                done,
            ),
            admission_refusal(limits, fresh(limits), all, overlays@) matches Some((i, _)) ==> 0 <= i < all.len(),
        decreases visits.remaining().len(),
    {
        let ghost rest = visits.remaining();
        let ghost before = budget.remaining();
        match visits.next() {
            None => {
                return Ok(());
            },
            Some(visit) => {
                assert(visit@ == all[done]);
                match budget.charge_visit(&visit, overlays) {
                    Err(AdmissionRefusal::Limit(refusal)) => {
                        return Err(
                            ConfigError::InputLimit { path: visit.path, source_index: visit.original_index, error: refusal },
                        );
                    },
                    Err(AdmissionRefusal::NonFinite) => {
                        return Err(ConfigError::NonFiniteNumber { path: visit.path, source_index: visit.original_index });
                    },
                    Ok(()) => {
                        proof {
                            assert(rest.drop_first() =~= all.subrange(done + 1, all.len() as int));
                            done = done + 1;
                        }
                    },
                }
            },
        }
    }
}

} // verus!
