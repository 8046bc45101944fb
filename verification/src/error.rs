//! Errors of structured configuration reads.

use vstd::prelude::*;

verus! {

/// A bounded resource of a structured read.
#[derive(Debug, Clone, Copy, PartialEq, Eq, Structural)]
pub enum Resource {
    /// Nodes of the structured input.
    StructuredNodes,
    /// Nesting depth of the structured input.
    StructuredDepth,
    /// UTF-8 bytes of one object key.
    StructuredKeyBytes,
    /// UTF-8 bytes of all input.
    InputBytes,
    /// UTF-8 bytes of all structured payload.
    StructuredPayloadBytes,
    /// Entries of one map.
    MapEntries,
    /// Items of one sequence.
    SequenceItems,
    /// UTF-8 bytes of one scalar's text.
    StructuredTextBytes,
}

/// A resource bound that a read would exceed.
#[derive(Debug, Clone, Copy, PartialEq, Eq, Structural)]
pub enum LimitError {
    /// A single measurement is above its maximum.
    Exceeded {
        /// The bounded resource.
        resource: Resource,
        /// The measured amount.
        observed: u64,
        /// The largest accepted amount.
        maximum: u64,
    },
    /// A cumulative budget has less left than requested.
    Insufficient {
        /// The bounded resource.
        resource: Resource,
        /// The budget's total.
        limit: u64,
        /// What was left before the request.
        remaining: u64,
        /// The requested amount.
        requested: u64,
    },
}

/// Errors reported by structured reads.
#[derive(Debug)]
pub enum ConfigError {
    /// One path would hold two incompatible values.
    KeyConflict {
        /// Root-relative path of the conflict.
        path: String,
        /// Kind of the value already at the path.
        existing: String,
        /// Kind of the value being added at the path.
        incoming: String,
    },
    /// The input exceeds a resource bound.
    Limit {
        /// Path being indexed when the bound was reached.
        path: String,
        /// The exceeded bound.
        error: LimitError,
    },
    /// A string leaf is blank and the string policy rejects blank strings.
    BlankString {
        /// Name of the property holding the string.
        path: String,
    },
    /// An unchanged string leaf is longer than interpolation output may be.
    SubstitutionOutputTooLarge {
        /// Path of the string leaf.
        path: String,
        /// Largest accepted output, in UTF-8 bytes.
        max_output_bytes: usize,
    },
    /// The selected input exceeds a resource bound when it is admitted.
    InputLimit {
        /// Path of the value being admitted.
        path: String,
        /// Index of the outermost source item that holds the value, if any.
        source_index: Option<usize>,
        /// The exceeded bound.
        error: LimitError,
    },
    /// A floating-point number of the selected input is not finite.
    NonFiniteNumber {
        /// Path of the number.
        path: String,
        /// Index of the outermost source item that holds the number, if any.
        source_index: Option<usize>,
    },
    /// Fields of the input that the target did not consume.
    UnknownProperties {
        /// Sorted, distinct absolute paths of the unconsumed fields.
        paths: Vec<String>,
    },
}

/// `error` is a key conflict with exactly these texts.
pub open spec fn is_conflict(error: ConfigError, path: Seq<char>, existing: Seq<char>, incoming: Seq<char>) -> bool {
    match error {
        ConfigError::KeyConflict { path: p, existing: e, incoming: i } => p@ == path && e@ == existing && i@
            == incoming,
        _ => false,
    }
}

/// `error` is a limit error at `path` with exactly this bound.
pub open spec fn is_limit(error: ConfigError, path: Seq<char>, limit: LimitError) -> bool {
    match error {
        ConfigError::Limit { path: p, error: e } => p@ == path && e == limit,
        _ => false,
    }
}

/// A key conflict at `path` between an existing and an incoming kind.
pub fn conflict(path: &str, existing: &str, incoming: &str) -> (error: ConfigError)
    ensures
        is_conflict(error, path@, existing@, incoming@),
{
    ConfigError::KeyConflict { path: path.to_owned(), existing: existing.to_owned(), incoming: incoming.to_owned() }
}

} // verus!
