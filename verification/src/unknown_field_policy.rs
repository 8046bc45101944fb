//! Behavior for fields that a structured target does not consume.

use vstd::prelude::*;

verus! {

/// Controls how structured reads handle unknown fields.
#[derive(Debug, Clone, Copy, PartialEq, Eq, Structural)]
pub enum UnknownFieldPolicy {
    /// Reject unknown fields with sorted root-relative paths.
    Reject,
    /// Ignore unconsumed fields after their complete input admission.
    Ignore,
}

impl Default for UnknownFieldPolicy {
    /// Unknown fields are rejected unless a caller opts out.
    fn default() -> (policy: Self)
        ensures
            policy == UnknownFieldPolicy::Reject,
    {
        UnknownFieldPolicy::Reject
    }
}

} // verus!
