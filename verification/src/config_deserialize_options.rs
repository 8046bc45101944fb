//! Per-read choices for structured configuration deserialization.

use vstd::prelude::*;

use crate::unknown_field_policy::UnknownFieldPolicy;

verus! {

/// Controls interpolation and unconsumed fields for one structured read.
///
/// Conversion policies and resource limits belong to the reader's policy.
#[derive(Debug, Clone, Copy, PartialEq, Eq, Structural)]
pub struct ConfigDeserializeOptions {
    /// Whether to interpolate actual String leaves before target conversion.
    pub interpolate: bool,
    /// Whether fields not consumed by the target cause an error.
    pub unknown_fields: UnknownFieldPolicy,
}

impl Default for ConfigDeserializeOptions {
    /// No interpolation, and unknown fields are rejected.
    fn default() -> (options: Self)
        ensures
            !options.interpolate,
            options.unknown_fields == UnknownFieldPolicy::Reject,
    {
        ConfigDeserializeOptions { interpolate: false, unknown_fields: UnknownFieldPolicy::default() }
    }
}

impl ConfigDeserializeOptions {
    /// Whether this read reports fields that the target did not consume.
    pub fn rejects_unknown_fields(&self) -> (reject: bool)
        ensures
            reject == (self.unknown_fields == UnknownFieldPolicy::Reject),
    {
        match self.unknown_fields {
            UnknownFieldPolicy::Reject => true,
            UnknownFieldPolicy::Ignore => false,
        }
    }
}

} // verus!
