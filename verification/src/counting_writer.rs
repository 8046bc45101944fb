//! A writer that renders nothing and charges the UTF-8 bytes of what is
//! written to a budget.

use vstd::prelude::*;

use crate::error::LimitError;
use crate::error::Resource;

verus! {

/// Counts written text against a budget and keeps the refusal that stopped
/// it.
#[derive(Debug)]
pub struct CountingWriter {
    /// The bounded resource.
    pub resource: Resource,
    /// The budget's total.
    pub limit: u64,
    /// What is left of the budget.
    pub remaining: u64,
    /// The refusal that stopped writing, if any.
    pub error: Option<LimitError>,
}

impl CountingWriter {
    /// A writer with its whole budget left.
    pub fn new(resource: Resource, limit: u64) -> (writer: Self)
        ensures
            writer.resource == resource,
            writer.limit == limit,
            writer.remaining == limit,
            writer.error is None,
    {
        CountingWriter { resource, limit, remaining: limit, error: None }
    }

    /// Charges `bytes` bytes. An amount that does not fit leaves the budget
    /// as it is and records the refusal, which is also returned.
    pub fn charge(&mut self, bytes: u64) -> (result: Result<(), LimitError>)
        ensures
            final(self).resource == old(self).resource,
            final(self).limit == old(self).limit,
            bytes <= old(self).remaining ==> {
                &&& result is Ok
                &&& final(self).remaining == old(self).remaining - bytes
                &&& final(self).error == old(self).error
            },
            bytes > old(self).remaining ==> {
                let refusal = LimitError::Insufficient {
                    resource: old(self).resource,
                    limit: old(self).limit,
                    remaining: old(self).remaining,
                    requested: bytes,
                };
                &&& result == Err::<(), LimitError>(refusal)
                &&& final(self).remaining == old(self).remaining
                &&& final(self).error == Some(refusal)
            },
    {
        if bytes > self.remaining {
            let refusal = LimitError::Insufficient {
                resource: self.resource,
                limit: self.limit,
                remaining: self.remaining,
                requested: bytes,
            };
            self.error = Some(refusal);
            return Err(refusal);
        }
        self.remaining = self.remaining - bytes;
        Ok(())
    }

    /// Charges the UTF-8 bytes of `text`. A text that does not fit leaves
    /// the budget as it is and records the refusal, which is also returned.
    pub fn write_str(&mut self, text: &str) -> (result: Result<(), LimitError>)
        ensures
            final(self).resource == old(self).resource,
            final(self).limit == old(self).limit,
            text.len() <= old(self).remaining ==> {
                &&& result is Ok
                &&& final(self).remaining == old(self).remaining - text.len()
                &&& final(self).error == old(self).error
            },
            text.len() > old(self).remaining ==> {
                let refusal = LimitError::Insufficient {
                    resource: old(self).resource,
                    limit: old(self).limit,
                    remaining: old(self).remaining,
                    requested: text.len() as u64,
                };
                &&& result == Err::<(), LimitError>(refusal)
                &&& final(self).remaining == old(self).remaining
                &&& final(self).error == Some(refusal)
            },
    {
        self.charge(text.len() as u64)
    }
}

} // verus!
