//! Resource bounds used while constructing the prepared path index.
//!
//! The index charges one node per arena entry (with its depth checked), the
//! UTF-8 bytes of every key it copies against the input and structured
//! payload budgets (and the per-key limit), and bounds the entries of every
//! object it grows.

use vstd::prelude::*;

use crate::error::ConfigError;
use crate::error::LimitError;
use crate::error::Resource;

verus! {

/// The bounds of one read that apply while indexing.
#[derive(Debug, Clone, Copy, PartialEq, Eq, Structural)]
pub struct IndexLimits {
    /// Largest number of structured nodes.
    pub max_nodes: u64,
    /// Largest nesting depth, if bounded.
    pub max_depth: Option<u64>,
    /// Largest UTF-8 size of one key, if bounded.
    pub max_key_bytes: Option<u64>,
    /// Largest total UTF-8 input size.
    pub max_input_bytes: u64,
    /// Largest total UTF-8 structured payload size.
    pub max_structured_payload_bytes: u64,
    /// Largest number of entries in one map.
    pub max_map_entries: u64,
}

/// What remains of the bounds while one index is built.
#[derive(Debug)]
pub struct IndexCapacity {
    /// The bounds the capacity started from.
    pub limits: IndexLimits,
    /// Nodes that may still be indexed.
    pub remaining_nodes: u64,
    /// Input bytes that keys may still use.
    pub remaining_input_bytes: u64,
    /// Structured payload bytes that keys may still use.
    pub remaining_payload_bytes: u64,
}

/// Why indexing one more node at `depth` is refused, if it is.
pub open spec fn node_refusal(capacity: IndexCapacity, depth: nat) -> Option<LimitError> {
    match capacity.limits.max_depth {
        Some(maximum) if depth > maximum => Some(
            LimitError::Exceeded { resource: Resource::StructuredDepth, observed: depth as u64, maximum },
        ),
        _ => if capacity.remaining_nodes == 0 {
            Some(
                LimitError::Insufficient {
                    resource: Resource::StructuredNodes,
                    limit: capacity.limits.max_nodes,
                    remaining: 0,
                    requested: 1,
                },
            )
        } else {
            None
        },
    }
}

/// Why copying a key of `bytes` bytes is refused, if it is.
pub open spec fn key_refusal(capacity: IndexCapacity, bytes: nat) -> Option<LimitError> {
    if bytes > capacity.remaining_input_bytes {
        Some(
            LimitError::Insufficient {
                resource: Resource::InputBytes,
                limit: capacity.limits.max_input_bytes,
                remaining: capacity.remaining_input_bytes,
                requested: bytes as u64,
            },
        )
    } else if bytes > capacity.remaining_payload_bytes {
        Some(
            LimitError::Insufficient {
                resource: Resource::StructuredPayloadBytes,
                limit: capacity.limits.max_structured_payload_bytes,
                remaining: capacity.remaining_payload_bytes,
                requested: bytes as u64,
            },
        )
    } else {
        match capacity.limits.max_key_bytes {
            Some(maximum) if bytes > maximum => Some(
                LimitError::Exceeded { resource: Resource::StructuredKeyBytes, observed: bytes as u64, maximum },
            ),
            _ => None,
        }
    }
}

/// Why an object of `count` entries is refused, if it is.
pub open spec fn entries_refusal(limits: IndexLimits, count: nat) -> Option<LimitError> {
    if count > limits.max_map_entries {
        Some(
            LimitError::Exceeded {
                resource: Resource::MapEntries,
                observed: count as u64,
                maximum: limits.max_map_entries,
            },
        )
    } else {
        None
    }
}

/// The capacity after charging a key of `bytes` bytes that fits.
pub open spec fn after_key(capacity: IndexCapacity, bytes: nat) -> IndexCapacity {
    IndexCapacity {
        limits: capacity.limits,
        remaining_nodes: capacity.remaining_nodes,
        remaining_input_bytes: (capacity.remaining_input_bytes - bytes) as u64,
        remaining_payload_bytes: (capacity.remaining_payload_bytes - bytes) as u64,
    }
}

/// The capacity after charging one node that fits.
pub open spec fn after_node(capacity: IndexCapacity) -> IndexCapacity {
    IndexCapacity {
        limits: capacity.limits,
        remaining_nodes: (capacity.remaining_nodes - 1) as u64,
        remaining_input_bytes: capacity.remaining_input_bytes,
        remaining_payload_bytes: capacity.remaining_payload_bytes,
    }
}

/// Why indexing entries with keys of these sizes, each a key and then a
/// node at `depth`, is refused, if it is: the first charge that does not fit.
pub open spec fn entry_charges_refusal(capacity: IndexCapacity, keys: Seq<nat>, depth: nat) -> Option<LimitError>
    decreases keys.len(),
{
    if keys.len() == 0 {
        None
    } else {
        match key_refusal(capacity, keys[0]) {
            Some(refusal) => Some(refusal),
            None => {
                let keyed = after_key(capacity, keys[0]);
                match node_refusal(keyed, depth) {
                    Some(refusal) => Some(refusal),
                    None => entry_charges_refusal(after_node(keyed), keys.drop_first(), depth),
                }
            },
        }
    }
}

/// Result of a check at `path` that is refused for `refusal`, if any.
pub open spec fn checked(result: Result<(), ConfigError>, path: Seq<char>, refusal: Option<LimitError>) -> bool {
    match refusal {
        None => result is Ok,
        Some(limit) => result matches Err(error) && crate::error::is_limit(error, path, limit),
    }
}

impl IndexCapacity {
    /// A capacity with every budget at its limit.
    pub fn new(limits: IndexLimits) -> (capacity: Self)
        ensures
            capacity.limits == limits,
            capacity.remaining_nodes == limits.max_nodes,
            capacity.remaining_input_bytes == limits.max_input_bytes,
            capacity.remaining_payload_bytes == limits.max_structured_payload_bytes,
    {
        IndexCapacity {
            limits,
            remaining_nodes: limits.max_nodes,
            remaining_input_bytes: limits.max_input_bytes,
            remaining_payload_bytes: limits.max_structured_payload_bytes,
        }
    }

    /// Charges one node at `depth`.
    pub fn admit_node(&mut self, depth: usize, path: &str) -> (result: Result<(), ConfigError>)
        ensures
            checked(result, path@, node_refusal(*old(self), depth as nat)),
            final(self).limits == old(self).limits,
            final(self).remaining_input_bytes == old(self).remaining_input_bytes,
            final(self).remaining_payload_bytes == old(self).remaining_payload_bytes,
            final(self).remaining_nodes == if result is Ok {
                (old(self).remaining_nodes - 1) as u64
            } else {
                old(self).remaining_nodes
            },
    {
        let observed = depth as u64;
        match self.limits.max_depth {
            Some(maximum) => if observed > maximum {
                let error = LimitError::Exceeded { resource: Resource::StructuredDepth, observed, maximum };
                return Err(ConfigError::Limit { path: path.to_owned(), error });
            },
            None => {},
        }
        if self.remaining_nodes == 0 {
            let error = LimitError::Insufficient {
                resource: Resource::StructuredNodes,
                limit: self.limits.max_nodes,
                remaining: 0,
                requested: 1,
            };
            return Err(ConfigError::Limit { path: path.to_owned(), error });
        }
        self.remaining_nodes = self.remaining_nodes - 1;
        Ok(())
    }

    /// Charges the UTF-8 bytes of one copied key. Budgets charged before a
    /// refusal stay charged.
    pub fn key(&mut self, bytes: usize, path: &str) -> (result: Result<(), ConfigError>)
        ensures
            checked(result, path@, key_refusal(*old(self), bytes as nat)),
            final(self).limits == old(self).limits,
            final(self).remaining_nodes == old(self).remaining_nodes,
            bytes <= old(self).remaining_input_bytes ==> final(self).remaining_input_bytes == (
            old(self).remaining_input_bytes - bytes) as u64,
            bytes > old(self).remaining_input_bytes ==> final(self).remaining_input_bytes
                == old(self).remaining_input_bytes,
            bytes <= old(self).remaining_input_bytes && bytes <= old(self).remaining_payload_bytes
                ==> final(self).remaining_payload_bytes == (old(self).remaining_payload_bytes - bytes) as u64,
            !(bytes <= old(self).remaining_input_bytes && bytes <= old(self).remaining_payload_bytes)
                ==> final(self).remaining_payload_bytes == old(self).remaining_payload_bytes,
    {
        let requested = bytes as u64;
        if requested > self.remaining_input_bytes {
            let error = LimitError::Insufficient {
                resource: Resource::InputBytes,
                limit: self.limits.max_input_bytes,
                remaining: self.remaining_input_bytes,
                requested,
            };
            return Err(ConfigError::Limit { path: path.to_owned(), error });
        }
        self.remaining_input_bytes = self.remaining_input_bytes - requested;
        if requested > self.remaining_payload_bytes {
            let error = LimitError::Insufficient {
                resource: Resource::StructuredPayloadBytes,
                limit: self.limits.max_structured_payload_bytes,
                remaining: self.remaining_payload_bytes,
                requested,
            };
            return Err(ConfigError::Limit { path: path.to_owned(), error });
        }
        self.remaining_payload_bytes = self.remaining_payload_bytes - requested;
        match self.limits.max_key_bytes {
            Some(maximum) => if requested > maximum {
                let error = LimitError::Exceeded { resource: Resource::StructuredKeyBytes, observed: requested, maximum };
                return Err(ConfigError::Limit { path: path.to_owned(), error });
            },
            None => {},
        }
        Ok(())
    }

    /// Bounds the entries of one object.
    pub fn entries(&self, count: usize, path: &str) -> (result: Result<(), ConfigError>)
        ensures
            checked(result, path@, entries_refusal(self.limits, count as nat)),
    {
        let observed = count as u64;
        if observed > self.limits.max_map_entries {
            let error = LimitError::Exceeded {
                resource: Resource::MapEntries,
                observed,
                maximum: self.limits.max_map_entries,
            };
            return Err(ConfigError::Limit { path: path.to_owned(), error });
        }
        Ok(())
    }
}

} // verus!
