//! Verified core of structured configuration reads: per-read options,
//! diagnostic paths, source locations and the prepared path index.

pub mod unknown_field_policy;
pub mod config_deserialize_options;

pub use config_deserialize_options::ConfigDeserializeOptions;
pub use unknown_field_policy::UnknownFieldPolicy;
pub mod text;
pub mod path;
pub mod source_segment;
pub mod source_location;
pub mod value;
pub mod read_node;
pub mod error;
pub mod source_index;
pub mod index_capacity;
pub mod arena;
pub mod prepared_read;
pub mod read_view;
pub mod sequence_values;
pub mod string_policy;
pub mod interpolation_overlay;
pub mod visit;
pub mod traversal;
pub mod read_context;
pub mod map_entries;
pub mod source_deserializer;
pub mod unknown_properties;
pub mod counting_writer;
pub mod admission;
pub mod selection;
