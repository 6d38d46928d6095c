//! A zero-copy binary serialization engine.
//!
//! A [`formula::Formula`] describes the binary layout of a value: a
//! fixed-size "stack" footprint laid out field by field, with all
//! variable-length content deferred to a trailing "heap" region and
//! addressed by self-relative (offset, length) reference words.
//! [`serialize::serialize`] writes a [`value::Value`] into a byte buffer
//! according to a formula, and [`deserialize::Deserializer`] reads one
//! back, fully, lazily, or skipping over content, without copying the
//! underlying bytes.

pub mod deserialize;
pub mod formula;
pub mod laws;
pub mod lazy;
pub mod serialize;
pub mod skip;
pub mod utf8;
pub mod value;
pub mod word;

pub use deserialize::DeserializeError;
pub use deserialize::Deserializer;
pub use deserialize::SliceIter;
pub use deserialize::deserialize;
pub use formula::Formula;
pub use formula::formula_fast_sizes;
pub use lazy::Lazy;
pub use serialize::Serializer;
pub use serialize::serialize;
pub use serialize::serialized_size;
pub use serialize::size_hint;
pub use skip::Skip;
pub use value::Val;
pub use value::Value;
pub use word::pow256;
pub use word::valid_width;
pub use word::width_ok;
