//! Bencode: a strict decoder and a canonical encoder.

pub mod decode;
pub mod encode;
pub mod error;
pub mod fields;
pub mod grammar;
pub mod laws;
pub mod refusals;
pub mod tree;
pub mod value;

pub use decode::{
    decode, decode_prefix, decode_with, dict_value_span, skip_value, skip_value_with,
    DecodeOptions, DEFAULT_MAX_DEPTH, DEFAULT_MAX_NODES,
};
pub use encode::{encode, encode_into};
pub use error::{DecodeError, DecodeErrorKind};
pub use value::{Dict, Value};
