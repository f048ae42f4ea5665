//! A verified codec for the bencode serialization format: byte strings,
//! signed 64-bit integers, ordered lists, and dictionaries with byte-string
//! keys kept in ascending byte order.

pub mod decoder;
pub mod decoding_helpers;
pub mod encoder;
pub mod laws;
pub mod value;

pub use decoder::DecodeError;
pub use decoding_helpers::HelperDecodeError;
pub use decoder::ParseContext;
pub use decoder::decode;
pub use decoder::read;
pub use encoder::encode;
pub use value::BValue;
pub use value::Dict;
pub use value::Value;
