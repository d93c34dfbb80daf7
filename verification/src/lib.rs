//! A codec for the Redis serialization protocol: a typed value, its exact
//! wire bytes, and a decoder that takes one value off the front of a buffer.

pub mod decimal;
pub mod decode;
pub mod encode;
pub mod laws;
pub mod line;
pub mod text;
pub mod value;
pub mod wire;

pub use value::{ParseError, RespType};
