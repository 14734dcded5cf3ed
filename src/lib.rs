//! Recursive Length Prefix (RLP) encoding and decoding.

pub mod decode;
pub mod encode;
pub mod laws;
pub mod prefix;
pub mod text;
pub mod types;

pub use decode::decode;
pub use encode::encode;
