//! Streaming decoder for a row-oriented binary exchange format that arrives
//! in arbitrarily split byte chunks.

pub mod fixed_string;
pub mod pending;
pub mod scratch;
pub mod decode;
pub mod cursor;
