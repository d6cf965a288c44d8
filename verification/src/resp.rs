//! The RESP frame type system and its incremental encode/decode engine.

pub mod array;
pub mod buf;
pub mod bulk_string;
pub mod decode;
pub mod double;
pub mod frame;
pub mod laws;
pub mod map;
pub mod null;
pub mod num;
pub mod set;
pub mod simple_error;
pub mod simple_string;
pub mod unicode;
pub mod wire;
