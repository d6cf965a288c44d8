//! An in-memory key/value store speaking the RESP wire protocol.
//!
//! The crate has three parts: the frame type system with its incremental
//! encode/decode engine (`resp`), the typed command model with its dispatch
//! (`cmd`), and the concurrent backend store (`backend`).

pub mod resp;
pub mod backend;
pub mod cmd;

pub use resp::array::RespArray;
pub use resp::bulk_string::BulkString;
pub use resp::double::RespDouble;
pub use resp::frame::{RespError, RespFrame};
pub use resp::map::RespMap;
pub use resp::null::{RespNull, RespNullArray, RespNullBulkString};
pub use resp::set::RespSet;
pub use resp::simple_error::SimpleError;
pub use resp::simple_string::SimpleString;
pub use backend::Backend;

