//! Stream multiplexing over a single message transport: the wire codec,
//! the stream-id bookkeeping of the multiplexer and the per-stream state
//! machines, each with its contract.
mod buffer;
pub mod message;
pub mod varint;
pub mod codec;
pub mod error;
pub mod session;
pub mod multiplexer;
pub mod stream;

pub use buffer::{bytes_contents, buf_contents};
