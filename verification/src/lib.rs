//! A fixed-capacity string type backed by a byte buffer of compile-time
//! size and a one-byte length counter.
//!
//! The live bytes always form valid UTF-8, the length never exceeds the
//! capacity (the buffer size clipped to 255), and every operation either
//! succeeds completely or reports an error without touching the buffer.

pub mod arraystring;
pub mod codec;
pub mod drain;
pub mod error;
pub mod implementations;
pub mod laws;
pub mod utf16;

pub use arraystring::ArrayString;
pub use drain::Drain;
pub use error::{Error, OutOfBounds, Utf16, Utf8};
