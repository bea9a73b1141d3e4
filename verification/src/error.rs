//! Error values returned by the fallible operations.
//!
//! Strict construction and mutation either succeed completely or return one
//! of these values without touching the buffer.

use vstd::prelude::*;

verus! {

/// An index or a resulting length exceeds the current length or the
/// capacity ceiling.
#[derive(Clone, Copy, Debug, PartialEq, Eq, Structural)]
pub struct OutOfBounds;

/// A byte index does not fall on a UTF-8 character boundary, or raw bytes
/// fail UTF-8 decoding during construction.
#[derive(Clone, Copy, Debug, PartialEq, Eq, Structural)]
pub struct Utf8;

/// A UTF-16 code-unit sequence contains an invalid or unpaired surrogate.
#[derive(Clone, Copy, Debug, PartialEq, Eq, Structural)]
pub struct Utf16;

/// Union of the three failure kinds, for operations that can hit more than
/// one of them.
#[derive(Clone, Copy, Debug, PartialEq, Eq, Structural)]
pub enum Error {
    OutOfBounds,
    Utf8,
    Utf16,
}

} // verus!
