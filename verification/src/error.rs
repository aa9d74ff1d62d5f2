//! The ways in which an operation of this crate can fail.

use vstd::prelude::*;

verus! {

/// Why an operation gave up.
#[derive(Debug, Clone, Copy, PartialEq, Eq, Structural)]
pub enum StreamError {
    /// The input ended before the bytes that were asked for.
    UnexpectedEof,
    /// A payload length that 63 bits cannot express.
    HeaderTooLarge,
}

} // verus!
