//! The ways in which parsing a label can fail.

use vstd::prelude::*;

verus! {

/// Error returned when a textual label cannot be turned into an address.
#[derive(Debug, Clone, Copy, PartialEq, Eq, Structural)]
pub enum ParseError {
    /// The text does not match the required shape: one or more letters,
    /// then (for a full cell address) one or more digits, nothing else.
    InvalidFormat,
    /// The decoded numeric value does not fit in an unsigned 32-bit integer.
    Overflow,
}

} // verus!
