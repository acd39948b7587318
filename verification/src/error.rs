//! Why a value could not be brought into canonical form.

use vstd::prelude::*;

verus! {

/// The ways in which canonicalisation fails.
#[derive(Debug, PartialEq, Eq)]
pub enum CanonError {
    /// A number that is no integer of 64 bits, signed or unsigned; the
    /// field holds its literal.
    UnsupportedNumber(String),
    /// A string could not be written as a JSON string literal. The
    /// writer hands this on from the printer of string literals, which
    /// reports it for no string.
    EncodingFailure,
}

} // verus!
