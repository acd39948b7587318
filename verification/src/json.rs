//! The JSON data interchange.

use vstd::prelude::*;
use crate::convert::canonicalize;
use crate::error::CanonError;
use crate::raw::RawValue;

verus! {

/// JSON data interchange.
#[derive(Debug, Clone, Copy, PartialEq, Eq)]
pub struct Json;

impl Json {
    /// The extension of the files that hold data in this interchange.
    pub fn extension() -> (r: &'static str)
        ensures
            r@ == "json"@,
    {
        "json"
    }

    /// The canonical encoding of a value: its canonical form, written
    /// without whitespace.
    pub fn canonicalize(raw_data: &RawValue) -> (r: Result<Vec<u8>, CanonError>)
        ensures
            r is Ok <==> raw_data@.rejected() is None,
            r matches Ok(bytes) ==> bytes@ == raw_data@.normal_form().bytes(),
            r matches Err(e) ==> e matches CanonError::UnsupportedNumber(literal) && Some(literal@)
                == raw_data@.rejected(),
    {
        canonicalize(raw_data)
    }
}

} // verus!
