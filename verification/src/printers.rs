//! The two printers that the writer borrows: `itoa` for integers and
//! `serde_json` for string literals. Their contracts are taken on trust.

use vstd::prelude::*;
use crate::grammar::{decimal, quoted};

verus! {

/// `serde_json::Error`: carried from the printer of string literals to
/// its caller, and never looked into.
#[verifier::external_type_specification]
#[verifier::external_body]
pub struct ExJsonError(serde_json::Error);

/// `itoa::Buffer::format` on an `i64`. Trusted: the string that it
/// returns is the integer in decimal, a minus sign first where it is
/// negative, without leading zeros.
#[verifier::external_body]
pub(crate) fn print_i64(n: i64) -> (r: String)
    ensures
        r@ == decimal(n as int),
{
    itoa::Buffer::new().format(n).to_owned()
}

/// `itoa::Buffer::format` on a `u64`. Trusted: the string that it
/// returns is the integer in decimal, without leading zeros.
#[verifier::external_body]
pub(crate) fn print_u64(n: u64) -> (r: String)
    ensures
        r@ == decimal(n as int),
{
    itoa::Buffer::new().format(n).to_owned()
}

/// `serde_json::to_string` on a JSON string. Trusted: it succeeds, and
/// what it returns is the string between two quotes, with the quote,
/// the backslash and the characters below U+0020 escaped as
/// [`crate::grammar::escape`] says and every other character unchanged.
///
/// `serde_json` names two causes of failure: a value that refuses to be
/// serialised, and a map whose keys are no strings. A string is written
/// by one call of `serialize_str` into a vector in memory, so neither
/// can come about.
#[verifier::external_body]
pub(crate) fn print_string(s: &String) -> (r: Result<String, serde_json::Error>)
    ensures
        r is Ok,
        r->Ok_0@ == quoted(s@),
{
    serde_json::to_string(&serde_json::Value::String(s.clone()))
}

} // verus!
