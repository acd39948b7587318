//! Canonical JSON: a deterministic, whitespace-free byte encoding of JSON
//! values, fit to be hashed and signed.
//!
//! A value is first brought into canonical form ([`convert`]): only
//! integers of 64 bits for numbers, and the entries of every object in
//! the order of their keys. Then it is written ([`Value::write`]) in a
//! grammar that leaves no choice. [`canonicalize`] does both.
//!
//! What the bytes are is said over [`Tree`], the mathematical model of a
//! document; [`laws`] holds what is proved of them for every document.

pub mod convert;
pub mod entries;
pub mod error;
pub mod grammar;
pub mod json;
pub mod laws;
pub mod order;
pub mod printers;
pub mod raw;
pub mod reading;
pub mod tree;
pub mod value;

pub use crate::convert::{canonicalize, convert};
pub use crate::error::CanonError;
pub use crate::json::Json;
pub use crate::raw::{RawNumber, RawValue};
pub use crate::tree::Tree;
pub use crate::value::{Number, Value};
