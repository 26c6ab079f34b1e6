//! A codec for an S-expression text format.
//!
//! The value model is the [`Sexp`] tree: nil, atoms (symbols, keywords,
//! strings), numbers, booleans, lists and improper lists.  The decoder turns
//! text into a tree, the encoder turns a tree back into text through a
//! pluggable layout strategy (compact or indented).
//!
//! Two conventions are fixed deliberately.  The literal `#nil` decodes to
//! the nil value, the null equivalent of the format.  Both layouts write
//! arrays and keyed aggregates with the same parenthesis delimiter pair, so
//! that every output re-reads under the one grammar.
//!
//! Floating values are kept in exact decimal form, as a sign, a
//! significand and a power-of-ten exponent; converting them to and from
//! machine floating point is left to the callers around the library.

#![allow(unused_imports)]

use vstd::prelude::*;

pub mod atom;
pub mod bind;
pub mod de;
pub mod error;
pub mod number;
pub mod ser;
pub mod laws;
pub mod sexp;
pub mod text;

pub use crate::atom::Atom;
pub use crate::bind::{alist_entries, alist_get, entry_of, enum_variant};
pub use crate::de::{from_slice, from_str, Deserializer, StreamDeserializer};
pub use crate::error::{Category, Error, ErrorCode};
pub use crate::number::{number_from_decimal, Number};
pub use crate::ser::{
    to_vec, to_vec_alist, to_vec_pretty, CharEscape, CompactFormatter, Formatter, PrettyFormatter,
    Serializer,
};
pub use crate::sexp::Sexp;
