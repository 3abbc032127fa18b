//! Internationalized domain names: the Punycode codec of RFC 3492 and
//! Unicode IDNA Compatibility Processing (UTS #46), with machine-checked
//! contracts.
//!
//! - `punycode` is the codec, with the proof of its round trip.
//! - `table` is the character mapping table: a value that the caller makes
//!   of its parts, which `MappingTable::new` checks.
//! - `uts46` is the processing of a domain and the two conversions on top of
//!   it, `Config::to_ascii` and `Config::to_unicode`.
//! - `bidi` is the bidi rule for the labels of a domain.
//! - `unicode` is the Unicode character database as far as the processing
//!   consults it.
//! - `text` holds the work on strings and labels that the others share.
//! - `encoding` is the override of the encoding of a query string.

pub mod bidi;
pub mod encoding;
pub mod punycode;
pub mod table;
pub mod text;
pub mod unicode;
pub mod uts46;

pub use crate::table::{Mapping, MappingTable, Range, StringTableSlice};
pub use crate::uts46::{Config, Errors};
