//! Error kinds surfaced by the core.

use vstd::prelude::*;

verus! {

/// A metadata block that is not valid structured data. Surfaced per file;
/// a corpus rebuild records it and continues.
#[derive(PartialEq, Eq, Structural, Clone, Copy, Debug)]
pub struct ParseError;

/// Malformed delimited table text: a ragged row or an unterminated quote.
#[derive(PartialEq, Eq, Structural, Clone, Copy, Debug)]
pub struct TableFormatError;

} // verus!
