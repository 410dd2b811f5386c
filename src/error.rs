//! Errors of lookups and of parsing.

use vstd::prelude::*;
use crate::parser::ParserError;

verus! {

/// What can go wrong when reading a document or looking something up in it.
#[derive(Clone, Debug)]
pub enum IonError {
    /// No section has the name.
    MissingSection(String),
    /// The section has no value under the key.
    MissingValue(String),
    ParseError,
    /// Reading stopped on a scan failure; the positional errors recorded.
    ParserErrors(Vec<ParserError>),
}

} // verus!
