//! Why a document could not be read.
use vstd::prelude::*;

verus! {

/// The ways in which reading a document fails.
#[derive(Clone, Debug, PartialEq, Eq)]
pub enum Error {
    /// A character that no item of the format starts with.
    UnexpectedToken,
    /// The text ends inside a pair or a block.
    UnexpectedEndOfInput,
    /// Text follows the closing brace of the top level.
    TrailingInput,
    /// A field or block that the typed entity needs is absent.
    MissingField(String),
    /// A field is present but its text is malformed.
    FieldParseError(String),
}

} // verus!
