//! The ways in which the tokenizer refuses an input.
use vstd::prelude::*;

verus! {

/// Why an operation of the tokenizer failed.
#[derive(Clone, Copy, Debug, PartialEq, Eq, Structural)]
pub enum TokenizerError {
    /// A vocabulary size of zero, at construction or as a training target.
    InvalidConfiguration,
    /// Decoding led to something that is not valid text.
    InvalidEncoding,
    /// A stored vocabulary or configuration could not be taken over.
    PersistenceFailure,
}

} // verus!
