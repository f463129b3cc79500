//! Error type shared by dictionary loading and tokenization.

use vstd::prelude::*;

verus! {

/// Everything that can go wrong while loading a dictionary or tokenizing.
#[derive(Clone, Copy, Debug, PartialEq, Eq, Structural)]
pub enum EngineError {
    /// The dictionary byte buffer is truncated, malformed, or internally
    /// inconsistent (for example, a connection id that the cost table does
    /// not cover, or a split list that does not reassemble its word).
    /// Raised at load time; no partial engine is ever returned.
    DictionaryFormat,
    /// A lexicon or connection-cost query failed during lattice
    /// construction. The loader validates every cross reference, so a
    /// tokenizer built by it never raises this; the variant remains for
    /// callers that construct the component structures themselves.
    Lookup,
    /// No path from the beginning of the input to its end exists in the
    /// lattice: the dictionary cannot segment this input.
    Path,
    /// A resolved path node carried no dictionary word id where one was
    /// required. This would indicate an internal invariant violation; the
    /// verified engine proves it is never raised.
    MissingWordId,
    /// The requested split mode was not one of "A", "B", or "C" (in either
    /// case). Recoverable: the caller may retry with a corrected mode.
    InvalidMode,
    /// The dictionary file could not be read. Only the I/O glue around the
    /// library raises this; nothing in the library itself touches a file.
    Io,
}

impl EngineError {
    /// The description that [`EngineError::message`] returns for each
    /// variant.
    pub open spec fn spec_message(self) -> Seq<char> {
        match self {
            EngineError::DictionaryFormat => "dictionary buffer is malformed or truncated"@,
            EngineError::Lookup => "dictionary lookup failed during lattice construction"@,
            EngineError::Path => "no path through the lattice covers the input"@,
            EngineError::MissingWordId => "a path node is missing its dictionary word id"@,
            EngineError::InvalidMode => "mode must be one of \"A\", \"B\", or \"C\" (in lower or upper case)"@,
            EngineError::Io => "the dictionary file could not be read"@,
        }
    }

    /// A short human-readable description of the error.
    pub fn message(&self) -> (r: &'static str)
        ensures
            r@ == self.spec_message(),
    {
        match self {
            EngineError::DictionaryFormat => "dictionary buffer is malformed or truncated",
            EngineError::Lookup => "dictionary lookup failed during lattice construction",
            EngineError::Path => "no path through the lattice covers the input",
            EngineError::MissingWordId => "a path node is missing its dictionary word id",
            EngineError::InvalidMode => "mode must be one of \"A\", \"B\", or \"C\" (in lower or upper case)",
            EngineError::Io => "the dictionary file could not be read",
        }
    }
}

} // verus!
