//! Split granularity selection.

use vstd::prelude::*;

use crate::error::EngineError;
use vstd::string::StrSliceExecFns;

verus! {

/// Unit to split text into.
///
/// `A` is the finest granularity, `B` a medium one, and `C` the coarsest:
/// `C` keeps each dictionary entry on the least-cost path as one unit, while
/// `A` and `B` replace an entry by its precomputed finer decomposition where
/// the dictionary records one.
#[derive(Clone, Copy, Debug, PartialEq, Eq, Structural)]
pub enum Mode {
    /// Short units.
    A,
    /// Middle units (similar to a "word").
    B,
    /// Named-entity-like units: no rewriting.
    C,
}

/// The mode denoted by a string: exactly the single letters "A", "B", "C",
/// in either case, denote a mode; everything else is an invalid-mode error.
pub open spec fn spec_mode_of(cs: Seq<char>) -> Result<Mode, EngineError> {
    if cs.len() == 1 {
        if cs[0] == 'A' || cs[0] == 'a' {
            Ok(Mode::A)
        } else if cs[0] == 'B' || cs[0] == 'b' {
            Ok(Mode::B)
        } else if cs[0] == 'C' || cs[0] == 'c' {
            Ok(Mode::C)
        } else {
            Err(EngineError::InvalidMode)
        }
    } else {
        Err(EngineError::InvalidMode)
    }
}

impl Mode {
    /// Parse a mode from its single-letter, case-insensitive spelling.
    ///
    /// Exactly the strings "A", "a", "B", "b", "C", and "c" are accepted;
    /// everything else is reported as [`EngineError::InvalidMode`].
    pub fn from_str(s: &str) -> (r: Result<Mode, EngineError>)
        ensures
            r == spec_mode_of(s@),
    {
        if s.unicode_len() != 1 {
            return Err(EngineError::InvalidMode);
        }
        let c = s.get_char(0);
        if c == 'A' || c == 'a' {
            Ok(Mode::A)
        } else if c == 'B' || c == 'b' {
            Ok(Mode::B)
        } else if c == 'C' || c == 'c' {
            Ok(Mode::C)
        } else {
            Err(EngineError::InvalidMode)
        }
    }
}

} // verus!
