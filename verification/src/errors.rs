//! Typed errors for the replacement operations. Absence of a match and
//! stale paths are reported as values, never as panics.

use vstd::prelude::*;

verus! {

/// Why a replacement operation failed.
#[derive(Clone, Copy, PartialEq, Eq, Structural, Debug)]
pub enum ReplaceError {
    /// The input text fails to parse under the grammar.
    ParseError,
    /// No string literal contains the target substring; an expected,
    /// routine outcome.
    NotFound,
    /// A reconstruction path does not address a string-literal node at
    /// the depth where it terminates: a mismatched or stale path.
    PathMismatch,
}

/// Why a reconstruction result was rejected by validation.
#[derive(Clone, Copy, PartialEq, Eq, Structural, Debug)]
pub enum ValidationError {
    /// The old value still occurs in the result.
    OldValuePresent,
    /// The new value does not occur in the result.
    NewValueMissing,
    /// The result no longer parses cleanly.
    SyntaxErrors,
    /// The result's length differs from the expected length by more
    /// than the replaced value's length difference allows.
    LengthMismatch,
}

} // verus!
