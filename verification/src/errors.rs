//! The distinct error reports of the engine's structural edges.

use vstd::prelude::*;

verus! {

/// Structural misuse reported to the caller instead of failing.
#[derive(Clone, Copy, Debug, PartialEq, Eq, Structural)]
pub enum WordleError {
    /// A word whose length differs from the configured word length.
    InvalidWordLength,
    /// A board row or cell index outside the fixed bounds.
    IndexOutOfRange,
    /// A constraint row offered as a filter while some cell still lacks feedback.
    DisabledRow,
}

} // verus!
