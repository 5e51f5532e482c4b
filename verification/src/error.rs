//! Error values for grammar analysis and parsing.

use vstd::prelude::*;

use crate::symbols::Symbol;

verus! {

/// An error found while analyzing a grammar.
#[derive(Clone, Copy, Debug, PartialEq, Eq, Structural)]
pub enum Ll1Error {
    /// The FIRST/FOLLOW disjointness rules reject the grammar.
    FirstFollowValidationError,
    /// Parsing-table construction found a multiply-claimed cell; the cell is
    /// carried for diagnosis.
    ParsingTableError {
        /// The row of the conflicted cell.
        non_terminal: u64,
        /// The column of the conflicted cell.
        lookahead: Symbol,
    },
}

/// The reason a parse failed.
#[derive(Clone, Copy, Debug, PartialEq, Eq, Structural)]
pub enum ParseError {
    /// More parse-time errors arose than the recovery budget allows.
    TooManyErrors,
    /// A mismatch arose and no recovery strategy could realign the parser.
    UnableToRecover,
    /// A symbol that is neither terminal, non-terminal, nor the end marker
    /// stood on the parse stack.
    InvalidStackSymbol,
    /// The loop finished without consuming the input or emptying the stack.
    IncompleteParse,
    /// The parse loop ran out of its step budget — a safeguard, in the
    /// spirit of the recovery budget, against unbounded expansion.
    StepBudgetExhausted,
}

} // verus!
