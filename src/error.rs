use vstd::prelude::*;

verus! {

/// Everything that can go wrong while reading, parsing or dispatching input.
#[derive(Debug, Clone, Copy, PartialEq, Eq, Structural)]
pub enum BrigadierError {
    EOF,
    ExpectedSymbol(char),
    ExpectedInt,
    ExpectedLong,
    ExpectedDouble,
    ExpectedFloat,
    ExpectedBool,
    ExpectedUnquotedString,
    ExpectedStartOfQuote,
    ExpectedEndOfQuote,
    InvalidInt,
    InvalidLong,
    InvalidDouble,
    InvalidFloat,
    InvalidEscape(char),
    InvalidBool,
    IntegerTooLow { result: i32, min: i32 },
    IntegerTooHigh { result: i32, max: i32 },
    LongTooLow { result: i64, min: i64 },
    LongTooHigh { result: i64, max: i64 },
    /// No child matched the next token, and no argument child was tried.
    UnknownCommand,
    /// Input ended at a node that carries no command.
    IncompleteCommand,
    /// An argument ended without a separator before the next token.
    ExpectedArgumentSeparator,
    /// A node with neither children nor redirect was reached with input left over.
    TrailingData,
}

} // verus!
