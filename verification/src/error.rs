use vstd::prelude::*;

verus! {

/// Every way a parse can fail, one variant per distinguishable grammar
/// violation. Variants that blame a specific byte carry that byte.
#[derive(Debug, Clone, Copy, PartialEq, Eq, Structural)]
pub enum Error {
    UnexpectedEof,
    TrailingData,
    InvalidControlCharacter(u8),
    ExpectedDoubleQuote(u8),
    UnexpectedEscape(u8),
    InvalidHexChar(u8),
    InvalidUtf8Char,
    UnexpectedStartOfValue(u8),
    ExpectedNull,
    ExpectedTrue,
    ExpectedFalse,
    InvalidDigit(u8),
    InfiniteFloat,
    ExpectedLeftBracket(u8),
    ExpectedCommaOrRightBracket(u8),
    ExpectedLeftBrace(u8),
    ExpectedColon(u8),
    ExpectedCommaOrRightBrace(u8),
}

} // verus!
