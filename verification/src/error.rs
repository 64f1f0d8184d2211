//! Errors of parsing.

use vstd::prelude::*;
use crate::token::{LexError, Token, TokenView};

verus! {

/// Why a text or a token sequence is no JSON document.
#[derive(Debug, Clone, PartialEq)]
pub enum JsonError {
    /// The text could not be cut into tokens.
    Lex(LexError),
    /// A token that cannot start a value stands where a value is expected.
    /// From a parser over tokens `pos` is the index of the token; from a parse
    /// of text it is the byte offset at which the token starts.
    UnexpectedToken { found: Token, pos: usize },
    /// The tokens ended where a value is expected.
    UnexpectedEof,
    /// No string stands where an object member must start.
    ExpectedKey,
    /// The key of an object member is not followed by a colon.
    ExpectedColon,
    /// An element or member is followed by neither a comma nor the closing
    /// bracket or brace.
    ExpectedCommaOrEnd,
    /// Tokens are left after the document.
    TrailingContent,
    /// Arrays and objects are nested deeper than the limit allows.
    NestingTooDeep,
    /// A number literal does not fit in a [`crate::value::Number`].
    NumberOutOfRange,
    /// A number token does not hold a number literal.
    InvalidLiteral,
}

/// The mathematical value of a [`JsonError`].
pub ghost enum JsonErrorView {
    Lex(LexError),
    UnexpectedToken { found: TokenView, pos: usize },
    UnexpectedEof,
    ExpectedKey,
    ExpectedColon,
    ExpectedCommaOrEnd,
    TrailingContent,
    NestingTooDeep,
    NumberOutOfRange,
    InvalidLiteral,
}

impl View for JsonError {
    type V = JsonErrorView;

    open spec fn view(&self) -> JsonErrorView {
        match self {
            JsonError::Lex(e) => JsonErrorView::Lex(*e),
            JsonError::UnexpectedToken { found, pos } => JsonErrorView::UnexpectedToken {
                found: found@,
                pos: *pos,
            },
            JsonError::UnexpectedEof => JsonErrorView::UnexpectedEof,
            JsonError::ExpectedKey => JsonErrorView::ExpectedKey,
            JsonError::ExpectedColon => JsonErrorView::ExpectedColon,
            JsonError::ExpectedCommaOrEnd => JsonErrorView::ExpectedCommaOrEnd,
            JsonError::TrailingContent => JsonErrorView::TrailingContent,
            JsonError::NestingTooDeep => JsonErrorView::NestingTooDeep,
            JsonError::NumberOutOfRange => JsonErrorView::NumberOutOfRange,
            JsonError::InvalidLiteral => JsonErrorView::InvalidLiteral,
        }
    }
}

} // verus!
