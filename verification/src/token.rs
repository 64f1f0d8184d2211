//! Tokens and lexical errors.

use vstd::prelude::*;

verus! {

/// A lexical unit of JSON text. A string literal is one token that holds the
/// decoded text; a number literal holds the characters as they were written.
#[derive(Debug, Clone, PartialEq)]
pub enum Token {
    LeftBrace,
    RightBrace,
    LeftBracket,
    RightBracket,
    String(String),
    Number(String),
    Colon,
    Comma,
    True,
    False,
    Null,
}

/// The mathematical value of a [`Token`]: text is a sequence of characters.
pub ghost enum TokenView {
    LeftBrace,
    RightBrace,
    LeftBracket,
    RightBracket,
    String(Seq<char>),
    Number(Seq<char>),
    Colon,
    Comma,
    True,
    False,
    Null,
}

impl View for Token {
    type V = TokenView;

    open spec fn view(&self) -> TokenView {
        match self {
            Token::LeftBrace => TokenView::LeftBrace,
            Token::RightBrace => TokenView::RightBrace,
            Token::LeftBracket => TokenView::LeftBracket,
            Token::RightBracket => TokenView::RightBracket,
            Token::String(s) => TokenView::String(s@),
            Token::Number(s) => TokenView::Number(s@),
            Token::Colon => TokenView::Colon,
            Token::Comma => TokenView::Comma,
            Token::True => TokenView::True,
            Token::False => TokenView::False,
            Token::Null => TokenView::Null,
        }
    }
}

impl Token {
    /// An independent copy of this token.
    pub fn duplicate(&self) -> (r: Token)
        ensures
            r@ == self@,
    {
        match self {
            Token::LeftBrace => Token::LeftBrace,
            Token::RightBrace => Token::RightBrace,
            Token::LeftBracket => Token::LeftBracket,
            Token::RightBracket => Token::RightBracket,
            Token::String(s) => Token::String(s.clone()),
            Token::Number(s) => Token::Number(s.clone()),
            Token::Colon => Token::Colon,
            Token::Comma => Token::Comma,
            Token::True => Token::True,
            Token::False => Token::False,
            Token::Null => Token::Null,
        }
    }
}

/// The views of a sequence of tokens, in order.
pub open spec fn token_views(ts: Seq<Token>) -> Seq<TokenView> {
    ts.map_values(|t: Token| t@)
}

/// What went wrong while cutting text into tokens.
#[derive(Debug, Clone, Copy, PartialEq, Eq, Structural)]
pub enum LexErrorKind {
    /// A character that starts no token.
    UnexpectedCharacter,
    /// The input ended inside a string literal.
    UnterminatedString,
    /// A backslash in a string literal is not followed by a valid escape.
    InvalidEscape,
    /// A run of number characters does not have the shape of a number.
    InvalidNumberLiteral,
    /// A word starts like `true`, `false` or `null` but is none of them.
    InvalidKeyword,
}

/// A lexical error together with the byte offset in the input at which the
/// offending token, escape or character starts.
#[derive(Debug, Clone, Copy, PartialEq, Eq, Structural)]
pub struct LexError {
    pub kind: LexErrorKind,
    pub pos: usize,
}

} // verus!
