//! A JSON tokenizer and recursive-descent parser with machine-checked contracts.
//!
//! Text is first cut into [`Token`]s by the [`lexer`], and the token sequence is
//! turned into a [`JsonValue`] tree by the [`parser`]. What both compute is
//! stated in [`grammar`] and [`syntax`] over sequences of characters and tokens.
//! [`laws`] and [`round_trip`] hold what is proved of the two grammars: that
//! parsed objects have unique keys, how deep a document may be nested, and that
//! a written value parses as itself.

use vstd::prelude::*;
use vstd::string::StrSliceExecFns;

pub mod token;
pub mod chars;
pub mod grammar;
pub mod lexer;
pub mod value;
pub mod error;
pub mod number;
pub mod syntax;
pub mod parser;
pub mod laws;
pub mod round_trip;
pub mod writer;
pub mod number_writer;

pub use error::{JsonError, JsonErrorView};
pub use lexer::{tokenize, Lexer};
pub use parser::{Parser, DEFAULT_MAX_DEPTH};
pub use token::{LexError, LexErrorKind, Token, TokenView};
pub use value::{Array, JsonModel, JsonValue, Number, Object, TypeMismatch, ValueKind};

verus! {

/// The error `e` of parsing the tokens of `s`, with the index of an unexpected
/// token replaced by the byte offset at which that token starts.
pub open spec fn located(e: JsonErrorView, s: Seq<char>) -> JsonErrorView {
    match e {
        JsonErrorView::UnexpectedToken { found, pos } => JsonErrorView::UnexpectedToken {
            found,
            pos: lexer::byte_offset(s, grammar::starts_from(s, 0)[pos as int]),
        },
        other => other,
    }
}

/// The document that the text `s` holds, under the nesting limit `limit`: its
/// tokens must form exactly one value.
pub open spec fn parse_text(s: Seq<char>, limit: usize) -> Result<JsonModel, JsonErrorView> {
    match lexer::lex(s) {
        Err(e) => Err(JsonErrorView::Lex(e)),
        Ok(ts) => match syntax::parse_tokens(ts, limit) {
            Ok(v) => Ok(v),
            Err(e) => Err(located(e, s)),
        },
    }
}

/// Parses `input` as one JSON document, nested less deep than `max_depth`.
pub fn parse_with_max_depth(input: &str, max_depth: usize) -> (r: Result<JsonValue, JsonError>)
    ensures
        parser::agrees_document(r, parse_text(input@, max_depth)),
        r is Ok ==> r->Ok_0@.well_formed() && r->Ok_0@.fits(syntax::budget_of(max_depth)),
{
    let chars = chars::chars_of(input);
    match lexer::lex_chars(&chars) {
        Err((kind, i)) => {
            let prefix = input.substring_char(0, i);
            Err(JsonError::Lex(LexError { kind, pos: prefix.len() }))
        },
        Ok(tokens) => match Parser::with_max_depth(tokens, max_depth).parse() {
            Ok(v) => Ok(v),
            Err(JsonError::UnexpectedToken { found, pos }) => {
                proof {
                    grammar::lemma_starts_match_tokens(input@, 0);
                }
                let starts = lexer::token_starts(&chars);
                assert(lexer::as_ints(starts@)[pos as int] == starts@[pos as int]);
                let prefix = input.substring_char(0, starts[pos]);
                Err(JsonError::UnexpectedToken { found, pos: prefix.len() })
            },
            Err(e) => Err(e),
        },
    }
}

/// Parses `input` as one JSON document, nested less deep than
/// [`DEFAULT_MAX_DEPTH`].
pub fn parse(input: &str) -> (r: Result<JsonValue, JsonError>)
    ensures
        parser::agrees_document(r, parse_text(input@, DEFAULT_MAX_DEPTH)),
        r is Ok ==> r->Ok_0@.well_formed() && r->Ok_0@.fits(syntax::budget_of(DEFAULT_MAX_DEPTH)),
{
    parse_with_max_depth(input, DEFAULT_MAX_DEPTH)
}

} // verus!
