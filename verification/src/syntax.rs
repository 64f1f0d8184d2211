//! The grammar of JSON documents, stated over sequences of tokens.
//!
//! Positions in this module are indices into the token sequence.

use vstd::prelude::*;
use crate::error::JsonErrorView;
use crate::grammar::with_front;
use crate::number::number_of;
use crate::token::TokenView;
use crate::value::{key_index, JsonModel};

verus! {

/// A member of an object: its key and its value.
pub type Member = (Seq<char>, JsonModel);

/// What a production found and the index after it, or why it failed.
pub type Parsed<T> = Result<(T, int), JsonErrorView>;

/// `ms` with `key` set to `value`: a member with that key is overwritten
/// where it stands, else the new member is put at the end.
pub open spec fn insert_member(ms: Seq<Member>, key: Seq<char>, value: JsonModel) -> Seq<Member> {
    let k = key_index(ms, key, 0);
    if k < ms.len() {
        ms.update(k, (key, value))
    } else {
        ms.push((key, value))
    }
}

/// The members of an object whose text holds the members `raw` in this order:
/// of members with the same key, the last one wins.
pub open spec fn collect_members(raw: Seq<Member>) -> Seq<Member>
    decreases raw.len(),
{
    if raw.len() == 0 {
        Seq::empty()
    } else {
        insert_member(collect_members(raw.drop_last()), raw.last().0, raw.last().1)
    }
}

/// The array that holds the elements found.
pub open spec fn array_of(r: Parsed<Seq<JsonModel>>) -> Parsed<JsonModel> {
    match r {
        Ok((items, j)) => Ok((JsonModel::Array(items), j)),
        Err(e) => Err(e),
    }
}

/// The object that holds the members found, the last of each key.
pub open spec fn object_of(r: Parsed<Seq<Member>>) -> Parsed<JsonModel> {
    match r {
        Ok((raw, j)) => Ok((JsonModel::Object(collect_members(raw)), j)),
        Err(e) => Err(e),
    }
}

/// The value that starts at token `i`, and the index after it.
///
/// `budget` is the number of array and object levels that may still be
/// entered; entering one with no budget left is `NestingTooDeep`.
pub open spec fn parse_value_at(t: Seq<TokenView>, i: int, budget: nat) -> Parsed<JsonModel>
    decreases t.len() - i, 0int,
{
    if !(0 <= i < t.len()) {
        Err(JsonErrorView::UnexpectedEof)
    } else {
        match t[i] {
            TokenView::LeftBrace => {
                if budget == 0 {
                    Err(JsonErrorView::NestingTooDeep)
                } else if i + 1 < t.len() && t[i + 1] == TokenView::RightBrace {
                    Ok((JsonModel::Object(Seq::empty()), i + 2))
                } else {
                    object_of(parse_members_at(t, i + 1, (budget - 1) as nat))
                }
            },
            TokenView::LeftBracket => {
                if budget == 0 {
                    Err(JsonErrorView::NestingTooDeep)
                } else if i + 1 < t.len() && t[i + 1] == TokenView::RightBracket {
                    Ok((JsonModel::Array(Seq::empty()), i + 2))
                } else {
                    array_of(parse_elements_at(t, i + 1, (budget - 1) as nat))
                }
            },
            TokenView::String(s) => Ok((JsonModel::String(s), i + 1)),
            TokenView::Number(text) => match number_of(text) {
                Ok(n) => Ok((JsonModel::Number(n), i + 1)),
                Err(e) => Err(e),
            },
            TokenView::True => Ok((JsonModel::Boolean(true), i + 1)),
            TokenView::False => Ok((JsonModel::Boolean(false), i + 1)),
            TokenView::Null => Ok((JsonModel::Null, i + 1)),
            found => Err(JsonErrorView::UnexpectedToken { found, pos: i as usize }),
        }
    }
}

/// The elements of an array from token `i`, where an element is expected, up
/// to the closing bracket, and the index after that bracket.
///
/// An element must be followed by a comma or the closing bracket; the tokens
/// ending there is `ExpectedCommaOrEnd` too. An element ends after its start
/// (`law_value_advances`), so the test on `j` fails for no other reason; it
/// makes the recursion well founded.
pub open spec fn parse_elements_at(t: Seq<TokenView>, i: int, budget: nat) -> Parsed<Seq<JsonModel>>
    decreases t.len() - i, 1int,
{
    match parse_value_at(t, i, budget) {
        Err(e) => Err(e),
        Ok((v, j)) => {
            if i < j < t.len() {
                match t[j] {
                    TokenView::Comma => with_front(seq![v], parse_elements_at(t, j + 1, budget)),
                    TokenView::RightBracket => Ok((seq![v], j + 1)),
                    _ => Err(JsonErrorView::ExpectedCommaOrEnd),
                }
            } else {
                Err(JsonErrorView::ExpectedCommaOrEnd)
            }
        },
    }
}

/// The members of an object from token `i`, where a key is expected, up to the
/// closing brace, in the order in which they are written, and the index after
/// that brace.
///
/// A member is a string, a colon and a value, followed by a comma or the
/// closing brace. Whatever else stands in the place of one of them, the end of
/// the tokens too, is `ExpectedKey`, `ExpectedColon` or `ExpectedCommaOrEnd`;
/// the tokens ending where the value is expected is `UnexpectedEof`.
pub open spec fn parse_members_at(t: Seq<TokenView>, i: int, budget: nat) -> Parsed<Seq<Member>>
    decreases t.len() - i, 1int,
{
    if !(0 <= i < t.len()) {
        Err(JsonErrorView::ExpectedKey)
    } else {
        match t[i] {
            TokenView::String(key) => {
                if !(i + 1 < t.len() && t[i + 1] == TokenView::Colon) {
                    Err(JsonErrorView::ExpectedColon)
                } else {
                    match parse_value_at(t, i + 2, budget) {
                        Err(e) => Err(e),
                        Ok((v, j)) => {
                            if i < j < t.len() {
                                match t[j] {
                                    TokenView::Comma => with_front(
                                        seq![(key, v)],
                                        parse_members_at(t, j + 1, budget),
                                    ),
                                    TokenView::RightBrace => Ok((seq![(key, v)], j + 1)),
                                    _ => Err(JsonErrorView::ExpectedCommaOrEnd),
                                }
                            } else {
                                Err(JsonErrorView::ExpectedCommaOrEnd)
                            }
                        },
                    }
                }
            },
            _ => Err(JsonErrorView::ExpectedKey),
        }
    }
}

/// The number of levels that may be entered under the nesting limit `limit`:
/// a document parses if it is nested less deep than the limit.
pub open spec fn budget_of(limit: usize) -> nat {
    if limit == 0 {
        0
    } else {
        (limit - 1) as nat
    }
}

/// The document that the tokens `t` form, under the nesting limit `limit`.
/// Tokens after the document are `TrailingContent`.
pub open spec fn parse_tokens(t: Seq<TokenView>, limit: usize) -> Result<JsonModel, JsonErrorView> {
    match parse_value_at(t, 0, budget_of(limit)) {
        Err(e) => Err(e),
        Ok((v, j)) => if j < t.len() {
            Err(JsonErrorView::TrailingContent)
        } else {
            Ok(v)
        },
    }
}

} // verus!
