//! The recursive-descent parser: from a token sequence to a value tree.
//!
//! One token of lookahead decides every production, and the cursor only moves
//! forward.

use vstd::prelude::*;
use crate::error::{JsonError, JsonErrorView};
use crate::grammar::with_front;
use crate::laws::law_parsed_value_well_formed;
use crate::lexer::lemma_with_front_push;
use crate::number::{number_of, read_number};
use crate::syntax::{
    array_of, budget_of, collect_members, insert_member, object_of, parse_elements_at,
    parse_members_at, parse_tokens, parse_value_at, Member, Parsed,
};
use crate::token::{token_views, Token};
use crate::value::{key_index, members_view, values_view, Array, JsonModel, JsonValue, Object};

verus! {

/// The nesting limit of a parser made by [`Parser::new`].
pub const DEFAULT_MAX_DEPTH: usize = 128;

/// Whether what a production returned is what the grammar says.
pub open spec fn agrees(r: Result<(JsonValue, usize), JsonError>, m: Parsed<JsonModel>) -> bool {
    match m {
        Ok((v, j)) => r is Ok && r->Ok_0.0@ == v && r->Ok_0.1 == j,
        Err(e) => r is Err && r->Err_0@ == e,
    }
}

/// Whether the position of an unexpected token is an index into a sequence of
/// `len` tokens.
pub open spec fn in_range(e: JsonErrorView, len: nat) -> bool {
    e is UnexpectedToken ==> e->pos < len
}

/// Whether a parse returned what the grammar says.
pub open spec fn agrees_document(r: Result<JsonValue, JsonError>, m: Result<JsonModel, JsonErrorView>) -> bool {
    match m {
        Ok(v) => r is Ok && r->Ok_0@ == v,
        Err(e) => r is Err && r->Err_0@ == e,
    }
}

/// Sets `key` to `value` in `entries`: a member with that key is overwritten
/// where it stands, else the new member is put at the end.
pub fn insert_entry(entries: &mut Vec<(String, JsonValue)>, key: String, value: JsonValue)
    ensures
        members_view(final(entries)@) == insert_member(members_view(old(entries)@), key@, value@),
{
    let ghost before = members_view(entries@);
    let n: usize = entries.len();
    let mut k: usize = 0;
    while k < n
        invariant
            k <= n,
            n == entries@.len(),
            before == members_view(entries@),
            before == members_view(old(entries)@),
            key_index(before, key@, 0) == key_index(before, key@, k as int),
        decreases n - k,
    {
        assert(before[k as int].0 == entries@[k as int].0@);
        if entries[k].0 == key {
            entries.set(k, (key, value));
            assert(members_view(entries@) =~= before.update(k as int, (key@, value@)));
            return ;
        }
        k += 1;
    }
    entries.push((key, value));
    assert(members_view(entries@) =~= before.push((key@, value@)));
}

/// A parser over a token sequence, with a limit on how deep arrays and objects
/// may be nested: a document parses if it is nested less deep than `max_depth`.
#[derive(Debug)]
pub struct Parser {
    pub tokens: Vec<Token>,
    pub max_depth: usize,
}

impl Parser {
    /// A parser over `tokens` with the default nesting limit.
    pub fn new(tokens: Vec<Token>) -> (r: Parser)
        ensures
            r.tokens == tokens,
            r.max_depth == DEFAULT_MAX_DEPTH,
    {
        Parser { tokens, max_depth: DEFAULT_MAX_DEPTH }
    }

    /// A parser over `tokens` with the nesting limit `max_depth`.
    pub fn with_max_depth(tokens: Vec<Token>, max_depth: usize) -> (r: Parser)
        ensures
            r.tokens == tokens,
            r.max_depth == max_depth,
    {
        Parser { tokens, max_depth }
    }

    /// The string value of the string token at `i`.
    pub fn parse_string(tokens: &Vec<Token>, i: usize) -> (r: JsonValue)
        requires
            i < tokens@.len(),
            tokens@[i as int]@ is String,
        ensures
            r@ == JsonModel::String(tokens@[i as int]@->String_0),
    {
        match &tokens[i] {
            Token::String(s) => JsonValue::String(s.clone()),
            _ => JsonValue::Null,
        }
    }

    /// The boolean value of the `true` or `false` token at `i`.
    pub fn parse_boolean(tokens: &Vec<Token>, i: usize) -> (r: JsonValue)
        requires
            i < tokens@.len(),
            tokens@[i as int]@ is True || tokens@[i as int]@ is False,
        ensures
            r@ == JsonModel::Boolean(tokens@[i as int]@ is True),
    {
        match &tokens[i] {
            Token::True => JsonValue::Boolean(true),
            _ => JsonValue::Boolean(false),
        }
    }

    /// The number value of the number token at `i`.
    pub fn parse_number(tokens: &Vec<Token>, i: usize) -> (r: Result<JsonValue, JsonError>)
        requires
            i < tokens@.len(),
            tokens@[i as int]@ is Number,
        ensures
            match number_of(tokens@[i as int]@->Number_0) {
                Ok(n) => r is Ok && r->Ok_0@ == JsonModel::Number(n),
                Err(e) => r is Err && r->Err_0@ == e,
            },
    {
        match &tokens[i] {
            Token::Number(text) => match read_number(text.as_str()) {
                Ok(n) => Ok(JsonValue::Number(n)),
                Err(e) => Err(e),
            },
            _ => Err(JsonError::InvalidLiteral),
        }
    }

    /// Parses the array whose opening bracket is token `i`.
    pub fn parse_array(tokens: &Vec<Token>, i: usize, budget: usize) -> (r: Result<
        (JsonValue, usize),
        JsonError,
    >)
        requires
            i < tokens@.len(),
            tokens@[i as int]@ is LeftBracket,
        ensures
            agrees(r, parse_value_at(token_views(tokens@), i as int, budget as nat)),
            r is Ok ==> i < r->Ok_0.1 <= tokens@.len(),
            r is Err ==> in_range(r->Err_0@, tokens@.len()),
        decreases tokens@.len() - i, 0int,
    {
        let ghost t = token_views(tokens@);
        let n: usize = tokens.len();
        if budget == 0 {
            return Err(JsonError::NestingTooDeep);
        }
        if i + 1 < n {
            if let Token::RightBracket = &tokens[i + 1] {
                let empty: Vec<JsonValue> = Vec::new();
                assert(values_view(empty@) =~= Seq::<JsonModel>::empty());
                return Ok((JsonValue::Array(Array(empty)), i + 2));
            }
        }
        let mut items: Vec<JsonValue> = Vec::new();
        let mut k: usize = i + 1;
        assert(values_view(items@) =~= Seq::<JsonModel>::empty());
        assert(forall|r: Parsed<Seq<JsonModel>>|
            r is Ok ==> Seq::<JsonModel>::empty() + r->Ok_0.0 =~= r->Ok_0.0);
        loop
            invariant
                i < k <= n,
                n == tokens@.len(),
                t == token_views(tokens@),
                budget > 0,
                parse_value_at(t, i as int, budget as nat) == array_of(
                    parse_elements_at(t, i + 1, (budget - 1) as nat),
                ),
                parse_elements_at(t, i + 1, (budget - 1) as nat) == with_front(
                    values_view(items@),
                    parse_elements_at(t, k as int, (budget - 1) as nat),
                ),
            decreases n - k,
        {
            match Self::parse_value(tokens, k, budget - 1) {
                Err(e) => {
                    return Err(e);
                },
                Ok((v, j)) => {
                    if j >= n {
                        return Err(JsonError::ExpectedCommaOrEnd);
                    }
                    proof {
                        lemma_with_front_push(
                            values_view(items@),
                            v@,
                            parse_elements_at(t, j + 1, (budget - 1) as nat),
                        );
                        assert(values_view(items@.push(v)) =~= values_view(items@).push(v@));
                        assert(values_view(items@) + seq![v@] =~= values_view(items@).push(v@));
                    }
                    match &tokens[j] {
                        Token::Comma => {
                            items.push(v);
                            k = j + 1;
                        },
                        Token::RightBracket => {
                            items.push(v);
                            return Ok((JsonValue::Array(Array(items)), j + 1));
                        },
                        _ => {
                            return Err(JsonError::ExpectedCommaOrEnd);
                        },
                    }
                },
            }
        }
    }

    /// Parses the object whose opening brace is token `i`.
    pub fn parse_object(tokens: &Vec<Token>, i: usize, budget: usize) -> (r: Result<
        (JsonValue, usize),
        JsonError,
    >)
        requires
            i < tokens@.len(),
            tokens@[i as int]@ is LeftBrace,
        ensures
            agrees(r, parse_value_at(token_views(tokens@), i as int, budget as nat)),
            r is Ok ==> i < r->Ok_0.1 <= tokens@.len(),
            r is Err ==> in_range(r->Err_0@, tokens@.len()),
        decreases tokens@.len() - i, 0int,
    {
        let ghost t = token_views(tokens@);
        let n: usize = tokens.len();
        if budget == 0 {
            return Err(JsonError::NestingTooDeep);
        }
        if i + 1 < n {
            if let Token::RightBrace = &tokens[i + 1] {
                let empty: Vec<(String, JsonValue)> = Vec::new();
                assert(members_view(empty@) =~= Seq::<Member>::empty());
                return Ok((JsonValue::Object(Object(empty)), i + 2));
            }
        }
        let mut entries: Vec<(String, JsonValue)> = Vec::new();
        let ghost mut raw: Seq<Member> = Seq::empty();
        let mut k: usize = i + 1;
        assert(members_view(entries@) =~= Seq::<Member>::empty());
        assert(forall|r: Parsed<Seq<Member>>| r is Ok ==> Seq::<Member>::empty() + r->Ok_0.0 =~= r->Ok_0.0);
        loop
            invariant
                i < k <= n,
                n == tokens@.len(),
                t == token_views(tokens@),
                budget > 0,
                parse_value_at(t, i as int, budget as nat) == object_of(
                    parse_members_at(t, i + 1, (budget - 1) as nat),
                ),
                parse_members_at(t, i + 1, (budget - 1) as nat) == with_front(
                    raw,
                    parse_members_at(t, k as int, (budget - 1) as nat),
                ),
                members_view(entries@) == collect_members(raw),
            decreases n - k,
        {
            if k >= n {
                return Err(JsonError::ExpectedKey);
            }
            let key: String = match &tokens[k] {
                Token::String(s) => s.clone(),
                _ => {
                    return Err(JsonError::ExpectedKey);
                },
            };
            if k + 1 >= n {
                return Err(JsonError::ExpectedColon);
            }
            match &tokens[k + 1] {
                Token::Colon => {},
                _ => {
                    return Err(JsonError::ExpectedColon);
                },
            }
            match Self::parse_value(tokens, k + 2, budget - 1) {
                Err(e) => {
                    return Err(e);
                },
                Ok((v, j)) => {
                    if j >= n {
                        return Err(JsonError::ExpectedCommaOrEnd);
                    }
                    proof {
                        lemma_with_front_push(
                            raw,
                            (key@, v@),
                            parse_members_at(t, j + 1, (budget - 1) as nat),
                        );
                        assert(raw + seq![(key@, v@)] =~= raw.push((key@, v@)));
                        assert(raw.push((key@, v@)).drop_last() =~= raw);
                    }
                    match &tokens[j] {
                        Token::Comma => {
                            insert_entry(&mut entries, key, v);
                            proof {
                                raw = raw.push((key@, v@));
                            }
                            k = j + 1;
                        },
                        Token::RightBrace => {
                            insert_entry(&mut entries, key, v);
                            return Ok((JsonValue::Object(Object(entries)), j + 1));
                        },
                        _ => {
                            return Err(JsonError::ExpectedCommaOrEnd);
                        },
                    }
                },
            }
        }
    }

    /// Parses the value that starts at token `i` and returns it with the index
    /// after it. `budget` is the number of array and object levels that may
    /// still be entered.
    pub fn parse_value(tokens: &Vec<Token>, i: usize, budget: usize) -> (r: Result<
        (JsonValue, usize),
        JsonError,
    >)
        requires
            i <= tokens@.len(),
        ensures
            agrees(r, parse_value_at(token_views(tokens@), i as int, budget as nat)),
            r is Ok ==> i < r->Ok_0.1 <= tokens@.len(),
            r is Err ==> in_range(r->Err_0@, tokens@.len()),
        decreases tokens@.len() - i, 1int,
    {
        if i >= tokens.len() {
            return Err(JsonError::UnexpectedEof);
        }
        match &tokens[i] {
            Token::LeftBrace => Self::parse_object(tokens, i, budget),
            Token::LeftBracket => Self::parse_array(tokens, i, budget),
            Token::String(_) => Ok((Self::parse_string(tokens, i), i + 1)),
            Token::Number(_) => match Self::parse_number(tokens, i) {
                Ok(v) => Ok((v, i + 1)),
                Err(e) => Err(e),
            },
            Token::True => Ok((Self::parse_boolean(tokens, i), i + 1)),
            Token::False => Ok((Self::parse_boolean(tokens, i), i + 1)),
            Token::Null => Ok((JsonValue::Null, i + 1)),
            found => Err(JsonError::UnexpectedToken { found: found.duplicate(), pos: i }),
        }
    }

    /// Parses the tokens as one document.
    pub fn parse(self) -> (r: Result<JsonValue, JsonError>)
        ensures
            agrees_document(r, parse_tokens(token_views(self.tokens@), self.max_depth)),
            r is Ok ==> r->Ok_0@.well_formed() && r->Ok_0@.fits(budget_of(self.max_depth)),
            r is Err ==> in_range(r->Err_0@, self.tokens@.len()),
    {
        proof {
            law_parsed_value_well_formed(
                token_views(self.tokens@),
                0,
                budget_of(self.max_depth),
            );
        }
        let budget: usize = if self.max_depth == 0 {
            0
        } else {
            self.max_depth - 1
        };
        match Self::parse_value(&self.tokens, 0, budget) {
            Err(e) => Err(e),
            Ok((v, j)) => {
                if j < self.tokens.len() {
                    Err(JsonError::TrailingContent)
                } else {
                    Ok(v)
                }
            },
        }
    }
}

} // verus!
