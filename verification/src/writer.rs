//! Writing tokens as text, and reading the text back.
//!
//! The text written here is the plainest one: every token is followed by one
//! space, and in a string only the quote and the backslash are escaped.

use vstd::prelude::*;
use crate::grammar::{
    digits_end, escape_at, has_char_at, has_digit_at, is_digit, is_number_char, is_number_literal,
    lex_from, next_token, number_end, number_run_end, string_body, Failure,
};
use crate::lexer::lex;
use crate::token::{LexError, TokenView};

verus! {

/// How one character of a string is written.
pub open spec fn escaped(c: char) -> Seq<char> {
    if c == '"' {
        seq!['\\', '"']
    } else if c == '\\' {
        seq!['\\', '\\']
    } else {
        seq![c]
    }
}

/// How the characters of a string are written, without the quotes around them.
pub open spec fn escaped_text(text: Seq<char>) -> Seq<char>
    decreases text.len(),
{
    if text.len() == 0 {
        Seq::empty()
    } else {
        escaped(text[0]) + escaped_text(text.subrange(1, text.len() as int))
    }
}

/// How a token is written.
pub open spec fn token_text(t: TokenView) -> Seq<char> {
    match t {
        TokenView::LeftBrace => seq!['{'],
        TokenView::RightBrace => seq!['}'],
        TokenView::LeftBracket => seq!['['],
        TokenView::RightBracket => seq![']'],
        TokenView::Colon => seq![':'],
        TokenView::Comma => seq![','],
        TokenView::True => seq!['t', 'r', 'u', 'e'],
        TokenView::False => seq!['f', 'a', 'l', 's', 'e'],
        TokenView::Null => seq!['n', 'u', 'l', 'l'],
        TokenView::String(text) => seq!['"'] + escaped_text(text) + seq!['"'],
        TokenView::Number(text) => text,
    }
}

/// How a sequence of tokens is written: each token followed by a space.
pub open spec fn tokens_text(ts: Seq<TokenView>) -> Seq<char>
    decreases ts.len(),
{
    if ts.len() == 0 {
        Seq::empty()
    } else {
        token_text(ts[0]) + seq![' '] + tokens_text(ts.subrange(1, ts.len() as int))
    }
}

/// Whether every number token holds a number literal.
pub open spec fn numbers_valid(ts: Seq<TokenView>) -> bool {
    forall|k: int|
        0 <= k < ts.len() && (#[trigger] ts[k]) is Number ==> is_number_literal(ts[k]->Number_0)
}

/// Whether the characters `piece` stand in `s` from index `i`.
pub open spec fn text_at(s: Seq<char>, i: int, piece: Seq<char>) -> bool {
    &&& 0 <= i
    &&& i + piece.len() <= s.len()
    &&& forall|k: int| 0 <= k < piece.len() ==> s[i + k] == #[trigger] piece[k]
}

/// What stands in `s` as a whole stands there in its two parts.
pub proof fn lemma_text_split(s: Seq<char>, i: int, a: Seq<char>, b: Seq<char>)
    requires
        text_at(s, i, a + b),
    ensures
        text_at(s, i, a),
        text_at(s, i + a.len(), b),
{
    assert forall|k: int| 0 <= k < a.len() implies s[i + k] == #[trigger] a[k] by {
        assert((a + b)[k] == a[k]);
    }
    assert forall|k: int| 0 <= k < b.len() implies s[i + a.len() + k] == #[trigger] b[k] by {
        assert((a + b)[a.len() + k] == b[k]);
    }
}

/// A written string reads back as the string.
pub proof fn lemma_string_reads_back(s: Seq<char>, j: int, text: Seq<char>)
    requires
        text_at(s, j, escaped_text(text) + seq!['"']),
    ensures
        string_body(s, j) == Ok::<(Seq<char>, int), Failure>(
            (text, j + escaped_text(text).len() + 1),
        ),
    decreases text.len(),
{
    let piece = escaped_text(text) + seq!['"'];
    if text.len() == 0 {
        assert(s[j + 0] == piece[0]);
        assert(text =~= Seq::<char>::empty());
    } else {
        let c = text[0];
        let rest = text.subrange(1, text.len() as int);
        let tail = escaped_text(rest) + seq!['"'];
        assert(piece =~= escaped(c) + tail);
        lemma_text_split(s, j, escaped(c), tail);
        assert(s[j + 0] == escaped(c)[0]);
        if c == '"' || c == '\\' {
            assert(s[j + 1] == escaped(c)[1]);
            assert(escape_at(s, j) == Some((c, j + 2)));
        }
        lemma_string_reads_back(s, j + escaped(c).len(), rest);
        assert(seq![c] + rest =~= text);
    }
}

proof fn lemma_digits_are_digits(text: Seq<char>, a: int)
    requires
        0 <= a <= text.len(),
    ensures
        a <= digits_end(text, a) <= text.len(),
        forall|k: int| a <= k < digits_end(text, a) ==> is_digit(#[trigger] text[k]),
    decreases text.len() - a,
{
    if has_digit_at(text, a) {
        lemma_digits_are_digits(text, a + 1);
    }
}

proof fn lemma_digits_in_context(s: Seq<char>, i: int, text: Seq<char>, a: int)
    requires
        text_at(s, i, text),
        i + text.len() < s.len(),
        s[i + text.len()] == ' ',
        0 <= a <= text.len(),
    ensures
        digits_end(s, i + a) == i + digits_end(text, a),
    decreases text.len() - a,
{
    if a < text.len() {
        assert(s[i + a] == text[a]);
        if is_digit(text[a]) {
            lemma_digits_in_context(s, i, text, a + 1);
        }
    }
}

proof fn lemma_run_in_context(s: Seq<char>, i: int, text: Seq<char>, a: int)
    requires
        text_at(s, i, text),
        i + text.len() < s.len(),
        s[i + text.len()] == ' ',
        0 <= a <= text.len(),
        forall|k: int| 0 <= k < text.len() ==> is_number_char(#[trigger] text[k]),
    ensures
        number_run_end(s, i + a) == i + text.len(),
    decreases text.len() - a,
{
    if a < text.len() {
        assert(s[i + a] == text[a]);
        lemma_run_in_context(s, i, text, a + 1);
    }
}

/// A number literal is made of number characters, and starts with a digit or
/// a minus sign.
proof fn lemma_literal_chars(text: Seq<char>)
    requires
        is_number_literal(text),
    ensures
        text.len() >= 1,
        is_digit(text[0]) || text[0] == '-',
        forall|k: int| 0 <= k < text.len() ==> is_number_char(#[trigger] text[k]),
{
    let n = text.len() as int;
    let a: int = if has_char_at(text, 0, '-') { 1 } else { 0 };
    lemma_digits_are_digits(text, a);
    let b = crate::grammar::integer_end(text, 0)->0;
    assert(a < b <= n);
    if has_char_at(text, b, '.') {
        lemma_digits_are_digits(text, b + 1);
    }
    let c = crate::grammar::fraction_end(text, b)->0;
    assert(b <= c <= n);
    if has_char_at(text, c, 'e') || has_char_at(text, c, 'E') {
        let d = crate::grammar::exponent_digits_start(text, c);
        lemma_digits_are_digits(text, d);
    }
    assert forall|k: int| 0 <= k < n implies is_number_char(#[trigger] text[k]) by {
        if k < a {
        } else if k < b {
        } else if k < c {
        } else {
        }
    }
}

/// A written number, followed by a space, reads back as the number token.
proof fn lemma_number_reads_back(s: Seq<char>, i: int, text: Seq<char>)
    requires
        text_at(s, i, text),
        i + text.len() < s.len(),
        s[i + text.len()] == ' ',
        is_number_literal(text),
    ensures
        next_token(s, i) == Ok::<(TokenView, int), Failure>(
            (TokenView::Number(text), i + text.len()),
        ),
{
    let n = text.len() as int;
    lemma_literal_chars(text);
    lemma_run_in_context(s, i, text, 0);
    assert(s[i + 0] == text[0]);
    let a: int = if has_char_at(text, 0, '-') { 1 } else { 0 };
    assert(has_char_at(s, i, '-') == has_char_at(text, 0, '-'));
    assert(s[i + a] == text[a]);
    lemma_digits_in_context(s, i, text, a);
    lemma_digits_are_digits(text, a);
    let b = crate::grammar::integer_end(text, 0)->0;
    assert(crate::grammar::integer_end(s, i) == Some(i + b));
    assert(a < b <= n);
    assert(s[i + b] == ' ' || s[i + b] == text[b]);
    let c = crate::grammar::fraction_end(text, b)->0;
    if has_char_at(text, b, '.') {
        assert(s[i + b + 1] == ' ' || s[i + (b + 1)] == text[b + 1]);
        lemma_digits_in_context(s, i, text, b + 1);
        lemma_digits_are_digits(text, b + 1);
    }
    assert(crate::grammar::fraction_end(s, i + b) == Some(i + c));
    assert(b <= c <= n);
    assert(s[i + c] == ' ' || s[i + c] == text[c]);
    if has_char_at(text, c, 'e') || has_char_at(text, c, 'E') {
        assert(s[i + c + 1] == ' ' || s[i + (c + 1)] == text[c + 1]);
        let d = crate::grammar::exponent_digits_start(text, c);
        assert(crate::grammar::exponent_digits_start(s, i + c) == i + d);
        assert(d <= n);
        assert(s[i + d] == ' ' || s[i + d] == text[d]);
        lemma_digits_in_context(s, i, text, d);
    }
    assert(crate::grammar::exponent_end(s, i + c) == Some(i + n));
    assert(number_end(s, i) == Some(i + n));
    assert(s.subrange(i, i + n) =~= text);
}

/// A written token, followed by a space, reads back as the token.
proof fn lemma_token_reads_back(s: Seq<char>, i: int, t: TokenView)
    requires
        text_at(s, i, token_text(t)),
        i + token_text(t).len() < s.len(),
        s[i + token_text(t).len()] == ' ',
        t is Number ==> is_number_literal(t->Number_0),
    ensures
        token_text(t).len() >= 1,
        !crate::grammar::is_whitespace(s[i]),
        next_token(s, i) == Ok::<(TokenView, int), Failure>((t, i + token_text(t).len())),
{
    let p = token_text(t);
    match t {
        TokenView::String(text) => {
            assert(p =~= seq!['"'] + (escaped_text(text) + seq!['"']));
            lemma_text_split(s, i, seq!['"'], escaped_text(text) + seq!['"']);
            assert(s[i + 0] == seq!['"'][0]);
            lemma_string_reads_back(s, i + 1, text);
        },
        TokenView::Number(text) => {
            lemma_literal_chars(text);
            assert(s[i + 0] == p[0]);
            lemma_number_reads_back(s, i, text);
        },
        TokenView::True => {
            assert(s[i + 0] == p[0]);
            assert(s.subrange(i, i + 4) =~= p);
        },
        TokenView::False => {
            assert(s[i + 0] == p[0]);
            assert(s.subrange(i, i + 5) =~= p);
        },
        TokenView::Null => {
            assert(s[i + 0] == p[0]);
            assert(s.subrange(i, i + 4) =~= p);
        },
        _ => {
            assert(s[i + 0] == p[0]);
        },
    }
}

proof fn lemma_tokens_read_back(s: Seq<char>, i: int, ts: Seq<TokenView>)
    requires
        text_at(s, i, tokens_text(ts)),
        i + tokens_text(ts).len() == s.len(),
        numbers_valid(ts),
    ensures
        lex_from(s, i) == Ok::<Seq<TokenView>, Failure>(ts),
    decreases ts.len(),
{
    if ts.len() == 0 {
        assert(ts =~= Seq::<TokenView>::empty());
    } else {
        let t = ts[0];
        let rest = ts.subrange(1, ts.len() as int);
        let p = token_text(t);
        lemma_text_split(s, i, p + seq![' '], tokens_text(rest));
        lemma_text_split(s, i, p, seq![' ']);
        assert(s[i + p.len() + 0] == seq![' '][0]);
        lemma_token_reads_back(s, i, t);
        assert forall|k: int| 0 <= k < rest.len() && (#[trigger] rest[k]) is Number implies is_number_literal(
            rest[k]->Number_0,
        ) by {
            assert(rest[k] == ts[k + 1]);
        }
        lemma_tokens_read_back(s, i + p.len() + 1, rest);
        assert(lex_from(s, i + p.len()) == lex_from(s, i + p.len() + 1));
        assert(seq![t] + rest =~= ts);
    }
}

/// Written tokens read back as the tokens, if every number token holds a
/// number literal.
pub proof fn law_tokens_read_back(ts: Seq<TokenView>)
    requires
        numbers_valid(ts),
    ensures
        lex(tokens_text(ts)) == Ok::<Seq<TokenView>, LexError>(ts),
{
    lemma_tokens_read_back(tokens_text(ts), 0, ts);
}

} // verus!
