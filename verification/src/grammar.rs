//! The lexical grammar of JSON, stated over sequences of characters.
//!
//! Positions in this module are character indices into the input.

use vstd::prelude::*;
use crate::token::{LexErrorKind, TokenView};

verus! {

/// Space, tab, line feed and carriage return separate tokens.
pub open spec fn is_whitespace(c: char) -> bool {
    c == ' ' || c == '\t' || c == '\n' || c == '\r'
}

pub open spec fn is_digit(c: char) -> bool {
    48 <= (c as u32) <= 57
}

/// The characters that a number literal is made of.
pub open spec fn is_number_char(c: char) -> bool {
    is_digit(c) || c == '.' || c == '+' || c == '-' || c == 'e' || c == 'E'
}

pub open spec fn has_digit_at(s: Seq<char>, i: int) -> bool {
    0 <= i < s.len() && is_digit(s[i])
}

pub open spec fn has_char_at(s: Seq<char>, i: int, c: char) -> bool {
    0 <= i < s.len() && s[i] == c
}

/// The first index at or after `i` that holds no digit.
pub open spec fn digits_end(s: Seq<char>, i: int) -> int
    decreases s.len() - i,
{
    if has_digit_at(s, i) {
        digits_end(s, i + 1)
    } else {
        i
    }
}

/// The first index at or after `i` that holds no number character.
pub open spec fn number_run_end(s: Seq<char>, i: int) -> int
    decreases s.len() - i,
{
    if 0 <= i < s.len() && is_number_char(s[i]) {
        number_run_end(s, i + 1)
    } else {
        i
    }
}

/// Where the integer part that starts at `i` ends: an optional `-`, and either
/// a single `0` or a nonzero digit followed by digits.
pub open spec fn integer_end(s: Seq<char>, i: int) -> Option<int> {
    let a = if has_char_at(s, i, '-') { i + 1 } else { i };
    if !has_digit_at(s, a) {
        None
    } else if s[a] == '0' {
        Some(a + 1)
    } else {
        Some(digits_end(s, a))
    }
}

/// Where the optional fraction that starts at `b` ends: `.` and one or more digits.
pub open spec fn fraction_end(s: Seq<char>, b: int) -> Option<int> {
    if has_char_at(s, b, '.') {
        if has_digit_at(s, b + 1) {
            Some(digits_end(s, b + 1))
        } else {
            None
        }
    } else {
        Some(b)
    }
}

/// The index of the first exponent digit if an exponent marker stands at `c`.
pub open spec fn exponent_digits_start(s: Seq<char>, c: int) -> int {
    if has_char_at(s, c + 1, '+') || has_char_at(s, c + 1, '-') { c + 2 } else { c + 1 }
}

/// Where the optional exponent that starts at `c` ends: `e` or `E`, an optional
/// sign, and one or more digits.
pub open spec fn exponent_end(s: Seq<char>, c: int) -> Option<int> {
    if has_char_at(s, c, 'e') || has_char_at(s, c, 'E') {
        let d = exponent_digits_start(s, c);
        if has_digit_at(s, d) {
            Some(digits_end(s, d))
        } else {
            None
        }
    } else {
        Some(c)
    }
}

/// Where the longest prefix of `s[i..]` that is a number ends, if there is one.
pub open spec fn number_end(s: Seq<char>, i: int) -> Option<int> {
    match integer_end(s, i) {
        None => None,
        Some(b) => match fraction_end(s, b) {
            None => None,
            Some(c) => exponent_end(s, c),
        },
    }
}

/// Whether the whole of `text` is a number literal.
pub open spec fn is_number_literal(text: Seq<char>) -> bool {
    number_end(text, 0) == Some(text.len() as int)
}

/// Whether the characters of `word` stand at index `i` of `s`.
pub open spec fn keyword_at(s: Seq<char>, i: int, word: Seq<char>) -> bool {
    0 <= i && i + word.len() <= s.len() && s.subrange(i, i + word.len()) == word
}

/// The value of a hexadecimal digit.
pub open spec fn hex_value(c: char) -> Option<u32> {
    let u = c as u32;
    if 48 <= u <= 57 {
        Some((u - 48) as u32)
    } else if 65 <= u <= 70 {
        Some((u - 55) as u32)
    } else if 97 <= u <= 102 {
        Some((u - 87) as u32)
    } else {
        None
    }
}

/// The 16-bit code written as four hexadecimal digits at `s[i..i + 4]`.
pub open spec fn hex4(s: Seq<char>, i: int) -> Option<u32> {
    if 0 <= i && i + 4 <= s.len() && hex_value(s[i]) is Some && hex_value(s[i + 1]) is Some
        && hex_value(s[i + 2]) is Some && hex_value(s[i + 3]) is Some {
        Some(
            (hex_value(s[i])->0 * 4096 + hex_value(s[i + 1])->0 * 256 + hex_value(s[i + 2])->0 * 16
                + hex_value(s[i + 3])->0) as u32,
        )
    } else {
        None
    }
}

/// The character that a one-letter escape stands for.
pub open spec fn simple_escape(c: char) -> Option<char> {
    if c == '"' {
        Some('"')
    } else if c == '\\' {
        Some('\\')
    } else if c == '/' {
        Some('/')
    } else if c == 'b' {
        Some('\u{8}')
    } else if c == 'f' {
        Some('\u{c}')
    } else if c == 'n' {
        Some('\n')
    } else if c == 'r' {
        Some('\r')
    } else if c == 't' {
        Some('\t')
    } else {
        None
    }
}

pub open spec fn is_high_surrogate(code: u32) -> bool {
    0xD800 <= code <= 0xDBFF
}

pub open spec fn is_low_surrogate(code: u32) -> bool {
    0xDC00 <= code <= 0xDFFF
}

/// The scalar value that a surrogate pair encodes.
pub open spec fn combine_surrogates(high: u32, low: u32) -> u32 {
    (0x10000 + (high - 0xD800) * 0x400 + (low - 0xDC00)) as u32
}

/// The character written by the `\u` escape whose backslash stands at `i`, and
/// the index after it. A high surrogate must be followed by a second `\u`
/// escape that holds a low surrogate; a low surrogate alone is no character.
pub open spec fn unicode_escape_at(s: Seq<char>, i: int) -> Option<(char, int)> {
    match hex4(s, i + 2) {
        None => None,
        Some(high) => if is_high_surrogate(high) {
            if has_char_at(s, i + 6, '\\') && has_char_at(s, i + 7, 'u') {
                match hex4(s, i + 8) {
                    None => None,
                    Some(low) => if is_low_surrogate(low) {
                        Some((combine_surrogates(high, low) as char, i + 12))
                    } else {
                        None
                    },
                }
            } else {
                None
            }
        } else if is_low_surrogate(high) {
            None
        } else {
            Some((high as char, i + 6))
        },
    }
}

/// The character written by the escape whose backslash stands at `i`, and the
/// index after the escape; `None` if no valid escape stands there.
pub open spec fn escape_at(s: Seq<char>, i: int) -> Option<(char, int)> {
    if !(0 <= i && i + 1 < s.len()) {
        None
    } else if s[i + 1] == 'u' {
        unicode_escape_at(s, i)
    } else {
        match simple_escape(s[i + 1]) {
            Some(c) => Some((c, i + 2)),
            None => None,
        }
    }
}

/// A lexical failure: its kind and the character index at which it was found.
pub type Failure = (LexErrorKind, int);

/// `r` with `front` put before the items it found.
pub open spec fn with_front<T, E>(front: Seq<T>, r: Result<(Seq<T>, int), E>) -> Result<
    (Seq<T>, int),
    E,
> {
    match r {
        Ok((items, end)) => Ok((front + items, end)),
        Err(e) => Err(e),
    }
}

/// The decoded text of the string literal whose first character after the
/// opening quote stands at `i`, and the index after its closing quote.
///
/// The input ending before the closing quote is `UnterminatedString`, found at
/// the end of the input; a bad escape is `InvalidEscape`, found at its backslash.
pub open spec fn string_body(s: Seq<char>, i: int) -> Result<(Seq<char>, int), Failure>
    decreases s.len() - i,
{
    if !(0 <= i < s.len()) {
        Err((LexErrorKind::UnterminatedString, s.len() as int))
    } else if s[i] == '"' {
        Ok((Seq::empty(), i + 1))
    } else if s[i] == '\\' {
        match escape_at(s, i) {
            None => Err((LexErrorKind::InvalidEscape, i)),
            Some((c, j)) => with_front(seq![c], string_body(s, j)),
        }
    } else {
        with_front(seq![s[i]], string_body(s, i + 1))
    }
}

/// The token that starts at the non-whitespace character at `i`, and the index
/// after it.
///
/// A word that starts with `t`, `f` or `n` must be `true`, `false` or `null`,
/// else it is `InvalidKeyword`. A digit, `-` or `.` starts a number: the
/// longest run of number characters from `i` must be a number literal as a
/// whole, else it is `InvalidNumberLiteral`. Both are found at `i`.
pub open spec fn next_token(s: Seq<char>, i: int) -> Result<(TokenView, int), Failure>
    recommends
        0 <= i < s.len(),
{
    let c = s[i];
    if c == '{' {
        Ok((TokenView::LeftBrace, i + 1))
    } else if c == '}' {
        Ok((TokenView::RightBrace, i + 1))
    } else if c == '[' {
        Ok((TokenView::LeftBracket, i + 1))
    } else if c == ']' {
        Ok((TokenView::RightBracket, i + 1))
    } else if c == ':' {
        Ok((TokenView::Colon, i + 1))
    } else if c == ',' {
        Ok((TokenView::Comma, i + 1))
    } else if c == '"' {
        match string_body(s, i + 1) {
            Ok((text, j)) => Ok((TokenView::String(text), j)),
            Err(e) => Err(e),
        }
    } else if c == 't' {
        if keyword_at(s, i, seq!['t', 'r', 'u', 'e']) {
            Ok((TokenView::True, i + 4))
        } else {
            Err((LexErrorKind::InvalidKeyword, i))
        }
    } else if c == 'f' {
        if keyword_at(s, i, seq!['f', 'a', 'l', 's', 'e']) {
            Ok((TokenView::False, i + 5))
        } else {
            Err((LexErrorKind::InvalidKeyword, i))
        }
    } else if c == 'n' {
        if keyword_at(s, i, seq!['n', 'u', 'l', 'l']) {
            Ok((TokenView::Null, i + 4))
        } else {
            Err((LexErrorKind::InvalidKeyword, i))
        }
    } else if is_digit(c) || c == '-' || c == '.' {
        let end = number_run_end(s, i);
        if number_end(s, i) == Some(end) {
            Ok((TokenView::Number(s.subrange(i, end)), end))
        } else {
            Err((LexErrorKind::InvalidNumberLiteral, i))
        }
    } else {
        Err((LexErrorKind::UnexpectedCharacter, i))
    }
}

/// `r` with the token `t` put before the tokens it found.
pub open spec fn with_tokens(front: Seq<TokenView>, r: Result<Seq<TokenView>, Failure>) -> Result<
    Seq<TokenView>,
    Failure,
> {
    match r {
        Ok(ts) => Ok(front + ts),
        Err(e) => Err(e),
    }
}

/// The tokens of `s[i..]`, or the first lexical failure in it.
///
/// Every token is at least one character long (`lemma_token_advances`), so the
/// last branch is never taken; it is there for the recursion to be well founded.
pub open spec fn lex_from(s: Seq<char>, i: int) -> Result<Seq<TokenView>, Failure>
    decreases s.len() - i,
{
    if !(0 <= i < s.len()) {
        Ok(Seq::empty())
    } else if is_whitespace(s[i]) {
        lex_from(s, i + 1)
    } else {
        match next_token(s, i) {
            Err(e) => Err(e),
            Ok((t, j)) => if i < j <= s.len() {
                with_tokens(seq![t], lex_from(s, j))
            } else {
                Ok(Seq::empty())
            },
        }
    }
}

/// The character indices at which the tokens of `s[i..]` start, up to the
/// first lexical failure.
pub open spec fn starts_from(s: Seq<char>, i: int) -> Seq<int>
    decreases s.len() - i,
{
    if !(0 <= i < s.len()) {
        Seq::empty()
    } else if is_whitespace(s[i]) {
        starts_from(s, i + 1)
    } else {
        match next_token(s, i) {
            Err(_) => Seq::empty(),
            Ok((_, j)) => if i < j <= s.len() {
                seq![i] + starts_from(s, j)
            } else {
                Seq::empty()
            },
        }
    }
}

/// Where the text can be cut into tokens, every token has its start, and the
/// start lies inside the text.
pub proof fn lemma_starts_match_tokens(s: Seq<char>, i: int)
    requires
        lex_from(s, i) is Ok,
    ensures
        starts_from(s, i).len() == lex_from(s, i)->Ok_0.len(),
        forall|k: int| 0 <= k < starts_from(s, i).len() ==> 0 <= #[trigger] starts_from(s, i)[k] < s.len(),
    decreases s.len() - i,
{
    if 0 <= i < s.len() {
        if is_whitespace(s[i]) {
            lemma_starts_match_tokens(s, i + 1);
        } else {
            match next_token(s, i) {
                Err(_) => {},
                Ok((_, j)) => {
                    if i < j <= s.len() {
                        lemma_starts_match_tokens(s, j);
                    }
                },
            }
        }
    }
}

/// The end of a string literal lies after its start.
pub proof fn lemma_string_body_advances(s: Seq<char>, i: int)
    requires
        0 <= i,
    ensures
        string_body(s, i) is Ok ==> i < string_body(s, i)->Ok_0.1 <= s.len(),
    decreases s.len() - i,
{
    if 0 <= i < s.len() && s[i] != '"' {
        if s[i] == '\\' {
            match escape_at(s, i) {
                None => {},
                Some((c, j)) => {
                    lemma_string_body_advances(s, j);
                },
            }
        } else {
            lemma_string_body_advances(s, i + 1);
        }
    }
}

/// The end of a run lies between its start and the end of the input.
pub proof fn lemma_run_bounds(s: Seq<char>, i: int)
    requires
        0 <= i <= s.len(),
    ensures
        i <= number_run_end(s, i) <= s.len(),
        i <= digits_end(s, i) <= s.len(),
    decreases s.len() - i,
{
    if i < s.len() {
        lemma_run_bounds(s, i + 1);
    }
}

/// Every token is at least one character long and ends inside the input.
pub proof fn lemma_token_advances(s: Seq<char>, i: int)
    requires
        0 <= i < s.len(),
    ensures
        next_token(s, i) is Ok ==> i < next_token(s, i)->Ok_0.1 <= s.len(),
{
    lemma_string_body_advances(s, i + 1);
    lemma_run_bounds(s, i);
    lemma_run_bounds(s, i + 1);
}

} // verus!
