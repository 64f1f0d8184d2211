//! The tokenizer: a single pass over the characters of the input, left to
//! right, that follows the lexical grammar of [`crate::grammar`].

use vstd::prelude::*;
use vstd::string::*;
use crate::chars::{char_from_code, chars_of, push_char, string_from_range};
use crate::grammar::{
    digits_end, escape_at, hex4, hex_value, is_digit, is_number_char, keyword_at, lex_from,
    next_token, number_end, number_run_end, simple_escape, starts_from, string_body,
    unicode_escape_at,
    with_front, with_tokens, Failure,
};
use crate::token::{token_views, LexError, LexErrorKind, TokenView};
pub use crate::token::Token;

verus! {

/// Whether an executable failure, with its position as a machine integer, is
/// the failure `f` of the grammar.
pub open spec fn is_failure(e: (LexErrorKind, usize), f: Failure) -> bool {
    e.0 == f.0 && e.1 == f.1
}

/// The byte offset of the character index `i` in the UTF-8 encoding of `s`.
pub open spec fn byte_offset(s: Seq<char>, i: int) -> usize {
    vstd::utf8::encode_utf8(s.subrange(0, i)).len() as usize
}

/// The tokens of `s`, or the first lexical error with the byte offset at which
/// it was found.
pub open spec fn lex(s: Seq<char>) -> Result<Seq<TokenView>, LexError> {
    match lex_from(s, 0) {
        Ok(ts) => Ok(ts),
        Err((kind, i)) => Err(LexError { kind, pos: byte_offset(s, i) }),
    }
}

/// Putting `front` and one more item before what was found is putting `front`
/// with that item at its end before it.
pub proof fn lemma_with_front_push<T, E>(front: Seq<T>, x: T, r: Result<(Seq<T>, int), E>)
    ensures
        with_front(front, with_front(seq![x], r)) == with_front(front.push(x), r),
{
    if let Ok((items, end)) = r {
        assert(front + (seq![x] + items) =~= front.push(x) + items);
    }
}

proof fn lemma_with_tokens_push(front: Seq<TokenView>, t: TokenView, r: Result<Seq<TokenView>, Failure>)
    ensures
        with_tokens(front, with_tokens(seq![t], r)) == with_tokens(front.push(t), r),
{
    if let Ok(ts) = r {
        assert(front + (seq![t] + ts) =~= front.push(t) + ts);
    }
}

fn is_digit_char(c: char) -> (r: bool)
    ensures
        r == is_digit(c),
{
    let u: u32 = c as u32;
    48 <= u && u <= 57
}

fn is_number_character(c: char) -> (r: bool)
    ensures
        r == is_number_char(c),
{
    is_digit_char(c) || c == '.' || c == '+' || c == '-' || c == 'e' || c == 'E'
}

fn skip_digits(chars: &Vec<char>, i: usize) -> (j: usize)
    requires
        i <= chars@.len(),
    ensures
        j == digits_end(chars@, i as int),
        i <= j <= chars@.len(),
{
    let mut j: usize = i;
    while j < chars.len() && is_digit_char(chars[j])
        invariant
            i <= j <= chars@.len(),
            digits_end(chars@, i as int) == digits_end(chars@, j as int),
        decreases chars@.len() - j,
    {
        j += 1;
    }
    j
}

fn skip_number_chars(chars: &Vec<char>, i: usize) -> (j: usize)
    requires
        i <= chars@.len(),
    ensures
        j == number_run_end(chars@, i as int),
        i <= j <= chars@.len(),
{
    let mut j: usize = i;
    while j < chars.len() && is_number_character(chars[j])
        invariant
            i <= j <= chars@.len(),
            number_run_end(chars@, i as int) == number_run_end(chars@, j as int),
        decreases chars@.len() - j,
    {
        j += 1;
    }
    j
}

/// Where the longest number that starts at `i` ends.
pub fn number_literal_end(chars: &Vec<char>, i: usize) -> (r: Option<usize>)
    requires
        i <= chars@.len(),
    ensures
        match number_end(chars@, i as int) {
            Some(e) => r == Some(e as usize) && i <= e <= chars@.len(),
            None => r is None,
        },
{
    let n: usize = chars.len();
    let mut a: usize = i;
    if a < n && chars[a] == '-' {
        a += 1;
    }
    if !(a < n && is_digit_char(chars[a])) {
        return None;
    }
    let b: usize = if chars[a] == '0' {
        a + 1
    } else {
        skip_digits(chars, a)
    };
    let mut c: usize = b;
    if b < n && chars[b] == '.' {
        if b + 1 < n && is_digit_char(chars[b + 1]) {
            c = skip_digits(chars, b + 1);
        } else {
            return None;
        }
    }
    if c < n && (chars[c] == 'e' || chars[c] == 'E') {
        let mut d: usize = c + 1;
        if d < n && (chars[d] == '+' || chars[d] == '-') {
            d += 1;
        }
        if d < n && is_digit_char(chars[d]) {
            return Some(skip_digits(chars, d));
        } else {
            return None;
        }
    }
    Some(c)
}

fn hex_digit(c: char) -> (r: Option<u32>)
    ensures
        r == hex_value(c),
        r is Some ==> r->0 < 16,
{
    let u: u32 = c as u32;
    if 48 <= u && u <= 57 {
        Some(u - 48)
    } else if 65 <= u && u <= 70 {
        Some(u - 55)
    } else if 97 <= u && u <= 102 {
        Some(u - 87)
    } else {
        None
    }
}

fn read_hex4(chars: &Vec<char>, i: usize) -> (r: Option<u32>)
    requires
        i <= chars@.len(),
    ensures
        r == hex4(chars@, i as int),
        r is Some ==> r->0 <= 0xFFFF && i + 4 <= chars@.len(),
{
    if chars.len() - i < 4 {
        return None;
    }
    match (hex_digit(chars[i]), hex_digit(chars[i + 1]), hex_digit(chars[i + 2]), hex_digit(chars[i + 3])) {
        (Some(a), Some(b), Some(c), Some(d)) => Some(a * 4096 + b * 256 + c * 16 + d),
        _ => None,
    }
}

fn simple_escape_char(c: char) -> (r: Option<char>)
    ensures
        r == simple_escape(c),
{
    if c == '"' {
        Some('"')
    } else if c == '\\' {
        Some('\\')
    } else if c == '/' {
        Some('/')
    } else if c == 'b' {
        Some('\u{8}')
    } else if c == 'f' {
        Some('\u{c}')
    } else if c == 'n' {
        Some('\n')
    } else if c == 'r' {
        Some('\r')
    } else if c == 't' {
        Some('\t')
    } else {
        None
    }
}

fn read_unicode_escape(chars: &Vec<char>, i: usize) -> (r: Option<(char, usize)>)
    requires
        i + 2 <= chars@.len(),
    ensures
        match unicode_escape_at(chars@, i as int) {
            Some((c, j)) => r == Some((c, j as usize)) && i < j <= chars@.len(),
            None => r is None,
        },
{
    let n: usize = chars.len();
    let high: u32 = match read_hex4(chars, i + 2) {
        None => {
            return None;
        },
        Some(h) => h,
    };
    if 0xD800 <= high && high <= 0xDBFF {
        if n - i < 8 || chars[i + 6] != '\\' || chars[i + 7] != 'u' {
            return None;
        }
        let low: u32 = match read_hex4(chars, i + 8) {
            None => {
                return None;
            },
            Some(l) => l,
        };
        if !(0xDC00 <= low && low <= 0xDFFF) {
            return None;
        }
        let code: u32 = 0x10000 + (high - 0xD800) * 0x400 + (low - 0xDC00);
        match char_from_code(code) {
            Some(c) => Some((c, i + 12)),
            None => None,
        }
    } else if 0xDC00 <= high && high <= 0xDFFF {
        None
    } else {
        match char_from_code(high) {
            Some(c) => Some((c, i + 6)),
            None => None,
        }
    }
}

/// Decodes the escape whose backslash stands at `i`.
fn read_escape(chars: &Vec<char>, i: usize) -> (r: Option<(char, usize)>)
    requires
        i < chars@.len(),
    ensures
        match escape_at(chars@, i as int) {
            Some((c, j)) => r == Some((c, j as usize)) && i < j <= chars@.len(),
            None => r is None,
        },
{
    if chars.len() - i < 2 {
        return None;
    }
    let e: char = chars[i + 1];
    if e == 'u' {
        read_unicode_escape(chars, i)
    } else {
        match simple_escape_char(e) {
            Some(c) => Some((c, i + 2)),
            None => None,
        }
    }
}

/// Reads a string literal from the character after its opening quote.
fn scan_string(chars: &Vec<char>, start: usize) -> (r: Result<(String, usize), (LexErrorKind, usize)>)
    requires
        start <= chars@.len(),
    ensures
        match string_body(chars@, start as int) {
            Ok((text, j)) => r is Ok && r->Ok_0.0@ == text && r->Ok_0.1 == j && start < j
                <= chars@.len(),
            Err(f) => r is Err && is_failure(r->Err_0, f) && f.1 <= chars@.len(),
        },
{
    let mut text = String::new();
    let mut i: usize = start;
    loop
        invariant
            start <= i <= chars@.len(),
            string_body(chars@, start as int) == with_front(text@, string_body(chars@, i as int)),
        decreases chars@.len() - i,
    {
        if i >= chars.len() {
            return Err((LexErrorKind::UnterminatedString, chars.len()));
        }
        let c: char = chars[i];
        if c == '"' {
            assert(text@ + Seq::<char>::empty() =~= text@);
            return Ok((text, i + 1));
        }
        if c == '\\' {
            match read_escape(chars, i) {
                None => {
                    return Err((LexErrorKind::InvalidEscape, i));
                },
                Some((decoded, j)) => {
                    proof {
                        lemma_with_front_push(text@, decoded, string_body(chars@, j as int));
                    }
                    push_char(&mut text, decoded);
                    i = j;
                },
            }
        } else {
            proof {
                lemma_with_front_push(text@, c, string_body(chars@, i + 1));
            }
            push_char(&mut text, c);
            i += 1;
        }
    }
}

/// Reads the token that starts at the non-whitespace character at `i`.
fn scan_token(chars: &Vec<char>, i: usize) -> (r: Result<(Token, usize), (LexErrorKind, usize)>)
    requires
        i < chars@.len(),
    ensures
        match next_token(chars@, i as int) {
            Ok((t, j)) => r is Ok && r->Ok_0.0@ == t && r->Ok_0.1 == j && i < j <= chars@.len(),
            Err(f) => r is Err && is_failure(r->Err_0, f) && f.1 <= chars@.len(),
        },
{
    let n: usize = chars.len();
    let c: char = chars[i];
    if c == '{' {
        Ok((Token::LeftBrace, i + 1))
    } else if c == '}' {
        Ok((Token::RightBrace, i + 1))
    } else if c == '[' {
        Ok((Token::LeftBracket, i + 1))
    } else if c == ']' {
        Ok((Token::RightBracket, i + 1))
    } else if c == ':' {
        Ok((Token::Colon, i + 1))
    } else if c == ',' {
        Ok((Token::Comma, i + 1))
    } else if c == '"' {
        match scan_string(chars, i + 1) {
            Ok((text, j)) => Ok((Token::String(text), j)),
            Err(e) => Err(e),
        }
    } else if c == 't' {
        proof {
            reveal_strlit("true");
            assert("true"@ =~= seq!['t', 'r', 'u', 'e']);
        }
        if Lexer::match_keyword(chars, i, "true") {
            Ok((Token::True, i + 4))
        } else {
            Err((LexErrorKind::InvalidKeyword, i))
        }
    } else if c == 'f' {
        proof {
            reveal_strlit("false");
            assert("false"@ =~= seq!['f', 'a', 'l', 's', 'e']);
        }
        if Lexer::match_keyword(chars, i, "false") {
            Ok((Token::False, i + 5))
        } else {
            Err((LexErrorKind::InvalidKeyword, i))
        }
    } else if c == 'n' {
        proof {
            reveal_strlit("null");
            assert("null"@ =~= seq!['n', 'u', 'l', 'l']);
        }
        if Lexer::match_keyword(chars, i, "null") {
            Ok((Token::Null, i + 4))
        } else {
            Err((LexErrorKind::InvalidKeyword, i))
        }
    } else if is_digit_char(c) || c == '-' || c == '.' {
        assert(number_run_end(chars@, i as int) == number_run_end(chars@, i + 1));
        let end: usize = skip_number_chars(chars, i + 1);
        match number_literal_end(chars, i) {
            Some(e) => {
                if e == end {
                    Ok((Token::Number(string_from_range(chars, i, end)), end))
                } else {
                    Err((LexErrorKind::InvalidNumberLiteral, i))
                }
            },
            None => Err((LexErrorKind::InvalidNumberLiteral, i)),
        }
    } else {
        Err((LexErrorKind::UnexpectedCharacter, i))
    }
}

/// Cuts a sequence of characters into tokens. A failure carries the character
/// index at which it was found.
pub fn lex_chars(chars: &Vec<char>) -> (r: Result<Vec<Token>, (LexErrorKind, usize)>)
    ensures
        match lex_from(chars@, 0) {
            Ok(ts) => r is Ok && token_views(r->Ok_0@) == ts,
            Err(f) => r is Err && is_failure(r->Err_0, f) && f.1 <= chars@.len(),
        },
{
    let mut tokens: Vec<Token> = Vec::new();
    let mut i: usize = 0;
    assert(token_views(tokens@) + Seq::<TokenView>::empty() =~= Seq::<TokenView>::empty());
    while i < chars.len()
        invariant
            i <= chars@.len(),
            lex_from(chars@, 0) == with_tokens(token_views(tokens@), lex_from(chars@, i as int)),
        decreases chars@.len() - i,
    {
        let c: char = chars[i];
        if c == ' ' || c == '\t' || c == '\n' || c == '\r' {
            i += 1;
        } else {
            match scan_token(chars, i) {
                Err(e) => {
                    return Err(e);
                },
                Ok((t, j)) => {
                    proof {
                        lemma_with_tokens_push(token_views(tokens@), t@, lex_from(chars@, j as int));
                        assert(token_views(tokens@.push(t)) =~= token_views(tokens@).push(t@));
                    }
                    tokens.push(t);
                    i = j;
                },
            }
        }
    }
    assert(token_views(tokens@) + Seq::<TokenView>::empty() =~= token_views(tokens@));
    Ok(tokens)
}

/// Machine integers as mathematical ones.
pub open spec fn as_ints(v: Seq<usize>) -> Seq<int> {
    v.map_values(|x: usize| x as int)
}

/// The character indices at which the tokens of `chars` start, up to the first
/// lexical failure.
pub fn token_starts(chars: &Vec<char>) -> (r: Vec<usize>)
    ensures
        as_ints(r@) == starts_from(chars@, 0),
{
    let mut starts: Vec<usize> = Vec::new();
    let mut i: usize = 0;
    assert(as_ints(starts@) + starts_from(chars@, 0) =~= starts_from(chars@, 0));
    while i < chars.len()
        invariant
            i <= chars@.len(),
            starts_from(chars@, 0) == as_ints(starts@) + starts_from(chars@, i as int),
        decreases chars@.len() - i,
    {
        let c: char = chars[i];
        if c == ' ' || c == '\t' || c == '\n' || c == '\r' {
            i += 1;
        } else {
            match scan_token(chars, i) {
                Err(_) => {
                    assert(as_ints(starts@) + Seq::<int>::empty() =~= as_ints(starts@));
                    return starts;
                },
                Ok((_, j)) => {
                    assert(as_ints(starts@.push(i)) + starts_from(chars@, j as int) =~= as_ints(
                        starts@,
                    ) + (seq![i as int] + starts_from(chars@, j as int)));
                    starts.push(i);
                    i = j;
                },
            }
        }
    }
    assert(as_ints(starts@) + Seq::<int>::empty() =~= as_ints(starts@));
    starts
}

/// Cuts `input` into tokens, or reports the first lexical error with the byte
/// offset at which it was found.
pub fn tokenize(input: &str) -> (r: Result<Vec<Token>, LexError>)
    ensures
        match lex(input@) {
            Ok(ts) => r is Ok && token_views(r->Ok_0@) == ts,
            Err(e) => r == Err::<Vec<Token>, LexError>(e),
        },
{
    let chars = chars_of(input);
    match lex_chars(&chars) {
        Ok(tokens) => Ok(tokens),
        Err((kind, i)) => {
            let prefix = input.substring_char(0, i);
            Err(LexError { kind, pos: prefix.len() })
        },
    }
}

/// The tokens of one input text.
#[derive(Debug)]
pub struct Lexer {
    tokens: Vec<Token>,
}

impl View for Lexer {
    type V = Seq<TokenView>;

    closed spec fn view(&self) -> Seq<TokenView> {
        token_views(self.tokens@)
    }
}

impl Lexer {
    /// Tokenizes `input`.
    pub fn new(input: &str) -> (r: Result<Lexer, LexError>)
        ensures
            match lex(input@) {
                Ok(ts) => r is Ok && r->Ok_0@ == ts,
                Err(e) => r == Err::<Lexer, LexError>(e),
            },
    {
        match tokenize(input) {
            Ok(tokens) => Ok(Lexer { tokens }),
            Err(e) => Err(e),
        }
    }

    pub fn tokens(&self) -> (r: &Vec<Token>)
        ensures
            token_views(r@) == self@,
    {
        &self.tokens
    }

    pub fn into_tokens(self) -> (r: Vec<Token>)
        ensures
            token_views(r@) == self@,
    {
        self.tokens
    }

    /// Whether the characters of `keyword` stand at index `i` of `chars`.
    pub fn match_keyword(chars: &Vec<char>, i: usize, keyword: &str) -> (r: bool)
        requires
            i <= chars@.len(),
        ensures
            r == keyword_at(chars@, i as int, keyword@),
    {
        let n: usize = keyword.unicode_len();
        if chars.len() - i < n {
            return false;
        }
        let mut k: usize = 0;
        while k < n
            invariant
                k <= n,
                n == keyword@.len(),
                i + n <= chars@.len() <= usize::MAX,
                forall|j: int| 0 <= j < k ==> chars@[i + j] == keyword@[j],
            decreases n - k,
        {
            if chars[i + k] != keyword.get_char(k) {
                assert(chars@.subrange(i as int, i + n)[k as int] != keyword@[k as int]);
                return false;
            }
            k += 1;
        }
        assert(chars@.subrange(i as int, i + n) =~= keyword@);
        true
    }
}

} // verus!
