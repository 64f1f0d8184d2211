use json_parser::chars::{chars_of, string_from_range};
use json_parser::lexer::{lex_chars, number_literal_end, token_starts};
use json_parser::number::{read_digits, read_number};
use json_parser::parser::insert_entry;
use json_parser::{JsonError, JsonValue, LexErrorKind, Number, Token};

#[test]
fn chars_of_keeps_every_character() {
    assert_eq!(chars_of(""), Vec::<char>::new());
    assert_eq!(chars_of("a\u{e9}\u{1F600}\n"), vec!['a', '\u{e9}', '\u{1F600}', '\n']);
}

#[test]
fn string_from_range_takes_the_range() {
    let chars = chars_of("[12.5e3]");
    assert_eq!(string_from_range(&chars, 1, 7), "12.5e3");
    assert_eq!(string_from_range(&chars, 3, 3), "");
    assert_eq!(string_from_range(&chars, 0, 8), "[12.5e3]");
}

#[test]
fn number_literal_end_finds_the_longest_number() {
    let end = |s: &str, i: usize| number_literal_end(&chars_of(s), i);
    assert_eq!(end("123", 0), Some(3));
    assert_eq!(end("01", 0), Some(1));
    assert_eq!(end("-0.50e+7,", 0), Some(8));
    assert_eq!(end("1.", 0), None);
    assert_eq!(end("1e", 0), None);
    assert_eq!(end("1e-", 0), None);
    assert_eq!(end("-", 0), None);
    assert_eq!(end(".5", 0), None);
    assert_eq!(end("", 0), None);
    assert_eq!(end("[7]", 1), Some(2));
    assert_eq!(end("12abc", 0), Some(2));
    assert_eq!(end("1E5", 3), None);
}

#[test]
fn lex_chars_reports_character_indices() {
    let chars = chars_of("[\"\u{e9}\", ?]");
    assert_eq!(lex_chars(&chars), Err((LexErrorKind::UnexpectedCharacter, 6)));
    let chars = chars_of(" [ 1 ] ");
    assert_eq!(
        lex_chars(&chars),
        Ok(vec![Token::LeftBracket, Token::Number("1".to_string()), Token::RightBracket])
    );
}

#[test]
fn token_starts_are_character_indices() {
    assert_eq!(token_starts(&chars_of(" [ \"\u{e9}\" , true ]")), vec![1, 3, 7, 9, 14]);
    assert_eq!(token_starts(&chars_of("")), Vec::<usize>::new());
    assert_eq!(token_starts(&chars_of("1 2 @ 3")), vec![0, 2]);
}

#[test]
fn read_digits_accumulates() {
    let chars = chars_of("x0123456789y");
    assert_eq!(read_digits(0, &chars, 1, 11), Some(123456789));
    assert_eq!(read_digits(7, &chars, 1, 4), Some(7012));
    assert_eq!(read_digits(5, &chars, 3, 3), Some(5));
    assert_eq!(read_digits(1844674407370955161, &chars, 6, 7), Some(u64::MAX));
    assert_eq!(read_digits(1844674407370955161, &chars, 7, 8), None);
    assert_eq!(read_digits(u64::MAX, &chars, 1, 2), None);
}

#[test]
fn read_number_reads_each_part() {
    assert_eq!(read_number("-12.340e+2"), Ok(Number { negative: true, mantissa: 12340, exponent: -1 }));
    assert_eq!(read_number("0.001"), Ok(Number { negative: false, mantissa: 1, exponent: -3 }));
    assert_eq!(read_number("7E-2"), Ok(Number { negative: false, mantissa: 7, exponent: -2 }));
    assert_eq!(read_number("1e"), Err(JsonError::InvalidLiteral));
    assert_eq!(read_number(" 1"), Err(JsonError::InvalidLiteral));
    assert_eq!(read_number("1 "), Err(JsonError::InvalidLiteral));
    assert_eq!(read_number("99999999999999999999"), Err(JsonError::NumberOutOfRange));
    assert_eq!(read_number("1e-9223372036854775808"), Err(JsonError::NumberOutOfRange));
}

#[test]
fn insert_entry_overwrites_in_place() {
    let mut entries: Vec<(String, JsonValue)> = Vec::new();
    insert_entry(&mut entries, "a".to_string(), JsonValue::Null);
    insert_entry(&mut entries, "b".to_string(), JsonValue::Boolean(true));
    insert_entry(&mut entries, "a".to_string(), JsonValue::Boolean(false));
    assert_eq!(
        entries,
        vec![
            ("a".to_string(), JsonValue::Boolean(false)),
            ("b".to_string(), JsonValue::Boolean(true)),
        ]
    );
}

#[test]
fn duplicate_is_an_equal_token() {
    for token in [
        Token::LeftBrace,
        Token::RightBrace,
        Token::LeftBracket,
        Token::RightBracket,
        Token::String("s".to_string()),
        Token::Number("1".to_string()),
        Token::Colon,
        Token::Comma,
        Token::True,
        Token::False,
        Token::Null,
    ] {
        assert_eq!(token.duplicate(), token);
    }
}
