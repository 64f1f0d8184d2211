use json_parser::{
    parse, parse_with_max_depth, tokenize, Array, JsonError, JsonValue, LexError, LexErrorKind,
    Lexer, Number, Object, Parser, Token, TypeMismatch, ValueKind, DEFAULT_MAX_DEPTH,
};

fn num(negative: bool, mantissa: u64, exponent: i64) -> JsonValue {
    JsonValue::Number(Number { negative, mantissa, exponent })
}

fn text(s: &str) -> JsonValue {
    JsonValue::String(s.to_string())
}

fn lex_error(input: &str) -> LexError {
    match tokenize(input) {
        Err(e) => e,
        Ok(tokens) => panic!("expected a lexical error, got {:?}", tokens),
    }
}

fn nested_arrays(depth: usize) -> String {
    let mut s = String::new();
    for _ in 0..depth {
        s.push('[');
    }
    for _ in 0..depth {
        s.push(']');
    }
    s
}

#[test]
fn test_parser() {
    let input: &str = r##"{"a" : [1,2.9,"Prudhvi"]}"##;
    let _result: Result<JsonValue, JsonError> = parse(input);

    ()
}

#[test]
fn end_to_end_object_with_array() {
    let value = parse(r#"{"a": [1, 2.9, "x"]}"#).unwrap();
    let expected = JsonValue::Object(Object(vec![(
        "a".to_string(),
        JsonValue::Array(Array(vec![num(false, 1, 0), num(false, 29, -1), text("x")])),
    )]));
    assert_eq!(value, expected);
}

#[test]
fn empty_text_is_unexpected_eof() {
    assert_eq!(parse(""), Err(JsonError::UnexpectedEof));
    assert_eq!(parse("  \n\t\r "), Err(JsonError::UnexpectedEof));
}

#[test]
fn garbage_after_document_is_lexical_error() {
    let err = parse(r#"{"a":1} garbage"#).unwrap_err();
    assert_eq!(
        err,
        JsonError::Lex(LexError { kind: LexErrorKind::UnexpectedCharacter, pos: 8 })
    );
}

#[test]
fn tokens_after_document_are_trailing_content() {
    assert_eq!(parse(r#"{"a":1} null"#), Err(JsonError::TrailingContent));
    assert_eq!(parse(r#"{"a":1} {"#), Err(JsonError::TrailingContent));
    assert_eq!(parse("1 2"), Err(JsonError::TrailingContent));
    assert_eq!(parse("[] ]"), Err(JsonError::TrailingContent));
}

#[test]
fn trailing_comma_in_object_is_rejected() {
    assert_eq!(parse(r#"{"a":1,}"#), Err(JsonError::ExpectedKey));
}

#[test]
fn trailing_comma_in_array_is_rejected() {
    assert_eq!(
        parse("[1,]"),
        Err(JsonError::UnexpectedToken { found: Token::RightBracket, pos: 3 })
    );
}

#[test]
fn duplicate_keys_last_wins() {
    let value = parse(r#"{"a":1,"a":2}"#).unwrap();
    let object = value.as_object().unwrap();
    assert_eq!(object.len(), 1);
    assert_eq!(object.get("a"), Some(&num(false, 2, 0)));
    assert_eq!(object.get("b"), None);
}

#[test]
fn duplicate_key_keeps_first_place() {
    let value = parse(r#"{"a":1,"b":2,"a":3}"#).unwrap();
    let expected = JsonValue::Object(Object(vec![
        ("a".to_string(), num(false, 3, 0)),
        ("b".to_string(), num(false, 2, 0)),
    ]));
    assert_eq!(value, expected);
}

#[test]
fn numbers_have_exact_values() {
    assert_eq!(parse("1e10"), Ok(num(false, 1, 10)));
    assert_eq!(parse("-0.5"), Ok(num(true, 5, -1)));
    assert_eq!(parse("0"), Ok(num(false, 0, 0)));
    assert_eq!(parse("-0"), Ok(num(true, 0, 0)));
    assert_eq!(parse("3.141592653589793"), Ok(num(false, 3141592653589793, -15)));
    assert_eq!(parse("2.5e-3"), Ok(num(false, 25, -4)));
    assert_eq!(parse("1E+5"), Ok(num(false, 1, 5)));
    assert_eq!(parse("120.50"), Ok(num(false, 12050, -2)));
    assert_eq!(parse("18446744073709551615"), Ok(num(false, u64::MAX, 0)));
}

#[test]
fn malformed_numbers_are_rejected() {
    for input in ["01", "1.", ".1", "1e", "1.2.3", "-", "1e+", "--1", "1ee5", "0x10", "1.e5"] {
        let err = lex_error(input);
        if input == "0x10" {
            assert_eq!(err, LexError { kind: LexErrorKind::UnexpectedCharacter, pos: 1 });
        } else {
            assert_eq!(err, LexError { kind: LexErrorKind::InvalidNumberLiteral, pos: 0 });
        }
    }
    assert_eq!(
        lex_error("[1, 02]"),
        LexError { kind: LexErrorKind::InvalidNumberLiteral, pos: 4 }
    );
}

#[test]
fn numbers_out_of_range() {
    assert_eq!(parse("18446744073709551616"), Err(JsonError::NumberOutOfRange));
    assert_eq!(parse("1.8446744073709551616"), Err(JsonError::NumberOutOfRange));
    assert_eq!(parse("1e9223372036854775808"), Err(JsonError::NumberOutOfRange));
    assert_eq!(parse("1e9223372036854775807"), Ok(num(false, 1, i64::MAX)));
    assert_eq!(parse("1e-9223372036854775807"), Ok(num(false, 1, -i64::MAX)));
    assert_eq!(parse("1.5e-9223372036854775807"), Ok(num(false, 15, i64::MIN)));
    assert_eq!(parse("1.55e-9223372036854775807"), Err(JsonError::NumberOutOfRange));
    assert_eq!(parse("1e99999999999999999999999"), Err(JsonError::NumberOutOfRange));
}

#[test]
fn number_token_must_hold_a_literal() {
    let parser = Parser::new(vec![Token::Number("1.".to_string())]);
    assert_eq!(parser.parse(), Err(JsonError::InvalidLiteral));
    let parser = Parser::new(vec![Token::Number(String::new())]);
    assert_eq!(parser.parse(), Err(JsonError::InvalidLiteral));
    let parser = Parser::new(vec![Token::Number("12".to_string())]);
    assert_eq!(parser.parse(), Ok(num(false, 12, 0)));
}

#[test]
fn escaped_newline_is_one_character() {
    let tokens = tokenize(r#""a\nb""#).unwrap();
    assert_eq!(tokens, vec![Token::String("a\nb".to_string())]);
    match &tokens[0] {
        Token::String(s) => assert_eq!(s.chars().count(), 3),
        _ => panic!("Expected String token"),
    }
}

#[test]
fn all_simple_escapes() {
    let tokens = tokenize(r#""\"\\\/\b\f\n\r\t""#).unwrap();
    assert_eq!(tokens, vec![Token::String("\"\\/\u{8}\u{c}\n\r\t".to_string())]);
}

#[test]
fn unicode_escapes() {
    assert_eq!(tokenize(r#""\u0041""#).unwrap(), vec![Token::String("A".to_string())]);
    assert_eq!(tokenize(r#""\u00e9\u00E9""#).unwrap(), vec![Token::String("\u{e9}\u{e9}".to_string())]);
    assert_eq!(tokenize(r#""\ufFfF""#).unwrap(), vec![Token::String("\u{ffff}".to_string())]);
    assert_eq!(tokenize(r#""\u0000""#).unwrap(), vec![Token::String("\u{0}".to_string())]);
    assert_eq!(tokenize(r#""\uD7FF\uE000""#).unwrap(), vec![Token::String("\u{d7ff}\u{e000}".to_string())]);
}

#[test]
fn surrogate_pair_is_one_scalar() {
    let tokens = tokenize(r#""\uD83D\uDE00""#).unwrap();
    assert_eq!(tokens, vec![Token::String("\u{1F600}".to_string())]);
    let tokens = tokenize(r#""\uD800\uDC00""#).unwrap();
    assert_eq!(tokens, vec![Token::String("\u{10000}".to_string())]);
    let tokens = tokenize(r#""a\udbff\udfffb""#).unwrap();
    assert_eq!(tokens, vec![Token::String("a\u{10FFFF}b".to_string())]);
    match &tokens[0] {
        Token::String(s) => assert_eq!(s.chars().count(), 3),
        _ => panic!("Expected String token"),
    }
}

#[test]
fn bad_escapes() {
    for input in [
        r#""\x""#,
        r#""\u12""#,
        r#""\u12G4""#,
        r#""\uD83D""#,
        r#""\uD83Dabc""#,
        r#""\uD83D\n""#,
        r#""\uD83D\u0041""#,
        r#""\uDE00""#,
        r#""\"#,
    ] {
        assert_eq!(lex_error(input), LexError { kind: LexErrorKind::InvalidEscape, pos: 1 });
    }
    assert_eq!(
        lex_error(r#"["ab\q"]"#),
        LexError { kind: LexErrorKind::InvalidEscape, pos: 4 }
    );
}

#[test]
fn unterminated_string() {
    assert_eq!(lex_error(r#""abc"#), LexError { kind: LexErrorKind::UnterminatedString, pos: 4 });
    assert_eq!(lex_error(r#"""#), LexError { kind: LexErrorKind::UnterminatedString, pos: 1 });
    assert_eq!(
        lex_error(r#"{"a": "b\""#),
        LexError { kind: LexErrorKind::UnterminatedString, pos: 10 }
    );
}

#[test]
fn invalid_keywords() {
    assert_eq!(lex_error("tru"), LexError { kind: LexErrorKind::InvalidKeyword, pos: 0 });
    assert_eq!(lex_error("True"), LexError { kind: LexErrorKind::UnexpectedCharacter, pos: 0 });
    assert_eq!(lex_error("nul"), LexError { kind: LexErrorKind::InvalidKeyword, pos: 0 });
    assert_eq!(lex_error("fals"), LexError { kind: LexErrorKind::InvalidKeyword, pos: 0 });
    assert_eq!(lex_error("[tRue]"), LexError { kind: LexErrorKind::InvalidKeyword, pos: 1 });
    assert_eq!(lex_error("nope"), LexError { kind: LexErrorKind::InvalidKeyword, pos: 0 });
}

#[test]
fn unexpected_characters() {
    assert_eq!(lex_error("@"), LexError { kind: LexErrorKind::UnexpectedCharacter, pos: 0 });
    assert_eq!(lex_error("[1, #]"), LexError { kind: LexErrorKind::UnexpectedCharacter, pos: 4 });
    assert_eq!(lex_error("+1"), LexError { kind: LexErrorKind::UnexpectedCharacter, pos: 0 });
    assert_eq!(lex_error("'a'"), LexError { kind: LexErrorKind::UnexpectedCharacter, pos: 0 });
}

#[test]
fn error_position_is_a_byte_offset() {
    // "\u{e9}" takes two bytes and "\u{1F600}" four, so the `?` stands at byte 11.
    let input = "[\"\u{e9}\u{1F600}\", ?]";
    assert_eq!(lex_error(input), LexError { kind: LexErrorKind::UnexpectedCharacter, pos: 11 });
    assert_eq!(&input[11..12], "?");
    let input = "\"\u{e9}\u{1F600}";
    assert_eq!(lex_error(input), LexError { kind: LexErrorKind::UnterminatedString, pos: 7 });
}

#[test]
fn non_ascii_text_is_kept() {
    let tokens = tokenize("\"\u{e9}\u{1F600}\"").unwrap();
    assert_eq!(tokens, vec![Token::String("\u{e9}\u{1F600}".to_string())]);
}

#[test]
fn carriage_return_is_whitespace() {
    assert_eq!(tokenize("\r\n[\r\n]\r\n").unwrap(), vec![Token::LeftBracket, Token::RightBracket]);
}

#[test]
fn lexer_tokens_and_into_tokens_agree() {
    let lexer = Lexer::new("[true, null]").unwrap();
    let expected =
        vec![Token::LeftBracket, Token::True, Token::Comma, Token::Null, Token::RightBracket];
    assert_eq!(lexer.tokens(), &expected);
    assert_eq!(lexer.into_tokens(), expected);
    assert_eq!(
        Lexer::new("[tru]").unwrap_err(),
        LexError { kind: LexErrorKind::InvalidKeyword, pos: 1 }
    );
}

#[test]
fn match_keyword_at_index() {
    let chars: Vec<char> = "[null]".chars().collect();
    assert!(Lexer::match_keyword(&chars, 1, "null"));
    assert!(!Lexer::match_keyword(&chars, 0, "null"));
    assert!(!Lexer::match_keyword(&chars, 3, "null"));
    assert!(!Lexer::match_keyword(&chars, 1, "nulls"));
    assert!(Lexer::match_keyword(&chars, 6, ""));
}

#[test]
fn depth_under_limit_parses() {
    for limit in 1..6usize {
        for depth in 1..8usize {
            let result = parse_with_max_depth(&nested_arrays(depth), limit);
            if depth < limit {
                let mut expected = JsonValue::Array(Array(vec![]));
                for _ in 1..depth {
                    expected = JsonValue::Array(Array(vec![expected]));
                }
                assert_eq!(result, Ok(expected));
            } else {
                assert_eq!(result, Err(JsonError::NestingTooDeep));
            }
        }
    }
}

#[test]
fn default_depth_limit() {
    assert_eq!(DEFAULT_MAX_DEPTH, 128);
    assert!(parse(&nested_arrays(127)).is_ok());
    assert_eq!(parse(&nested_arrays(128)), Err(JsonError::NestingTooDeep));
    assert_eq!(parse_with_max_depth("[]", 0), Err(JsonError::NestingTooDeep));
    assert_eq!(parse_with_max_depth("1", 0), Ok(num(false, 1, 0)));
}

#[test]
fn objects_count_towards_depth() {
    assert!(parse_with_max_depth(r#"{"a":[{"b":1}]}"#, 4).is_ok());
    assert_eq!(parse_with_max_depth(r#"{"a":[{"b":1}]}"#, 3), Err(JsonError::NestingTooDeep));
    assert!(parse_with_max_depth(r#"[[],[],{"a":[]}]"#, 4).is_ok());
}

#[test]
fn syntax_errors() {
    assert_eq!(parse("{"), Err(JsonError::ExpectedKey));
    assert_eq!(parse("["), Err(JsonError::UnexpectedEof));
    assert_eq!(parse("[1"), Err(JsonError::ExpectedCommaOrEnd));
    assert_eq!(parse("[1,"), Err(JsonError::UnexpectedEof));
    assert_eq!(parse(r#"{"a""#), Err(JsonError::ExpectedColon));
    assert_eq!(parse(r#"{"a":"#), Err(JsonError::UnexpectedEof));
    assert_eq!(parse(r#"{"a":1"#), Err(JsonError::ExpectedCommaOrEnd));
    assert_eq!(parse(r#"{"a":1,"#), Err(JsonError::ExpectedKey));
    assert_eq!(parse("{1:2}"), Err(JsonError::ExpectedKey));
    assert_eq!(parse("{,}"), Err(JsonError::ExpectedKey));
    assert_eq!(parse(r#"{"a" 1}"#), Err(JsonError::ExpectedColon));
    assert_eq!(parse(r#"{"a","b"}"#), Err(JsonError::ExpectedColon));
    assert_eq!(parse(r#"{"a":1 "b":2}"#), Err(JsonError::ExpectedCommaOrEnd));
    assert_eq!(parse("[1 2]"), Err(JsonError::ExpectedCommaOrEnd));
    assert_eq!(parse("[1}"), Err(JsonError::ExpectedCommaOrEnd));
    assert_eq!(parse(r#"{"a":1]"#), Err(JsonError::ExpectedCommaOrEnd));
    assert_eq!(parse("]"), Err(JsonError::UnexpectedToken { found: Token::RightBracket, pos: 0 }));
    assert_eq!(parse(":"), Err(JsonError::UnexpectedToken { found: Token::Colon, pos: 0 }));
    assert_eq!(parse("[,1]"), Err(JsonError::UnexpectedToken { found: Token::Comma, pos: 1 }));
    assert_eq!(
        parse(r#"{"a":}"#),
        Err(JsonError::UnexpectedToken { found: Token::RightBrace, pos: 5 })
    );
}

#[test]
fn unexpected_token_position() {
    // From text the position is the byte offset of the token.
    let input = "[ \"\u{e9}\u{1F600}\" ,\n  , 1 ]";
    assert_eq!(&input[15..16], ",");
    assert_eq!(
        parse(input),
        Err(JsonError::UnexpectedToken { found: Token::Comma, pos: 15 })
    );
    // From tokens it is the index of the token.
    let tokens = tokenize(input).unwrap();
    assert_eq!(
        Parser::new(tokens).parse(),
        Err(JsonError::UnexpectedToken { found: Token::Comma, pos: 3 })
    );
    assert_eq!(
        parse("  [1,  ]"),
        Err(JsonError::UnexpectedToken { found: Token::RightBracket, pos: 7 })
    );
}

fn write_text(s: &str, out: &mut String) {
    out.push('"');
    for c in s.chars() {
        match c {
            '"' => out.push_str("\\\""),
            '\\' => out.push_str("\\\\"),
            '\n' => out.push_str("\\n"),
            '\t' => out.push_str("\\t"),
            c if (c as u32) < 0x20 || (c as u32) > 0xFFFF => {
                let mut units = [0u16; 2];
                for unit in c.encode_utf16(&mut units) {
                    out.push_str(&format!("\\u{:04x}", unit));
                }
            }
            c => out.push(c),
        }
    }
    out.push('"');
}

fn write_value(v: &JsonValue, out: &mut String) {
    match v {
        JsonValue::Null => out.push_str("null"),
        JsonValue::Boolean(b) => out.push_str(if *b { "true" } else { "false" }),
        JsonValue::Number(n) => {
            if n.negative {
                out.push('-');
            }
            if n.exponent == i64::MIN {
                out.push_str(&format!("{}.0e{}", n.mantissa / 10, n.exponent + 1));
            } else {
                out.push_str(&format!("{}e{}", n.mantissa, n.exponent));
            }
        }
        JsonValue::String(s) => write_text(s, out),
        JsonValue::Array(a) => {
            out.push('[');
            for (i, item) in a.0.iter().enumerate() {
                if i > 0 {
                    out.push(',');
                }
                write_value(item, out);
            }
            out.push(']');
        }
        JsonValue::Object(o) => {
            out.push('{');
            for (i, (key, value)) in o.0.iter().enumerate() {
                if i > 0 {
                    out.push_str(", ");
                }
                write_text(key, out);
                out.push(':');
                write_value(value, out);
            }
            out.push('}');
        }
    }
}

fn sample_value() -> JsonValue {
    JsonValue::Object(Object(vec![
        ("".to_string(), JsonValue::Null),
        ("k\"1\\".to_string(), num(true, 0, 0)),
        (
            "list".to_string(),
            JsonValue::Array(Array(vec![
                num(false, u64::MAX, i64::MAX),
                num(true, 125, -2),
                num(false, 7, -i64::MAX),
                text("line\nbreak\ttab \u{1} \u{e9} \u{1F600}"),
                JsonValue::Boolean(true),
                JsonValue::Boolean(false),
                JsonValue::Array(Array(vec![])),
                JsonValue::Object(Object(vec![])),
            ])),
        ),
        ("o".to_string(), JsonValue::Object(Object(vec![("o".to_string(), text(""))]))),
    ]))
}

#[test]
fn written_value_parses_as_itself() {
    let value = sample_value();
    let mut written = String::new();
    write_value(&value, &mut written);
    assert_eq!(parse(&written), Ok(value));
}

#[test]
fn parse_write_parse_is_stable() {
    let input = r#" { "b" : [ 1.50, -0, 2E3, "x" ], "a" : { "b" : null }, "b" : [ true ] } "#;
    let first = parse(input).unwrap();
    let mut written = String::new();
    write_value(&first, &mut written);
    assert_eq!(parse(&written), Ok(first));
}

#[test]
fn first_error_wins() {
    assert_eq!(
        parse("[1, 01, }"),
        Err(JsonError::Lex(LexError { kind: LexErrorKind::InvalidNumberLiteral, pos: 4 }))
    );
    assert_eq!(parse("[1 2,]"), Err(JsonError::ExpectedCommaOrEnd));
}

#[test]
fn literals_and_empty_containers() {
    assert_eq!(parse("true"), Ok(JsonValue::Boolean(true)));
    assert_eq!(parse("false"), Ok(JsonValue::Boolean(false)));
    assert_eq!(parse("null"), Ok(JsonValue::Null));
    assert_eq!(parse(r#""""#), Ok(text("")));
    assert_eq!(parse("[]"), Ok(JsonValue::Array(Array(vec![]))));
    assert_eq!(parse("{}"), Ok(JsonValue::Object(Object(vec![]))));
    assert_eq!(parse(" [ { } , [ ] ] "), Ok(JsonValue::Array(Array(vec![
        JsonValue::Object(Object(vec![])),
        JsonValue::Array(Array(vec![])),
    ]))));
}

#[test]
fn array_keeps_order() {
    let value = parse(r#"[3, "a", null, true, [false]]"#).unwrap();
    let array = value.as_array().unwrap();
    assert_eq!(array.len(), 5);
    assert_eq!(array.get(0), Some(&num(false, 3, 0)));
    assert_eq!(array.get(1), Some(&text("a")));
    assert_eq!(array.get(2), Some(&JsonValue::Null));
    assert_eq!(array.get(3), Some(&JsonValue::Boolean(true)));
    assert_eq!(array.get(4), Some(&JsonValue::Array(Array(vec![JsonValue::Boolean(false)]))));
    assert_eq!(array.get(5), None);
}

#[test]
fn nested_object_members() {
    let value = parse(r#"{"outer": {"inner": 123}, "list": [{"k": "v"}]}"#).unwrap();
    let outer = value.as_object().unwrap().get("outer").unwrap();
    assert_eq!(outer.as_object().unwrap().get("inner"), Some(&num(false, 123, 0)));
    let list = value.as_object().unwrap().get("list").unwrap().as_array().unwrap();
    assert_eq!(list.get(0).unwrap().as_object().unwrap().get("k"), Some(&text("v")));
}

#[test]
fn kind_and_extraction() {
    let value = parse(r#"[{}, [], "s", 1, true, null]"#).unwrap();
    let items = value.as_array().unwrap();
    let kinds: Vec<ValueKind> = (0..6).map(|i| items.get(i).unwrap().kind()).collect();
    assert_eq!(
        kinds,
        vec![
            ValueKind::Object,
            ValueKind::Array,
            ValueKind::String,
            ValueKind::Number,
            ValueKind::Boolean,
            ValueKind::Null
        ]
    );
    assert_eq!(items.get(2).unwrap().as_string(), Ok(&"s".to_string()));
    assert_eq!(items.get(3).unwrap().as_number(), Ok(Number { negative: false, mantissa: 1, exponent: 0 }));
    assert_eq!(items.get(4).unwrap().as_boolean(), Ok(true));
    assert!(items.get(5).unwrap().is_null());
    assert!(!items.get(4).unwrap().is_null());
    assert_eq!(
        items.get(0).unwrap().as_array().unwrap_err(),
        TypeMismatch { expected: ValueKind::Array, found: ValueKind::Object }
    );
    assert_eq!(
        items.get(1).unwrap().as_object().unwrap_err(),
        TypeMismatch { expected: ValueKind::Object, found: ValueKind::Array }
    );
    assert_eq!(
        items.get(3).unwrap().as_string(),
        Err(TypeMismatch { expected: ValueKind::String, found: ValueKind::Number })
    );
    assert_eq!(
        items.get(2).unwrap().as_number(),
        Err(TypeMismatch { expected: ValueKind::Number, found: ValueKind::String })
    );
    assert_eq!(
        items.get(5).unwrap().as_boolean(),
        Err(TypeMismatch { expected: ValueKind::Boolean, found: ValueKind::Null })
    );
}

#[test]
fn parser_over_handmade_tokens() {
    let tokens = vec![
        Token::LeftBrace,
        Token::String("k".to_string()),
        Token::Colon,
        Token::True,
        Token::RightBrace,
    ];
    let parser = Parser::with_max_depth(tokens, 2);
    assert_eq!(parser.max_depth, 2);
    assert_eq!(
        parser.parse(),
        Ok(JsonValue::Object(Object(vec![("k".to_string(), JsonValue::Boolean(true))])))
    );
    assert_eq!(Parser::new(vec![]).parse(), Err(JsonError::UnexpectedEof));
    assert_eq!(Parser::new(vec![Token::Null]).max_depth, DEFAULT_MAX_DEPTH);
}

#[test]
fn productions_return_the_next_index() {
    let tokens = tokenize(r#"[1, {"a": "b"}] true"#).unwrap();
    let (value, next) = Parser::parse_value(&tokens, 0, 5).unwrap();
    assert_eq!(next, 9);
    assert_eq!(value.as_array().unwrap().len(), 2);
    let (inner, next) = Parser::parse_object(&tokens, 3, 1).unwrap();
    assert_eq!(next, 8);
    assert_eq!(inner.as_object().unwrap().get("a"), Some(&text("b")));
    assert_eq!(Parser::parse_array(&tokens, 0, 1), Err(JsonError::NestingTooDeep));
    assert_eq!(Parser::parse_value(&tokens, 9, 0), Ok((JsonValue::Boolean(true), 10)));
    assert_eq!(Parser::parse_value(&tokens, 10, 0), Err(JsonError::UnexpectedEof));
    assert_eq!(Parser::parse_string(&tokens, 6), text("b"));
    assert_eq!(Parser::parse_boolean(&tokens, 9), JsonValue::Boolean(true));
    assert_eq!(Parser::parse_number(&tokens, 1), Ok(num(false, 1, 0)));
}

#[test]
fn reparsing_written_text_gives_the_same_value() {
    let first = parse(r#"{ "a" : [ 1 , 2.50 , "x\ty" ] , "b" : { } , "a" : null }"#).unwrap();
    let second = parse(r#"{"a":null,"b":{}}"#).unwrap();
    assert_eq!(first, second);
}
