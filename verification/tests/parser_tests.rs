use json_parser::parse;
use json_parser::parser::ParseErrorKind;
use json_parser::tokenize;
use json_parser::Json;
use json_parser::ParseError;
use json_parser::Token;
use json_parser::TokenType;

fn parse_text(input: &str) -> Result<Json, ParseError> {
    let tokens = tokenize(input).unwrap();
    parse(tokens)
}

#[test]
fn test_parse_null() {
    assert_eq!(parse_text("null"), Ok(Json::Null));
}

#[test]
fn test_parse_true() {
    assert_eq!(parse_text("true"), Ok(Json::Boolean(true)));
}

#[test]
fn test_parse_false() {
    assert_eq!(parse_text("false"), Ok(Json::Boolean(false)));
}

#[test]
fn test_parse_empty_list() {
    assert_eq!(parse_text("[]"), Ok(Json::Array(vec![])));
}

#[test]
fn test_parse_string() {
    assert_eq!(
        parse_text("\"hello world\""),
        Ok(Json::String("hello world".to_owned()))
    );
}

#[test]
fn test_parse_list_with_bool() {
    assert_eq!(
        parse_text("[false]"),
        Ok(Json::Array(vec![Json::Boolean(false)]))
    );
}

#[test]
fn test_parse_list_with_null() {
    assert_eq!(parse_text("[null]"), Ok(Json::Array(vec![Json::Null])));
}

#[test]
fn test_parse_list_with_mixed() {
    assert_eq!(
        parse_text("[1,2,3,false]"),
        Ok(Json::Array(vec![
            Json::Integer(1),
            Json::Integer(2),
            Json::Integer(3),
            Json::Boolean(false),
        ]))
    );
}

#[test]
fn test_parse_list_nested() {
    assert_eq!(
        parse_text("[[1],null]"),
        Ok(Json::Array(vec![
            Json::Array(vec![Json::Integer(1)]),
            Json::Null,
        ]))
    );
}

#[test]
fn test_parse_dict_empty() {
    assert_eq!(parse_text("{}"), Ok(Json::Object(vec![])));
}

#[test]
fn test_parse_dict_one_item() {
    assert_eq!(
        parse_text("{\"foo\": 1337}"),
        Ok(Json::Object(vec![("foo".to_owned(), Json::Integer(1337))]))
    );
}

#[test]
fn test_parse_dict_two_items() {
    assert_eq!(
        parse_text("{\"foo\": 1337, \"bar\": [69]}"),
        Ok(Json::Object(vec![
            ("foo".to_owned(), Json::Integer(1337)),
            ("bar".to_owned(), Json::Array(vec![Json::Integer(69)])),
        ]))
    );
}

#[test]
fn test_parse_extra_input() {
    assert_eq!(
        parse_text("truefalse"),
        Err(ParseError {
            offset: 1,
            kind: ParseErrorKind::UnexpectedExtraInput,
        })
    );
}

#[test]
fn test_parse_object_fail_1() {
    assert_eq!(
        parse_text("{"),
        Err(ParseError {
            offset: 1,
            kind: ParseErrorKind::UnexpectedEndOfInput,
        })
    );
}

#[test]
fn test_parse_object_fail_2() {
    assert_eq!(
        parse_text("{\"some key\""),
        Err(ParseError {
            offset: 2,
            kind: ParseErrorKind::UnexpectedEndOfInput,
        })
    );
}

#[test]
fn test_parse_object_fail_3() {
    assert_eq!(
        parse_text("{\"some key\":"),
        Err(ParseError {
            offset: 3,
            kind: ParseErrorKind::UnexpectedEndOfInput,
        })
    );
}

#[test]
fn test_parse_object_fail_4() {
    assert_eq!(
        parse_text("{\"some key\":\"some value\""),
        Err(ParseError {
            offset: 4,
            kind: ParseErrorKind::UnexpectedEndOfInput,
        })
    );
}

#[test]
fn test_parse_object_fail_5() {
    assert_eq!(
        parse_text("{\"some key\":\"some value\" 3"),
        Err(ParseError {
            offset: 4,
            kind: ParseErrorKind::UnexpectedTokenInObject("3".to_owned()),
        })
    );
}

#[test]
fn test_parse_object_fail_6() {
    assert_eq!(
        parse_text("{3:\"some value\""),
        Err(ParseError {
            offset: 1,
            kind: ParseErrorKind::CannotParseAsString("3".to_owned()),
        })
    );
}

#[test]
fn test_parse_object_fail_7() {
    assert_eq!(
        parse_text("{\"some key\" 3"),
        Err(ParseError {
            offset: 2,
            kind: ParseErrorKind::UnexpectedTokenInObject("3".to_owned()),
        })
    );
}

#[test]
fn test_parse_object_fail_8() {
    assert_eq!(
        parse_text("{3"),
        Err(ParseError {
            offset: 1,
            kind: ParseErrorKind::CannotParseAsString("3".to_owned()),
        })
    );
}

#[test]
fn test_parse_array_fail_1() {
    assert_eq!(
        parse_text("["),
        Err(ParseError {
            offset: 1,
            kind: ParseErrorKind::UnexpectedEndOfInput,
        })
    );
}

#[test]
fn test_parse_array_fail_2() {
    assert_eq!(
        parse_text("[3"),
        Err(ParseError {
            offset: 2,
            kind: ParseErrorKind::UnexpectedEndOfInput,
        })
    );
}

#[test]
fn test_parse_array_fail_3() {
    assert_eq!(
        parse_text("[3,"),
        Err(ParseError {
            offset: 3,
            kind: ParseErrorKind::UnexpectedEndOfInput,
        })
    );
}

#[test]
fn test_parse_array_fail_4() {
    assert_eq!(
        parse_text("[3 5"),
        Err(ParseError {
            offset: 2,
            kind: ParseErrorKind::UnexpectedTokenInArray("5".to_owned()),
        })
    );
}

#[test]
fn test_parse_empty() {
    assert_eq!(
        parse_text(""),
        Err(ParseError {
            offset: 0,
            kind: ParseErrorKind::UnexpectedEndOfInput,
        })
    );
}

#[test]
fn test_parse_int_fail() {
    assert_eq!(
        parse_text("2222222222222222222222222"),
        Err(ParseError {
            offset: 0,
            kind: ParseErrorKind::CannotParseAsNumber("2222222222222222222222222".to_owned()),
        })
    );
}

#[test]
fn test_parse_stray_token() {
    assert_eq!(
        parse_text("}"),
        Err(ParseError {
            offset: 0,
            kind: ParseErrorKind::FoundUnexpectedToken("}".to_owned()),
        })
    );
}

#[test]
fn test_parse_duplicate_keys_last_wins() {
    assert_eq!(
        parse_text("{\"a\":1,\"a\":2}"),
        Ok(Json::Object(vec![("a".to_owned(), Json::Integer(2))]))
    );
}

#[test]
fn test_parse_duplicate_keys_keep_first_place() {
    assert_eq!(
        parse_text("{\"a\":1,\"b\":2,\"a\":3}"),
        Ok(Json::Object(vec![
            ("a".to_owned(), Json::Integer(3)),
            ("b".to_owned(), Json::Integer(2)),
        ]))
    );
}

#[test]
fn test_parse_i32_boundaries() {
    assert_eq!(parse_text("2147483647"), Ok(Json::Integer(2147483647)));
    assert_eq!(parse_text("-2147483648"), Ok(Json::Integer(i32::MIN)));
    assert_eq!(
        parse_text("2147483648"),
        Err(ParseError {
            offset: 0,
            kind: ParseErrorKind::CannotParseAsNumber("2147483648".to_owned()),
        })
    );
    assert_eq!(
        parse_text("-2147483649"),
        Err(ParseError {
            offset: 0,
            kind: ParseErrorKind::CannotParseAsNumber("-2147483649".to_owned()),
        })
    );
}

#[test]
fn test_parse_fraction_and_exponent_rejected_as_integer() {
    assert_eq!(
        parse_text("3.1415926"),
        Err(ParseError {
            offset: 0,
            kind: ParseErrorKind::CannotParseAsNumber("3.1415926".to_owned()),
        })
    );
    assert_eq!(
        parse_text("[1e3]"),
        Err(ParseError {
            offset: 1,
            kind: ParseErrorKind::CannotParseAsNumber("1e3".to_owned()),
        })
    );
}

#[test]
fn test_parse_empty_string_value() {
    assert_eq!(parse_text("\"\""), Ok(Json::String("".to_owned())));
}

#[test]
fn test_parse_no_escape_decoding() {
    // quote-stripping is verbatim: a backslash stays a backslash
    assert_eq!(
        parse_text("\"a\\n\""),
        Ok(Json::String("a\\n".to_owned()))
    );
}

#[test]
fn test_parse_whitespace_only_is_empty_input() {
    assert_eq!(
        parse_text("  \n\t "),
        Err(ParseError {
            offset: 0,
            kind: ParseErrorKind::UnexpectedEndOfInput,
        })
    );
}

#[test]
fn test_parse_deterministic() {
    let input = "{\"a\": [1, 2, null], \"b\": \"x\"}";
    assert_eq!(parse_text(input), parse_text(input));
    let broken = "[1,";
    assert_eq!(parse_text(broken), parse_text(broken));
}

#[test]
fn test_parse_hand_built_tokens() {
    // parse works on any token sequence, not only the tokenizer's output;
    // a plus-signed number is outside the chosen integer form
    let tokens = vec![Token::new(TokenType::Number, "+5", 0)];
    assert_eq!(
        parse(tokens),
        Err(ParseError {
            offset: 0,
            kind: ParseErrorKind::CannotParseAsNumber("+5".to_owned()),
        })
    );

    let tokens = vec![
        Token::new(TokenType::ArrayStart, "[", 0),
        Token::new(TokenType::Whitespace, "   ", 1),
        Token::new(TokenType::Number, "1", 4),
        Token::new(TokenType::ArrayEnd, "]", 5),
    ];
    assert_eq!(parse(tokens), Ok(Json::Array(vec![Json::Integer(1)])));
}

#[test]
fn test_parse_error_messages() {
    assert_eq!(
        parse_text("[").unwrap_err().message(),
        "Unexpected end of input"
    );
    assert_eq!(
        parse_text("truefalse").unwrap_err().message(),
        "Unexpected extra input found"
    );
    assert_eq!(
        parse_text("[3 5").unwrap_err().message(),
        "Unexpected token `5` in array"
    );
    assert_eq!(
        parse_text("{\"k\" 3").unwrap_err().message(),
        "Unexpected token `3` in object"
    );
    assert_eq!(
        parse_text("{3").unwrap_err().message(),
        "Cannot parse `3` as string"
    );
    assert_eq!(
        parse_text("3.5").unwrap_err().message(),
        "Cannot parse `3.5` as integer"
    );
    assert_eq!(
        parse_text("}").unwrap_err().message(),
        "Found unexpected token `}`"
    );
}
