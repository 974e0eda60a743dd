use json_parser::tokenize;
use json_parser::tokenizer::TokenizeErrorKind;
use json_parser::Token;
use json_parser::TokenType;
use json_parser::TokenizeError;

#[test]
fn test_tokenize_null() {
    assert_eq!(
        tokenize("null"),
        Ok(vec![Token::new(TokenType::Null, "null", 0)])
    );
}

#[test]
fn test_tokenize_true() {
    assert_eq!(
        tokenize("true"),
        Ok(vec![Token::new(TokenType::True, "true", 0)])
    );
}

#[test]
fn test_tokenize_false() {
    assert_eq!(
        tokenize("false"),
        Ok(vec![Token::new(TokenType::False, "false", 0)])
    );
}

#[test]
fn test_tokenize_colon() {
    assert_eq!(tokenize(":"), Ok(vec![Token::new(TokenType::Colon, ":", 0)]));
}

#[test]
fn test_tokenize_array_start() {
    assert_eq!(
        tokenize("["),
        Ok(vec![Token::new(TokenType::ArrayStart, "[", 0)])
    );
}

#[test]
fn test_tokenize_array_end() {
    assert_eq!(
        tokenize("]"),
        Ok(vec![Token::new(TokenType::ArrayEnd, "]", 0)])
    );
}

#[test]
fn test_tokenize_object_start() {
    assert_eq!(
        tokenize("{"),
        Ok(vec![Token::new(TokenType::ObjectStart, "{", 0)])
    );
}

#[test]
fn test_tokenize_object_end() {
    assert_eq!(
        tokenize("}"),
        Ok(vec![Token::new(TokenType::ObjectEnd, "}", 0)])
    );
}

#[test]
fn test_tokenize_comma() {
    assert_eq!(tokenize(","), Ok(vec![Token::new(TokenType::Comma, ",", 0)]));
}

#[test]
fn test_tokenize_number() {
    assert_eq!(
        tokenize("1234"),
        Ok(vec![Token::new(TokenType::Number, "1234", 0)])
    );
}

#[test]
fn test_tokenize_number_negative() {
    assert_eq!(
        tokenize("-1234"),
        Ok(vec![Token::new(TokenType::Number, "-1234", 0)])
    );
}

#[test]
fn test_tokenize_number_decimal() {
    assert_eq!(
        tokenize("3.1415926"),
        Ok(vec![Token::new(TokenType::Number, "3.1415926", 0)])
    );
}

#[test]
fn test_tokenize_number_exponent() {
    assert_eq!(
        tokenize("69234.2423432E78"),
        Ok(vec![Token::new(TokenType::Number, "69234.2423432E78", 0)])
    );
}

#[test]
fn test_tokenize_whitespace() {
    assert_eq!(
        tokenize(" \n\r "),
        Ok(vec![Token::new(TokenType::Whitespace, " \n\r ", 0)])
    );
}

#[test]
fn test_tokenize_string() {
    assert_eq!(
        tokenize("\"Hello world\""),
        Ok(vec![Token::new(TokenType::String, "\"Hello world\"", 0)])
    );
}

#[test]
fn test_tokenize_many() {
    assert_eq!(
        tokenize("123 {} [] , : \"a b\" null\nfalsetrue"),
        Ok(vec![
            Token::new(TokenType::Number, "123", 0),
            Token::new(TokenType::Whitespace, " ", 3),
            Token::new(TokenType::ObjectStart, "{", 4),
            Token::new(TokenType::ObjectEnd, "}", 5),
            Token::new(TokenType::Whitespace, " ", 6),
            Token::new(TokenType::ArrayStart, "[", 7),
            Token::new(TokenType::ArrayEnd, "]", 8),
            Token::new(TokenType::Whitespace, " ", 9),
            Token::new(TokenType::Comma, ",", 10),
            Token::new(TokenType::Whitespace, " ", 11),
            Token::new(TokenType::Colon, ":", 12),
            Token::new(TokenType::Whitespace, " ", 13),
            Token::new(TokenType::String, "\"a b\"", 14),
            Token::new(TokenType::Whitespace, " ", 19),
            Token::new(TokenType::Null, "null", 20),
            Token::new(TokenType::Whitespace, "\n", 24),
            Token::new(TokenType::False, "false", 25),
            Token::new(TokenType::True, "true", 30),
        ])
    );
}

#[test]
fn test_tokenize_broken() {
    assert_eq!(
        tokenize("broken"),
        Err(TokenizeError {
            offset: 0,
            kind: TokenizeErrorKind::UnhandledCharacter,
        })
    );
}

#[test]
fn test_tokenize_unclosed_string() {
    assert_eq!(
        tokenize("\"no closing quote"),
        Err(TokenizeError {
            offset: 0,
            kind: TokenizeErrorKind::UnterminatedString,
        })
    );
}

#[test]
fn test_tokenize_broken_false() {
    assert_eq!(
        tokenize("foo"),
        Err(TokenizeError {
            offset: 0,
            kind: TokenizeErrorKind::ExpectedLiteral("false".to_owned()),
        })
    );
}

#[test]
fn test_tokenize() {
    let cases: Vec<(&str, Result<Vec<Token>, TokenizeError>)> = vec![];

    for case in cases.iter() {
        assert_eq!(tokenize(case.0), case.1)
    }
}

#[test]
fn test_tokenize_adjacent_keywords() {
    assert_eq!(
        tokenize("truetrue"),
        Ok(vec![
            Token::new(TokenType::True, "true", 0),
            Token::new(TokenType::True, "true", 4),
        ])
    );
}

#[test]
fn test_tokenize_broken_null_and_true() {
    assert_eq!(
        tokenize("nil"),
        Err(TokenizeError {
            offset: 0,
            kind: TokenizeErrorKind::ExpectedLiteral("null".to_owned()),
        })
    );
    assert_eq!(
        tokenize("tru"),
        Err(TokenizeError {
            offset: 0,
            kind: TokenizeErrorKind::ExpectedLiteral("true".to_owned()),
        })
    );
}

#[test]
fn test_tokenize_lone_minus_is_malformed() {
    assert_eq!(
        tokenize("-"),
        Err(TokenizeError {
            offset: 0,
            kind: TokenizeErrorKind::MalformedNumber,
        })
    );
    assert_eq!(
        tokenize("-x"),
        Err(TokenizeError {
            offset: 0,
            kind: TokenizeErrorKind::MalformedNumber,
        })
    );
}

#[test]
fn test_tokenize_leading_zero_splits() {
    assert_eq!(
        tokenize("0123"),
        Ok(vec![
            Token::new(TokenType::Number, "0", 0),
            Token::new(TokenType::Number, "123", 1),
        ])
    );
}

#[test]
fn test_tokenize_exponent_needs_digits() {
    // `1e+` scans the number `1`; the bare `e` then begins no token
    assert_eq!(
        tokenize("1e+"),
        Err(TokenizeError {
            offset: 1,
            kind: TokenizeErrorKind::UnhandledCharacter,
        })
    );
    assert_eq!(
        tokenize("1e+5"),
        Ok(vec![Token::new(TokenType::Number, "1e+5", 0)])
    );
}

#[test]
fn test_tokenize_error_after_token() {
    assert_eq!(
        tokenize("null broken"),
        Err(TokenizeError {
            offset: 5,
            kind: TokenizeErrorKind::UnhandledCharacter,
        })
    );
}

#[test]
fn test_tokenize_non_ascii_string_offsets() {
    // offsets and lengths count characters, not bytes
    assert_eq!(
        tokenize("\"héllo\" 1"),
        Ok(vec![
            Token::new(TokenType::String, "\"héllo\"", 0),
            Token::new(TokenType::Whitespace, " ", 7),
            Token::new(TokenType::Number, "1", 8),
        ])
    );
}

#[test]
fn test_tokenize_empty_input() {
    assert_eq!(tokenize(""), Ok(vec![]));
}

#[test]
fn test_tokenize_coverage_concatenation() {
    // concatenating every token's text, whitespace included, reproduces the
    // input exactly
    for input in [
        "123 {} [] , : \"a b\" null\nfalsetrue",
        "{\"foo\": 1337, \"bar\": [69]}",
        " \t\r\n-12.5e+3\"x\"",
        "",
    ] {
        let tokens = tokenize(input).unwrap();
        let mut rebuilt = String::new();
        for token in tokens.iter() {
            rebuilt.push_str(&token.value);
        }
        assert_eq!(rebuilt, input);
    }
}

#[test]
fn test_tokenize_offsets_non_decreasing() {
    let tokens = tokenize("1 2 [true, false] \"s\"").unwrap();
    let mut last = 0;
    for token in tokens.iter() {
        assert!(token.offset >= last);
        last = token.offset;
    }
}

#[test]
fn test_tokenize_deterministic() {
    let input = "{\"a\": [1, 2, null]}";
    assert_eq!(tokenize(input), tokenize(input));
    let broken = "\"open";
    assert_eq!(tokenize(broken), tokenize(broken));
}

#[test]
fn test_token_len_counts_characters() {
    let token = Token::new(TokenType::String, "\"héllo\"", 0);
    assert_eq!(token.len(), 7);
}

#[test]
fn test_tokenize_error_messages() {
    assert_eq!(
        tokenize("foo").unwrap_err().message(),
        "Expected literal `false`"
    );
    assert_eq!(
        tokenize("\"open").unwrap_err().message(),
        "No string-terminating quote found"
    );
    assert_eq!(tokenize("broken").unwrap_err().message(), "Unhandled character");
    assert_eq!(tokenize("-a").unwrap_err().message(), "Cannot parse number");
}
