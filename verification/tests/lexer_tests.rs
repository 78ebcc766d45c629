use minijson::lexer::Lexer;
use minijson::lexer::Token;

/// The numeric value of a number token: its numeral text read as a double.
fn num_of(t: &Token) -> f64 {
    match t {
        Token::Number(s) => s.parse::<f64>().unwrap(),
        _ => panic!("not a number token"),
    }
}

/// Token equality with number tokens compared by their numeric value.
fn same_token(a: &Token, b: &Token) -> bool {
    match (a, b) {
        (Token::Number(x), Token::Number(y)) => {
            x.parse::<f64>().unwrap() == y.parse::<f64>().unwrap()
        }
        _ => a == b,
    }
}

#[test]
fn null_token() {
    let s = "null";
    let tokens = Lexer::new(s).tokenize().unwrap();
    assert_eq!(tokens[0], Token::Null);
}

#[test]
fn bool_token() {
    let b = "true";
    let tokens = Lexer::new(b).tokenize().unwrap();
    assert_eq!(tokens[0], Token::Bool(true));

    let b = "false";
    let tokens = Lexer::new(b).tokenize().unwrap();
    assert_eq!(tokens[0], Token::Bool(false));
}

#[test]
fn number_token() {
    // integer
    let num = "1234567890";
    let tokens = Lexer::new(num).tokenize().unwrap();
    assert_eq!(num_of(&tokens[0]), 1234567890f64);

    let num = "+123";
    let tokens = Lexer::new(num).tokenize().unwrap();
    assert_eq!(num_of(&tokens[0]), 123f64);

    // float
    let num = "-0.001";
    let tokens = Lexer::new(num).tokenize().unwrap();
    assert_eq!(num_of(&tokens[0]), -0.001);

    let num = ".001";
    let tokens = Lexer::new(num).tokenize().unwrap();
    assert_eq!(num_of(&tokens[0]), 0.001);

    // exponent
    let num = "1e-10";
    let tokens = Lexer::new(num).tokenize().unwrap();
    assert_eq!(num_of(&tokens[0]), 0.0000000001);

    let num = "+2E10";
    let tokens = Lexer::new(num).tokenize().unwrap();
    assert_eq!(num_of(&tokens[0]), 20000000000f64);
}

#[test]
fn test_string() {
    let s = "\"togatoga123\"";
    let tokens = Lexer::new(s).tokenize().unwrap();
    assert_eq!(tokens[0], Token::String("togatoga123".to_string()));

    let s = "\"あいうえお\"";
    let tokens = Lexer::new(s).tokenize().unwrap();
    assert_eq!(tokens[0], Token::String("あいうえお".to_string()));

    let s = r#""\u3042\u3044\u3046abc""#; //あいうabc

    let tokens = Lexer::new(s).tokenize().unwrap();
    assert_eq!(tokens[0], Token::String("あいうabc".to_string()));

    let s = format!(r#" " \b \f \n \r \t \/ \" ""#);
    let tokens = Lexer::new(&s).tokenize().unwrap();
    assert_eq!(
        tokens[0],
        Token::String(r#" \b \f \n \r \t \/ \" "#.to_string())
    );

    let s = r#""\uD83D\uDE04\uD83D\uDE07\uD83D\uDC7A""#;
    let tokens = Lexer::new(&s).tokenize().unwrap();
    assert_eq!(tokens[0], Token::String(r#"😄😇👺"#.to_string()));
}

#[test]
fn test_tokenize() {
    let obj = r#"
        {
            "number": 123,
            "boolean": true,
            "string": "togatoga",
            "object": {
               "number": 2E10
            }
         }
         "#;

    // object
    let tokens = Lexer::new(obj).tokenize().unwrap();
    let result_tokens = [
        // start {
        Token::LeftBrace,
        // begin: "number": 123,
        Token::String("number".to_string()),
        Token::Colon,
        Token::Number("123".to_string()),
        Token::Comma,
        // end

        // begin: "boolean": true,
        Token::String("boolean".to_string()),
        Token::Colon,
        Token::Bool(true),
        Token::Comma,
        // end

        // begin: "string": "togatoga",
        Token::String("string".to_string()),
        Token::Colon,
        Token::String("togatoga".to_string()),
        Token::Comma,
        // end

        // begin: "object": {
        Token::String("object".to_string()),
        Token::Colon,
        Token::LeftBrace,
        // begin: "number": 2E10,
        Token::String("number".to_string()),
        Token::Colon,
        Token::Number("2E10".to_string()),
        // end
        Token::RightBrace,
        // end
        Token::RightBrace,
        // end
    ];
    tokens
        .iter()
        .zip(result_tokens.iter())
        .enumerate()
        .for_each(|(i, (x, y))| {
            assert!(same_token(x, y), "index: {}", i);
        });
    assert_eq!(num_of(&tokens[3]), 123f64);
    assert_eq!(num_of(&tokens[18]), 20000000000f64);

    // array
    let a = "[true, {\"キー\": null}]";
    let tokens = Lexer::new(a).tokenize().unwrap();
    let result_tokens = vec![
        Token::LeftBracket,
        Token::Bool(true),
        Token::Comma,
        Token::LeftBrace,
        Token::String("キー".to_string()),
        Token::Colon,
        Token::Null,
        Token::RightBrace,
        Token::RightBracket,
    ];
    tokens
        .iter()
        .zip(result_tokens.iter())
        .for_each(|(x, y)| assert!(same_token(x, y)));
}

#[test]
fn malformed_literal_is_a_lex_error() {
    assert!(Lexer::new("tru3").tokenize().is_err());
    assert!(Lexer::new("fals3").tokenize().is_err());
    assert!(Lexer::new("nul1").tokenize().is_err());
    assert!(Lexer::new("nul").tokenize().is_err());
}

#[test]
fn malformed_numeral_is_a_lex_error() {
    assert!(Lexer::new("+").tokenize().is_err());
    assert!(Lexer::new("1.2.3").tokenize().is_err());
    assert!(Lexer::new("1e").tokenize().is_err());
    assert!(Lexer::new("--5").tokenize().is_err());
    assert!(Lexer::new(".").tokenize().is_err());
}

#[test]
fn trailing_dot_and_exponent_forms_are_accepted() {
    let tokens = Lexer::new("3.").tokenize().unwrap();
    assert_eq!(num_of(&tokens[0]), 3.0);
    let tokens = Lexer::new("1e+5").tokenize().unwrap();
    assert_eq!(num_of(&tokens[0]), 100000f64);
}

#[test]
fn unexpected_char_is_a_lex_error() {
    assert!(Lexer::new("@").tokenize().is_err());
    assert!(Lexer::new("[true, @]").tokenize().is_err());
}

#[test]
fn lone_surrogate_is_a_lex_error() {
    assert!(Lexer::new(r#""\uD800""#).tokenize().is_err());
    assert!(Lexer::new(r#""\uDC00x""#).tokenize().is_err());
    assert!(Lexer::new(r#""\uD83Dabc""#).tokenize().is_err());
}

#[test]
fn escape_without_hex_digits_is_a_lex_error() {
    assert!(Lexer::new(r#""\uZZZZ""#).tokenize().is_err());
}

#[test]
fn non_hex_characters_in_a_unicode_escape_are_dropped() {
    // the escape consumes four characters and keeps the hexadecimal ones
    let tokens = Lexer::new(r#""\u004Bab""#).tokenize().unwrap();
    assert_eq!(tokens[0], Token::String("Kab".to_string()));
    let tokens = Lexer::new(r#""\u0M4Bab""#).tokenize().unwrap();
    assert_eq!(tokens[0], Token::String("Kab".to_string()));
}

#[test]
fn unknown_escape_is_dropped_silently() {
    let tokens = Lexer::new(r#""a\xb""#).tokenize().unwrap();
    assert_eq!(tokens[0], Token::String("ab".to_string()));
}

#[test]
fn unterminated_string_yields_no_token() {
    // end of input inside a string is a clean end of stream, not an error
    let tokens = Lexer::new("\"abc").tokenize().unwrap();
    assert!(tokens.is_empty());
    let tokens = Lexer::new("[ \"abc").tokenize().unwrap();
    assert_eq!(tokens, vec![Token::LeftBracket]);
}

#[test]
fn backslash_at_end_of_input_is_a_lex_error() {
    assert!(Lexer::new("\"a\\").tokenize().is_err());
}

#[test]
fn whitespace_between_tokens_is_stripped() {
    let bare = Lexer::new("{\"a\":null}").tokenize().unwrap();
    let spaced = Lexer::new("  {\n\t \"a\" \u{00A0} : \r\n null \n }  ").tokenize().unwrap();
    assert_eq!(bare, spaced);
    // whitespace inside a string literal is preserved verbatim
    let tokens = Lexer::new("\" a  b \"").tokenize().unwrap();
    assert_eq!(tokens[0], Token::String(" a  b ".to_string()));
}

#[test]
fn empty_input_yields_no_tokens() {
    assert!(Lexer::new("").tokenize().unwrap().is_empty());
    assert!(Lexer::new(" \n\t ").tokenize().unwrap().is_empty());
}
