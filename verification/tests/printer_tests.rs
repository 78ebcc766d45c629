use minijson::lexer::Lexer;
use minijson::lexer::Token;
use minijson::parser::Parser;
use minijson::printer::JsonPrinter;

#[test]
fn test_print_json() {
    let json = r#"3.14"#;
    let value = Parser::new(Lexer::new(json).tokenize().unwrap())
        .parse()
        .unwrap();
    let out = JsonPrinter::print_json(&value);
    assert_eq!(out, "3.14\n");

    let json = r#""Hello, world.""#;
    let value = Parser::new(Lexer::new(json).tokenize().unwrap())
        .parse()
        .unwrap();
    let out = JsonPrinter::print_json(&value);
    assert_eq!(out, "\"Hello, world.\"\n");

    let json = r#"
        {
            "num": 2.71828,
            "name": "exponential"
        }
        "#;
    let value = Parser::new(Lexer::new(json).tokenize().unwrap())
        .parse()
        .unwrap();
    let out = JsonPrinter::print_json(&value);
    assert_eq!(
        out,
        "{\n  \"num\": 2.71828,\n  \"name\": \"exponential\",\n}\n"
    );

    let json = r#"
        {
            "num": 2.71828,
            "name": "exponential",
            "other": {
                "num": 3.14,
                "name": "pi"
            }
        }
        "#;
    let value = Parser::new(Lexer::new(json).tokenize().unwrap())
        .parse()
        .unwrap();
    let out = JsonPrinter::print_json(&value);
    assert!(!out.is_empty());

    let json = r#"
        [
            true,
            false,
            null,
            3.14
        ]
        "#;
    let value = Parser::new(Lexer::new(json).tokenize().unwrap())
        .parse()
        .unwrap();
    let out = JsonPrinter::print_json(&value);
    assert_eq!(out, "[\n  true,\n  false,\n  null,\n  3.14,\n]\n");

    let json = r#"
        {
            "num": 2.71828,
            "name": [true, false, null, 3.14],
            "other": {
                "num": 3.14,
                "name": "pi"
            }
        }
        "#;
    let value = Parser::new(Lexer::new(json).tokenize().unwrap())
        .parse()
        .unwrap();
    let out = JsonPrinter::print_json(&value);
    assert!(!out.is_empty());
}

#[test]
fn nested_structures_indent_two_spaces_per_level() {
    let value = Parser::new(Lexer::new("{\"a\":{\"b\":[null]}}").tokenize().unwrap())
        .parse()
        .unwrap();
    let out = JsonPrinter::print_json(&value);
    assert_eq!(
        out,
        "{\n  \"a\": {\n    \"b\": [\n      null,\n    ],\n  },\n}\n"
    );
}

#[test]
fn printed_string_scans_back_to_itself() {
    // the decoded text keeps its escape pairs verbatim, so printing it and
    // scanning the printed text yields the same string token again
    let doc = r#"" \b \f \n \r \t \/ \" x""#;
    let tokens = Lexer::new(doc).tokenize().unwrap();
    let value = Parser::new(tokens.clone()).parse().unwrap();
    let printed = JsonPrinter::print_json(&value);
    let again = Lexer::new(&printed).tokenize().unwrap();
    assert_eq!(tokens, again);
}

#[test]
fn printed_emoji_string_scans_back_to_itself() {
    let doc = r#""\uD83D\uDE04\uD83D\uDE07\uD83D\uDC7A""#;
    let value = Parser::new(Lexer::new(doc).tokenize().unwrap()).parse().unwrap();
    let printed = JsonPrinter::print_json(&value);
    let again = Lexer::new(&printed).tokenize().unwrap();
    assert_eq!(again[0], Token::String("😄😇👺".to_string()));
}
