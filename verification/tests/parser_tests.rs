use minijson::lexer::Lexer;
use minijson::parser::Parser;
use minijson::parser::Value;

/// Lexes and parses a document.
fn parse_doc(text: &str) -> Result<Value, minijson::parser::ParseError> {
    let tokens = Lexer::new(text).tokenize().unwrap();
    Parser::new(tokens).parse()
}

/// The numeric value of a number node.
fn num_of(v: &Value) -> f64 {
    match v {
        Value::Number(s) => s.parse::<f64>().unwrap(),
        _ => panic!("not a number value"),
    }
}

#[test]
fn structural_round_trip_object() {
    let doc = r#"{"number":123,"boolean":true,"string":"togatoga","object":{"number":2E10}}"#;
    let value = parse_doc(doc).unwrap();
    match &value {
        Value::Object(entries) => {
            assert_eq!(entries.len(), 4);
            assert_eq!(entries[0].0, "number");
            assert_eq!(num_of(&entries[0].1), 123f64);
            assert_eq!(entries[1].0, "boolean");
            assert_eq!(entries[1].1, Value::Bool(true));
            assert_eq!(entries[2].0, "string");
            assert_eq!(entries[2].1, Value::String("togatoga".to_string()));
            assert_eq!(entries[3].0, "object");
            match &entries[3].1 {
                Value::Object(inner) => {
                    assert_eq!(inner.len(), 1);
                    assert_eq!(inner[0].0, "number");
                    assert_eq!(num_of(&inner[0].1), 20000000000f64);
                }
                _ => panic!("the last entry must be a nested object"),
            }
        }
        _ => panic!("the document must parse to an object"),
    }
}

#[test]
fn array_with_mixed_types() {
    let value = parse_doc("[true, {\"キー\": null}]").unwrap();
    match &value {
        Value::Array(items) => {
            assert_eq!(items.len(), 2);
            assert_eq!(items[0], Value::Bool(true));
            match &items[1] {
                Value::Object(entries) => {
                    assert_eq!(entries.len(), 1);
                    assert_eq!(entries[0].0, "キー");
                    assert_eq!(entries[0].1, Value::Null);
                }
                _ => panic!("the second item must be an object"),
            }
        }
        _ => panic!("the document must parse to an array"),
    }
}

#[test]
fn leaf_values_parse_directly() {
    assert_eq!(parse_doc("null").unwrap(), Value::Null);
    assert_eq!(parse_doc("false").unwrap(), Value::Bool(false));
    assert_eq!(parse_doc("\"x\"").unwrap(), Value::String("x".to_string()));
    assert_eq!(num_of(&parse_doc("-0.5").unwrap()), -0.5);
}

#[test]
fn empty_object_and_array() {
    assert_eq!(parse_doc("{}").unwrap(), Value::Object(vec![]));
    assert_eq!(parse_doc("[]").unwrap(), Value::Array(vec![]));
    assert_eq!(
        parse_doc("{\"a\":[]}").unwrap(),
        Value::Object(vec![("a".to_string(), Value::Array(vec![]))])
    );
}

#[test]
fn trailing_comma_is_a_parse_error() {
    assert!(parse_doc("{\"a\":1,}").is_err());
    assert!(parse_doc("[1,]").is_err());
}

#[test]
fn structural_violations_are_parse_errors() {
    assert!(parse_doc("{").is_err());
    assert!(parse_doc("[").is_err());
    assert!(parse_doc("{\"a\"}").is_err());
    assert!(parse_doc("{\"a\":}").is_err());
    assert!(parse_doc("{1:2}").is_err());
    assert!(parse_doc("[1 2]").is_err());
    assert!(parse_doc(",").is_err());
    assert!(parse_doc("").is_err());
}

#[test]
fn duplicate_keys_are_retained_in_order() {
    let value = parse_doc("{\"a\":1,\"a\":2}").unwrap();
    match &value {
        Value::Object(entries) => {
            assert_eq!(entries.len(), 2);
            assert_eq!(entries[0].0, "a");
            assert_eq!(num_of(&entries[0].1), 1f64);
            assert_eq!(entries[1].0, "a");
            assert_eq!(num_of(&entries[1].1), 2f64);
        }
        _ => panic!("the document must parse to an object"),
    }
}

#[test]
fn trailing_tokens_are_ignored() {
    // the permissive default: the first complete value is returned
    assert_eq!(parse_doc("null true").unwrap(), Value::Null);
    assert_eq!(parse_doc("[] {}").unwrap(), Value::Array(vec![]));
}

#[test]
fn whitespace_everywhere_parses_the_same() {
    let bare = parse_doc("{\"a\":[1,true],\"b\":null}").unwrap();
    let spaced = parse_doc(" {\n  \"a\" : [ 1 ,\n true ] ,\n \"b\" : null\n } ").unwrap();
    assert_eq!(bare, spaced);
}
