use json_parser::parser::{parse, Error, Value};

fn assert_invalid(json: &'static str) {
    assert!(parse(json).is_err(), "Invalid JSON was parsed\n");
}

fn assert_parse(target: Value, json: &'static str) {
    let result = parse(json).expect("Could not parse json\n");
    assert_eq!(target, result);
}

fn number_value(v: &Value) -> f64 {
    match v {
        Value::Number(text) => text.parse::<f64>().unwrap(),
        _ => panic!("not a number"),
    }
}

#[test]
fn parses_null() {
    assert_parse(Value::Null, "null");
}

#[test]
fn parses_bool() {
    assert_parse(Value::Boolean(false), "false");
    assert_parse(Value::Boolean(true), "true");
}

#[test]
fn parses_number() {
    assert_parse(Value::Number("100".to_string()), "100");
    assert_parse(Value::Number("0".to_string()), "0");
    assert_parse(Value::Number("100.20".to_string()), "100.20");
    assert_eq!(number_value(&parse("100").unwrap()), 100.0);
    assert_eq!(number_value(&parse("0").unwrap()), 0.0);
    assert_eq!(number_value(&parse("100.20").unwrap()), 100.2);
}

#[test]
fn parses_string() {
    assert_parse(Value::String("foobar".into()), "\"foobar\"")
}

#[test]
fn parses_array() {
    let numbers = ["1", "2", "3", "4", "5"]
        .iter()
        .map(|n| Value::Number(n.to_string()))
        .collect();
    assert_parse(Value::Array(numbers), "[1,2,3,4, 5]");
    let elements: Vec<f64> = match parse("[1,2,3,4, 5]").unwrap() {
        Value::Array(vs) => vs.iter().map(number_value).collect(),
        _ => panic!("not an array"),
    };
    assert_eq!(elements, vec![1.0, 2.0, 3.0, 4.0, 5.0]);
}

#[test]
fn parses_object() {
    let numbers = ["1", "2", "3", "4", "5"]
        .iter()
        .map(|n| Value::Number(n.to_string()))
        .collect();
    let object = vec![
        ("foo".to_string(), Value::Boolean(true)),
        ("bar".to_string(), Value::Number("0".to_string())),
        ("num".to_string(), Value::Array(numbers)),
    ];
    assert_parse(
        Value::Object(object),
        r#"{
                "foo": true,
                "bar": 0,
                "num": [1,2,3,4,5]
            }"#,
    )
}

#[test]
fn parses_escapes() {
    assert_parse(Value::String("\"".into()), r#""\"""#);
    assert_parse(Value::String("\\".into()), r#""\\""#);
    assert_parse(Value::String("/".into()), r#""\/""#);
    assert_parse(Value::String("\u{0008}".into()), r#""\b""#);
    assert_parse(Value::String("\u{000C}".into()), r#""\f""#);
    assert_parse(Value::String("\n".into()), r#""\n""#);
    assert_parse(Value::String("\r".into()), r#""\r""#);
    assert_parse(Value::String("\t".into()), r#""\t""#);
    assert_parse(Value::String("a\nb".into()), r#""a\nb""#);
    // a run of every escape, in one document
    assert_parse(
        Value::String("\"\\/\u{0008}\u{000C}\n\r\t".into()),
        r#""\"\\\/\b\f\n\r\t""#,
    );
}

#[test]
fn parses_unicode_escapes() {
    assert_parse(Value::String("A".into()), r#""A""#);
    assert_parse(Value::String("snow \u{2603}".into()), "\"snow \\u2603\"");
    // a surrogate pair decodes to one character above the BMP
    assert_parse(Value::String("\u{1F600}".into()), "\"\\uD83D\\uDE00\"");
    // a lone surrogate names no character
    assert_invalid(r#""\uD83D""#);
    assert_invalid(r#""\uDE00""#);
    // too few hex digits
    assert_invalid(r#""\u00""#);
}

#[test]
fn parses_empty_containers() {
    assert_parse(Value::Array(Vec::new()), "[]");
    assert_parse(Value::Object(Vec::new()), "{}");
    assert_parse(Value::Array(Vec::new()), "  [ ]  ");
}

#[test]
fn duplicate_keys_last_write_wins() {
    let object = vec![("a".to_string(), Value::Number("2".to_string()))];
    assert_parse(Value::Object(object), r#"{"a": 1, "a": 2}"#);
}

#[test]
fn rejects_trailing_commas() {
    // rejected alike in objects and arrays
    assert_invalid(r#"{"true": true, "false": false,}"#);
    assert_invalid("[1,2,]");
    assert_invalid("[,]");
    assert_invalid("{,}");
}

#[test]
fn rejects_malformed_documents() {
    assert_invalid("");
    assert_invalid("\"unterminated");
    assert_invalid("1.");
    assert_invalid(".5");
    assert_invalid("nul");
    assert_invalid("hello");
    assert_invalid("\"bad \\x escape\"");
    assert_invalid("[1 2]");
    assert_invalid("{\"a\" 1}");
    assert_invalid("{1: 2}");
    assert_invalid("null null");
    assert_invalid("@");
}

#[test]
fn reports_error_kinds() {
    assert_eq!(parse(""), Err(Error::UnexpectedEndOfInput));
    assert_eq!(parse("[1, 2"), Err(Error::UnexpectedEndOfInput));
    assert_eq!(parse("@"), Err(Error::LexicalError));
    assert_eq!(parse("\"unterminated"), Err(Error::LexicalError));
    assert_eq!(parse("1."), Err(Error::LexicalError));
    assert_eq!(parse("]"), Err(Error::UnexpectedToken));
    assert_eq!(parse("null null"), Err(Error::UnexpectedToken));
    assert_eq!(parse("{\"a\": 1,}"), Err(Error::UnexpectedToken));
}

#[test]
fn numbers_follow_the_grammar() {
    assert_parse(Value::Number("-0".to_string()), "-0");
    assert_parse(Value::Number("1e9".to_string()), "1e9");
    assert_parse(Value::Number("1.5e-3".to_string()), "1.5e-3");
    assert_parse(Value::Number("0.25E+2".to_string()), "0.25E+2");
    assert_eq!(number_value(&parse("1.5e-3").unwrap()), 0.0015);
    // a leading zero ends the integer part
    assert_invalid("01");
    assert_invalid("-");
    assert_invalid("1e");
    assert_invalid("1e+");
}

#[test]
fn parses_nested_documents() {
    // call depth follows nesting depth; a moderately deep document is fine
    let mut text = String::new();
    for _ in 0..200 {
        text.push('[');
    }
    text.push_str("null");
    for _ in 0..200 {
        text.push(']');
    }
    let mut value = parse(&text).unwrap();
    let mut depth = 0;
    while let Value::Array(mut vs) = value {
        assert_eq!(vs.len(), 1);
        value = vs.pop().unwrap();
        depth += 1;
    }
    assert_eq!(depth, 200);
    assert_eq!(value, Value::Null);
}

#[test]
fn parsing_twice_is_deterministic() {
    let text = r#"{"foo": [1, 2, {"bar": "baz\n"}], "x": null}"#;
    assert_eq!(parse(text), parse(text));
    assert_eq!(parse("[1,2,"), parse("[1,2,"));
}
