use jsonish::parse;
use jsonish::to_text;
use jsonish::ParseOutcome;
use jsonish::Value;

fn extact_output(result: ParseOutcome) -> Value {
    match result {
        ParseOutcome::Done(_, o) => o,
        ParseOutcome::StructuralError => panic!("Parse Error"),
        ParseOutcome::EncodingError => panic!("Encoding Error"),
        ParseOutcome::Incomplete => panic!("Incomplete!"),
    }
}

fn obj(k: &str, v: Value) -> Value {
    Value::Object(vec![(String::from(k), v)])
}

fn float(int_digits: &str, frac_digits: &str) -> Value {
    Value::Float { int_digits: String::from(int_digits), frac_digits: String::from(frac_digits) }
}

#[test]
fn object_test() {
    let result = extact_output(parse(r#"{"key":"value", "key2": null, "key3": [2, 3]}"#));
    let v1 = Value::String(String::from("value"));
    let v2 = Value::Null;
    let vec = vec![Value::Integer(2), Value::Integer(3)];
    let v3 = Value::Array(vec);
    let h = vec![
        (String::from("key"), v1),
        (String::from("key2"), v2),
        (String::from("key3"), v3),
    ];
    assert_eq!(result, Value::Object(h));
}

#[test]
fn nested_object_test() {
    let result = extact_output(parse(r#"{"key": {"nested": "value"}}"#));
    let nested_value = Value::String(String::from("value"));
    let v = obj("nested", nested_value);
    assert_eq!(result, obj("key", v));
}

#[test]
fn object_with_spaces_test() {
    let result = extact_output(parse("{\n\"key\": \n\"value\"\n}"));
    let v = Value::String(String::from("value"));
    assert_eq!(result, obj("key", v));
}

#[test]
fn array_test() {
    let result = extact_output(parse(r#"[12.045, "str", {"key": 100}, 2]"#));
    let one = float("12", "045");
    let s = Value::String(String::from("str"));
    let o = obj("key", Value::Integer(100));
    let two = Value::Integer(2);
    assert_eq!(result, Value::Array(vec![one, s, o, two]));
}

#[test]
fn float_before_integer_test() {
    // "12.5" is one float, never Integer(12) with ".5" left over
    match parse("12.5") {
        ParseOutcome::Done(rest, v) => {
            assert_eq!(rest, String::from(""));
            assert_eq!(v, float("12", "5"));
        }
        _ => panic!("expected a float"),
    }
}

#[test]
fn float_fallback_to_integer_test() {
    // when no digits follow the dot, only the digit run matches
    match parse("12.x") {
        ParseOutcome::Done(rest, v) => {
            assert_eq!(rest, String::from(".x"));
            assert_eq!(v, Value::Integer(12));
        }
        _ => panic!("expected an integer"),
    }
}

#[test]
fn whitespace_equivalence_test() {
    let a = extact_output(parse(r#"{"key": "value"}"#));
    let b = extact_output(parse("{\n\"key\": \n\"value\"\n}"));
    let c = extact_output(parse(r#"{"key":"value"}"#));
    let d = extact_output(parse("{\t\"key\"\t:\r\"value\"\r}"));
    let expected = obj("key", Value::String(String::from("value")));
    assert_eq!(a, expected);
    assert_eq!(b, expected);
    assert_eq!(c, expected);
    assert_eq!(d, expected);
}

#[test]
fn duplicate_key_test() {
    // the later value wins, and the key appears once
    let result = extact_output(parse(r#"{"a":1,"a":2}"#));
    assert_eq!(result, obj("a", Value::Integer(2)));
}

#[test]
fn unterminated_string_test() {
    let result = parse(r#"{"key": "value}"#);
    assert!(matches!(
        result,
        ParseOutcome::Incomplete | ParseOutcome::StructuralError
    ));
}

#[test]
fn missing_colon_test() {
    let result = parse(r#"{"key" "value"}"#);
    assert!(matches!(result, ParseOutcome::StructuralError));
}

#[test]
fn empty_object_test() {
    assert_eq!(extact_output(parse("{}")), Value::Object(vec![]));
    assert_eq!(extact_output(parse("{ }")), Value::Object(vec![]));
}

#[test]
fn empty_array_test() {
    assert_eq!(extact_output(parse("[]")), Value::Array(vec![]));
    assert_eq!(extact_output(parse("[ ]")), Value::Array(vec![]));
}

#[test]
fn empty_input_test() {
    assert!(matches!(parse(""), ParseOutcome::Incomplete));
    assert!(matches!(parse("   "), ParseOutcome::Incomplete));
}

#[test]
fn null_test() {
    match parse(" null ") {
        ParseOutcome::Done(rest, v) => {
            assert_eq!(v, Value::Null);
            assert_eq!(rest, String::from(""));
        }
        _ => panic!("expected null"),
    }
}

#[test]
fn trailing_text_test() {
    match parse("12 tail") {
        ParseOutcome::Done(rest, v) => {
            assert_eq!(v, Value::Integer(12));
            assert_eq!(rest, String::from(" tail"));
        }
        _ => panic!("expected an integer with a tail"),
    }
}

#[test]
fn integer_bounds_test() {
    assert_eq!(
        extact_output(parse("9223372036854775807")),
        Value::Integer(9223372036854775807)
    );
    // one past the largest integer: no alternative matches
    assert!(matches!(
        parse("9223372036854775808"),
        ParseOutcome::StructuralError
    ));
}

#[test]
fn incomplete_tokens_test() {
    assert!(matches!(parse("12."), ParseOutcome::Incomplete));
    assert!(matches!(parse("\"abc"), ParseOutcome::Incomplete));
    assert!(matches!(parse("nul"), ParseOutcome::Incomplete));
    assert!(matches!(parse("{\"a\":1"), ParseOutcome::Incomplete));
    assert!(matches!(parse("[1,"), ParseOutcome::Incomplete));
}

#[test]
fn rejected_inputs_test() {
    // an empty string has no interior character
    assert!(matches!(parse("\"\""), ParseOutcome::StructuralError));
    assert!(matches!(parse("~"), ParseOutcome::StructuralError));
    assert!(matches!(parse("nulx"), ParseOutcome::StructuralError));
    // a trailing comma leaves the closing bracket unmatched
    assert!(matches!(parse("[1,]"), ParseOutcome::StructuralError));
    assert!(matches!(parse("{\"a\":1,}"), ParseOutcome::StructuralError));
}

#[test]
fn round_trip_test() {
    let tree = Value::Object(vec![
        (String::from("a"), Value::Integer(1)),
        (String::from("b"), float("12", "045")),
        (
            String::from("c"),
            Value::Array(vec![Value::Null, Value::String(String::from("x"))]),
        ),
        (String::from("d"), Value::Object(vec![])),
    ]);
    let text = to_text(&tree).expect("the tree is writable");
    assert_eq!(text, String::from(r#"{"a":1,"b":12.045,"c":[null,"x"],"d":{}}"#));
    match parse(&text) {
        ParseOutcome::Done(rest, back) => {
            assert_eq!(rest, String::from(""));
            assert_eq!(back, tree);
        }
        _ => panic!("the written text must parse"),
    }
}

#[test]
fn to_text_rejects_test() {
    // the grammar knows no sign
    assert!(to_text(&Value::Integer(-1)).is_none());
    // nor an empty string
    assert!(to_text(&Value::String(String::from(""))).is_none());
    // nor a quote inside a string
    assert!(to_text(&Value::String(String::from("a\"b"))).is_none());
    // nor an empty digit run
    assert!(to_text(&float("12", "")).is_none());
    // a repeated key could not parse back to the same tree
    let dup = Value::Object(vec![
        (String::from("a"), Value::Integer(1)),
        (String::from("a"), Value::Integer(2)),
    ]);
    assert!(to_text(&dup).is_none());
}
