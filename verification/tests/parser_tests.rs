use neki_lang::util::json5::parse;
use neki_lang::util::text::u64_to_string;
use neki_lang::util::value::{Num, Value};

fn obj(fields: Vec<(&str, Value)>) -> Value {
    Value::Object(fields.into_iter().map(|(k, v)| (k.to_string(), v)).collect())
}

#[test]
fn duplicate_keys_keep_first_position_last_value() {
    let v = parse("{\"b\":1,\"a\":2,\"b\":3}").unwrap();
    let expected = obj(vec![
        ("b", Value::Num(Num::Int(3))),
        ("a", Value::Num(Num::Int(2))),
    ]);
    assert_eq!(v, expected);
}

#[test]
fn comments_and_whitespace_are_skipped() {
    let a = parse("{\"a\" /* c */ : 1, // trailing\n \"b\": 2}").unwrap();
    let b = parse("{\"a\":1,\"b\":2}").unwrap();
    assert_eq!(a, b);
}

#[test]
fn trailing_comma_in_array_is_rejected() {
    let e = parse("[1,2,]").unwrap_err();
    assert!(e.message.contains("Superfluous trailing comma"));
}

#[test]
fn trailing_comma_in_object_is_rejected() {
    let e = parse("{\"a\":1,}").unwrap_err();
    assert!(e.message.contains("Superfluous trailing comma"));
}

#[test]
fn error_messages_carry_position_and_excerpt() {
    let e = parse("[1,2,]").unwrap_err();
    assert!(e.message.contains(" at line 1 column "));
    assert!(e.message.contains("Next part: "));
}

#[test]
fn missing_array_element_is_rejected() {
    let e = parse("[,1]").unwrap_err();
    assert!(e.message.contains("Missing array element"));
}

#[test]
fn unquoted_key_is_rejected() {
    let e = parse("{a: 1}").unwrap_err();
    assert!(e.message.contains("Unquoted key"));
}

#[test]
fn integer_valued_floats_are_integers() {
    assert_eq!(parse("1.0").unwrap(), Value::Num(Num::Int(1)));
    assert_eq!(parse("1e2").unwrap(), Value::Num(Num::Int(100)));
    assert_eq!(parse("2.5e1").unwrap(), Value::Num(Num::Int(25)));
    assert_eq!(parse("100e-2").unwrap(), Value::Num(Num::Int(1)));
}

#[test]
fn hex_literals_are_exact() {
    assert_eq!(parse("0x1F").unwrap(), Value::Num(Num::Int(31)));
    assert_eq!(parse("-0x10").unwrap(), Value::Num(Num::Int(-16)));
    assert_eq!(
        parse("0xFFFFFFFFFFFFFFFF").unwrap(),
        Value::Num(Num::UInt(u64::MAX))
    );
    let e = parse("0x10000000000000000").unwrap_err();
    assert!(e.message.contains("Bad hex number"));
}

#[test]
fn large_integers_are_exact() {
    assert_eq!(
        parse("9007199254740993").unwrap(),
        Value::Num(Num::Int(9007199254740993))
    );
    assert_eq!(
        parse("9223372036854775807").unwrap(),
        Value::Num(Num::Int(i64::MAX))
    );
    assert_eq!(
        parse("-9223372036854775808").unwrap(),
        Value::Num(Num::Int(i64::MIN))
    );
    assert_eq!(
        parse("18446744073709551615").unwrap(),
        Value::Num(Num::UInt(u64::MAX))
    );
}

#[test]
fn fractional_numbers_keep_their_lexeme() {
    match parse("1.5").unwrap() {
        Value::Num(Num::Float(f)) => {
            assert!(!f.negative);
            assert!(!f.hex);
            assert_eq!(f.lexeme, "1.5");
        }
        other => panic!("expected a float, got {:?}", other),
    }
}

#[test]
fn octal_literals_are_rejected() {
    let e = parse("012").unwrap_err();
    assert!(e.message.contains("Octal literal"));
}

#[test]
fn huge_magnitudes_are_rejected() {
    let e = parse("1e999").unwrap_err();
    assert!(e.message.contains("Bad number"));
}

#[test]
fn signed_infinity_and_nan_are_numbers() {
    assert_eq!(parse("-Infinity").unwrap(), Value::Num(Num::Inf(true)));
    assert_eq!(parse("+Infinity").unwrap(), Value::Num(Num::Inf(false)));
    assert_eq!(parse("+NaN").unwrap(), Value::Num(Num::NaN));
}

#[test]
fn bare_infinity_and_nan_are_strings() {
    assert_eq!(parse("Infinity").unwrap(), Value::Str("Infinity".to_string()));
    assert_eq!(parse("NaN").unwrap(), Value::Str("NaN".to_string()));
}

#[test]
fn string_escapes_are_decoded() {
    assert_eq!(
        parse("\"a\\n\\t\\\\b\\u0041\"").unwrap(),
        Value::Str("a\n\t\\bA".to_string())
    );
    assert_eq!(parse("'single'").unwrap(), Value::Str("single".to_string()));
}

#[test]
fn escaped_newline_is_a_continuation() {
    assert_eq!(parse("\"a\\\nb\"").unwrap(), Value::Str("ab".to_string()));
}

#[test]
fn bare_carriage_return_is_dropped_newline_kept() {
    assert_eq!(parse("\"a\r\nb\"").unwrap(), Value::Str("a\nb".to_string()));
}

#[test]
fn unterminated_string_is_rejected() {
    let e = parse("\"abc").unwrap_err();
    assert!(e.message.contains("Bad string"));
}

#[test]
fn invalid_escape_is_rejected() {
    let e = parse("\"a\\q\"").unwrap_err();
    assert!(e.message.contains("Invalid escape character"));
}

#[test]
fn invalid_unicode_escape_is_rejected() {
    let e = parse("\"\\u12G4\"").unwrap_err();
    assert!(e.message.contains("Invalid Unicode escape"));
}

#[test]
fn surrogate_codepoint_is_rejected() {
    let e = parse("\"\\uD800\"").unwrap_err();
    assert!(e.message.contains("Invalid Unicode codepoint"));
}

#[test]
fn word_literals_parse() {
    assert_eq!(parse("true").unwrap(), Value::Bool(true));
    assert_eq!(parse("false").unwrap(), Value::Bool(false));
    assert_eq!(parse("null").unwrap(), Value::Null);
}

#[test]
fn trailing_content_is_a_syntax_error() {
    let e = parse("1 2").unwrap_err();
    assert!(e.message.contains("Syntax error"));
}

#[test]
fn unexpected_word_is_rejected() {
    let e = parse("tru").unwrap_err();
    assert!(e.message.contains("Expected"));
}

#[test]
fn empty_input_is_rejected() {
    let e = parse("").unwrap_err();
    assert!(e.message.contains("Unexpected EOF"));
}

#[test]
fn nested_structures_parse() {
    let v = parse("[1, {\"k\": [true, null]}, 'x']").unwrap();
    let expected = Value::Array(vec![
        Value::Num(Num::Int(1)),
        obj(vec![(
            "k",
            Value::Array(vec![Value::Bool(true), Value::Null]),
        )]),
        Value::Str("x".to_string()),
    ]);
    assert_eq!(v, expected);
}

#[test]
fn rendered_integers_parse_back_exactly() {
    for n in [0u64, 1, 9, 10, 12345, 9007199254740993, u64::MAX] {
        let s = u64_to_string(n);
        match parse(&s).unwrap() {
            Value::Num(Num::Int(i)) => assert_eq!(i as u64, n),
            Value::Num(Num::UInt(u)) => assert_eq!(u, n),
            other => panic!("expected an integer, got {:?}", other),
        }
    }
}
